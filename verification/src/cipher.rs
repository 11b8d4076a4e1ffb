use vstd::prelude::*;

use crate::text::{decimal, push_char, push_decimal};

verus! {

/// An ASCII capital letter.
pub open spec fn is_upper(c: char) -> bool {
    'A' <= c && c <= 'Z'
}

/// An ASCII small letter.
pub open spec fn is_lower(c: char) -> bool {
    'a' <= c && c <= 'z'
}

/// An ASCII letter of either case.
pub open spec fn is_alpha(c: char) -> bool {
    is_upper(c) || is_lower(c)
}

/// Position of a letter in the alphabet (0 for `a` or `A`), case ignored.
pub open spec fn letter_index(c: char) -> int {
    if is_upper(c) {
        c as int - 'A' as int
    } else {
        c as int - 'a' as int
    }
}

/// Moves a letter `shift` places along the alphabet, wrapping round and
/// keeping its case; any other character is left as it is.
pub open spec fn shift_char(c: char, shift: int) -> char {
    if is_upper(c) {
        ((letter_index(c) + shift) % 26 + 'A' as int) as char
    } else if is_lower(c) {
        ((letter_index(c) + shift) % 26 + 'a' as int) as char
    } else {
        c
    }
}

/// The alphabet positions of the letters of `s`, in order; every other
/// character is skipped.
pub open spec fn letter_values(s: Seq<char>) -> Seq<int>
    decreases s.len(),
{
    if s.len() == 0 {
        Seq::empty()
    } else {
        let prev = letter_values(s.drop_last());
        if is_alpha(s.last()) {
            prev.push(letter_index(s.last()))
        } else {
            prev
        }
    }
}

/// The number of letters among the first `i` characters of `s`.
pub open spec fn letters_before(s: Seq<char>, i: int) -> int {
    letter_values(s.take(i)).len() as int
}

/// Caesar: every letter moved `shift` places.
pub open spec fn caesar_spec(text: Seq<char>, shift: int) -> Seq<char> {
    text.map_values(|c: char| shift_char(c, shift))
}

/// Vigenère: the `n`-th letter of the text is moved by the `n`-th letter of
/// the key, the key's letters taken round and round (backwards to decode).
/// A key without letters leaves the text as it is.
pub open spec fn vigenere_spec(text: Seq<char>, key: Seq<char>, decode: bool) -> Seq<char> {
    let keys = letter_values(key);
    if keys.len() == 0 {
        text
    } else {
        Seq::new(
            text.len(),
            |i: int|
                {
                    let k = keys[letters_before(text, i) % keys.len() as int];
                    shift_char(text[i], if decode { -k } else { k })
                },
        )
    }
}

/// Beaufort on one character: a letter at position `p` becomes the letter at
/// position `k - p` (mod 26), in the same case.
pub open spec fn beaufort_char(c: char, k: int) -> char {
    if is_upper(c) {
        ((k - letter_index(c)) % 26 + 'A' as int) as char
    } else if is_lower(c) {
        ((k - letter_index(c)) % 26 + 'a' as int) as char
    } else {
        c
    }
}

/// Beaufort: the `n`-th letter of the text is reflected through the `n`-th
/// letter of the key, the key taken round and round.
pub open spec fn beaufort_spec(text: Seq<char>, key: Seq<char>) -> Seq<char> {
    let keys = letter_values(key);
    if keys.len() == 0 {
        text
    } else {
        Seq::new(
            text.len(),
            |i: int| beaufort_char(text[i], keys[letters_before(text, i) % keys.len() as int]),
        )
    }
}

/// The plaintext letters that autokey decoding recovers from the cipher letters
/// `cipher`: each is the cipher letter less the key letter at its place, where
/// the key stream is the primer followed by the plaintext recovered so far.
pub open spec fn autokey_plain(cipher: Seq<int>, primer: Seq<int>) -> Seq<int>
    decreases cipher.len(),
{
    if cipher.len() == 0 {
        Seq::empty()
    } else {
        let prev = autokey_plain(cipher.drop_last(), primer);
        prev.push((cipher.last() - (primer + prev)[cipher.len() - 1]) % 26)
    }
}

/// The autokey key stream for `text`: the primer's letters followed by the
/// plaintext letters (those of `text` to encode, the recovered ones to decode).
pub open spec fn autokey_stream(text: Seq<char>, primer: Seq<char>, decode: bool) -> Seq<int> {
    let pk = letter_values(primer);
    if decode {
        pk + autokey_plain(letter_values(text), pk)
    } else {
        pk + letter_values(text)
    }
}

/// Autokey: the `n`-th letter of the text is moved by the `n`-th entry of the
/// key stream. A primer without letters leaves the text as it is.
pub open spec fn autokey_spec(text: Seq<char>, primer: Seq<char>, decode: bool) -> Seq<char> {
    if letter_values(primer).len() == 0 {
        text
    } else {
        let stream = autokey_stream(text, primer, decode);
        Seq::new(
            text.len(),
            |i: int|
                {
                    let k = stream[letters_before(text, i)];
                    shift_char(text[i], if decode { -k } else { k })
                },
        )
    }
}

/// Decoding recovers one plaintext letter per cipher letter.
pub proof fn lemma_autokey_plain_len(cipher: Seq<int>, primer: Seq<int>)
    ensures
        autokey_plain(cipher, primer).len() == cipher.len(),
    decreases cipher.len(),
{
    if cipher.len() > 0 {
        lemma_autokey_plain_len(cipher.drop_last(), primer);
    }
}

/// The letters before position `i + 1` are those before `i`, and one more if
/// the character at `i` is a letter.
pub proof fn lemma_letter_values_step(s: Seq<char>, i: int)
    requires
        0 <= i < s.len(),
    ensures
        letter_values(s.take(i + 1)) == if is_alpha(s[i]) {
            letter_values(s.take(i)).push(letter_index(s[i]))
        } else {
            letter_values(s.take(i))
        },
{
    assert(s.take(i + 1).drop_last() =~= s.take(i));
}

/// Every letter value lies in `0..26`.
pub proof fn lemma_letter_values_range(s: Seq<char>)
    ensures
        forall|j: int| 0 <= j < letter_values(s).len() ==> 0 <= #[trigger] letter_values(s)[j] < 26,
    decreases s.len(),
{
    if s.len() > 0 {
        lemma_letter_values_range(s.drop_last());
        let prev = letter_values(s.drop_last());
        if is_alpha(s.last()) {
            assert(0 <= letter_index(s.last()) < 26);
            assert(forall|j: int| 0 <= j < prev.len() ==> #[trigger] prev.push(letter_index(s.last()))[j] == prev[j]);
        }
    }
}

/// The Euclidean remainder of `x` modulo 26.
fn mod26(x: i32) -> (r: u32)
    ensures
        r == x as int % 26,
        r < 26,
{
    if x >= 0 {
        let u: u32 = x as u32;
        u % 26
    } else {
        let y: u64 = (0 - (x as i64)) as u64;
        let m: u64 = y % 26;
        assert((x as int) % 26 == (26 - m) % 26) by {
            assert(y == -(x as int));
            vstd::arithmetic::div_mod::lemma_sub_mod_noop(0, y as int, 26);
            vstd::arithmetic::div_mod::lemma_add_mod_noop(26, -(y as int), 26);
        }
        if m == 0 {
            0
        } else {
            (26 - m) as u32
        }
    }
}

/// A letter (`u` in `0..26`) placed in the alphabet that starts at `base`.
fn letter_at(base: char, u: u32) -> (r: char)
    requires
        base == 'A' || base == 'a',
        u < 26,
    ensures
        r == (base as int + u) as char,
{
    let x: u32 = base as u32 + u;
    let b: u8 = x as u8;
    b as char
}

fn shift_letter(c: char, shift: i32) -> (r: char)
    ensures
        r == shift_char(c, shift as int),
{
    let s: u32 = mod26(shift);
    if 'A' <= c && c <= 'Z' {
        proof {
            vstd::arithmetic::div_mod::lemma_add_mod_noop_right(c as int - 'A' as int, shift as int, 26);
        }
        letter_at('A', (c as u32 - 'A' as u32 + s) % 26)
    } else if 'a' <= c && c <= 'z' {
        proof {
            vstd::arithmetic::div_mod::lemma_add_mod_noop_right(c as int - 'a' as int, shift as int, 26);
        }
        letter_at('a', (c as u32 - 'a' as u32 + s) % 26)
    } else {
        c
    }
}

fn beaufort_letter(c: char, k: i32) -> (r: char)
    requires
        0 <= k < 26,
    ensures
        r == beaufort_char(c, k as int),
{
    if 'A' <= c && c <= 'Z' {
        let p: i32 = (c as u32 - 'A' as u32) as i32;
        letter_at('A', mod26(k - p))
    } else if 'a' <= c && c <= 'z' {
        let p: i32 = (c as u32 - 'a' as u32) as i32;
        letter_at('a', mod26(k - p))
    } else {
        c
    }
}

/// The alphabet positions of the letters of `key`, in order.
fn letter_shifts(key: &str) -> (r: Vec<i32>)
    ensures
        r@.len() == letter_values(key@).len(),
        forall|j: int| 0 <= j < r@.len() ==> r@[j] as int == #[trigger] letter_values(key@)[j],
        forall|j: int| 0 <= j < r@.len() ==> 0 <= #[trigger] r@[j] < 26,
{
    let mut r: Vec<i32> = Vec::new();
    for c in it: key.chars()
        invariant
            it.seq() == key@,
            r@.len() == letter_values(key@.take(it.index() as int)).len(),
            forall|j: int|
                0 <= j < r@.len() ==> r@[j] as int == #[trigger] letter_values(
                    key@.take(it.index() as int),
                )[j],
            forall|j: int| 0 <= j < r@.len() ==> 0 <= #[trigger] r@[j] < 26,
    {
        proof {
            lemma_letter_values_step(key@, it.index() as int);
        }
        if 'A' <= c && c <= 'Z' {
            r.push((c as u32 - 'A' as u32) as i32);
        } else if 'a' <= c && c <= 'z' {
            r.push((c as u32 - 'a' as u32) as i32);
        }
    }
    proof {
        assert(key@.take(key@.len() as int) =~= key@);
    }
    r
}

/// The Caesar shift of `text` can be computed in `i32`: every letter's
/// alphabet position plus `shift` is at most `i32::MAX`.
pub open spec fn caesar_fits(text: Seq<char>, shift: int) -> bool {
    forall|i: int| 0 <= i < text.len() && is_alpha(#[trigger] text[i]) ==> letter_index(text[i]) + shift <= i32::MAX
}

/// Whether `use_caesar` can shift `text` by `shift` (see `caesar_fits`).
pub fn caesar_shift_fits(text: &str, shift: i32) -> (r: bool)
    ensures
        r == caesar_fits(text@, shift as int),
{
    let mut ok = true;
    for c in it: text.chars()
        invariant
            it.seq() == text@,
            ok == forall|i: int|
                0 <= i < it.index() && is_alpha(#[trigger] text@[i]) ==> letter_index(text@[i]) + shift
                    <= i32::MAX,
    {
        let ghost i = it.index() as int;
        if 'A' <= c && c <= 'Z' {
            if shift > i32::MAX - (c as u32 - 'A' as u32) as i32 {
                ok = false;
            }
        } else if 'a' <= c && c <= 'z' {
            if shift > i32::MAX - (c as u32 - 'a' as u32) as i32 {
                ok = false;
            }
        }
    }
    ok
}

/// Shifts every ASCII letter of `text` by `shift` places, wrapping round the
/// alphabet and keeping its case; every other character passes through. The
/// letter's position plus the shift is computed in `i32`, so it must fit.
pub fn use_caesar(text: &str, shift: i32) -> (r: String)
    requires
        caesar_fits(text@, shift as int),
    ensures
        r@ == caesar_spec(text@, shift as int),
{
    let mut out = String::new();
    for c in it: text.chars()
        invariant
            it.seq() == text@,
            out@ == Seq::new(it.index() as nat, |i: int| shift_char(text@[i], shift as int)),
    {
        push_char(&mut out, shift_letter(c, shift));
    }
    proof {
        assert(out@ =~= caesar_spec(text@, shift as int));
    }
    out
}

/// Vigenère cipher: each letter of `text` is shifted by the next letter of
/// `key` (its letters only, case ignored, taken round and round); with
/// `decode` the shift goes backwards. Non-letters pass through and do not use
/// up a key letter. A key without letters returns `text` unchanged.
pub fn use_vigenere(text: &str, key: &str, decode: bool) -> (r: String)
    ensures
        r@ == vigenere_spec(text@, key@, decode),
{
    let keys = letter_shifts(key);
    if keys.len() == 0 {
        return String::from_str(text);
    }
    let ghost kv = letter_values(key@);
    let n: usize = text.unicode_len();
    let mut ki: usize = 0;
    let mut out = String::new();
    for c in it: text.chars()
        invariant
            it.seq() == text@,
            n == text@.len(),
            keys@.len() == kv.len(),
            kv.len() > 0,
            forall|j: int| 0 <= j < keys@.len() ==> keys@[j] as int == #[trigger] kv[j],
            forall|j: int| 0 <= j < keys@.len() ==> 0 <= #[trigger] keys@[j] < 26,
            ki == letters_before(text@, it.index() as int),
            ki <= it.index(),
            out@ == Seq::new(
                it.index() as nat,
                |i: int|
                    {
                        let k = kv[letters_before(text@, i) % kv.len() as int];
                        shift_char(text@[i], if decode { -k } else { k })
                    },
            ),
    {
        proof {
            lemma_letter_values_step(text@, it.index() as int);
        }
        if ('A' <= c && c <= 'Z') || ('a' <= c && c <= 'z') {
            let k: i32 = keys[ki % keys.len()];
            ki = ki + 1;
            let d = if decode { shift_letter(c, -k) } else { shift_letter(c, k) };
            push_char(&mut out, d);
        } else {
            push_char(&mut out, c);
        }
    }
    proof {
        assert(out@ =~= vigenere_spec(text@, key@, decode));
    }
    out
}

/// Beaufort cipher: each letter at alphabet position `p` becomes the letter at
/// position `k - p` (mod 26), `k` being the next key letter (key letters only,
/// taken round and round); case is kept and non-letters pass through. A key
/// without letters returns `text` unchanged.
pub fn use_beaufort(text: &str, key: &str) -> (r: String)
    ensures
        r@ == beaufort_spec(text@, key@),
{
    let keys = letter_shifts(key);
    if keys.len() == 0 {
        return String::from_str(text);
    }
    let ghost kv = letter_values(key@);
    let n: usize = text.unicode_len();
    let mut ki: usize = 0;
    let mut out = String::new();
    for c in it: text.chars()
        invariant
            it.seq() == text@,
            n == text@.len(),
            keys@.len() == kv.len(),
            kv.len() > 0,
            forall|j: int| 0 <= j < keys@.len() ==> keys@[j] as int == #[trigger] kv[j],
            forall|j: int| 0 <= j < keys@.len() ==> 0 <= #[trigger] keys@[j] < 26,
            ki == letters_before(text@, it.index() as int),
            ki <= it.index(),
            out@ == Seq::new(
                it.index() as nat,
                |i: int| beaufort_char(text@[i], kv[letters_before(text@, i) % kv.len() as int]),
            ),
    {
        proof {
            lemma_letter_values_step(text@, it.index() as int);
        }
        if ('A' <= c && c <= 'Z') || ('a' <= c && c <= 'z') {
            let k: i32 = keys[ki % keys.len()];
            ki = ki + 1;
            push_char(&mut out, beaufort_letter(c, k));
        } else {
            push_char(&mut out, c);
        }
    }
    proof {
        assert(out@ =~= beaufort_spec(text@, key@));
    }
    out
}


/// Autokey cipher: letters of `text` are shifted by a key stream that starts
/// with the letters of `primer` and goes on with the plaintext's own letters
/// (those of `text` to encode, the recovered ones to decode); with `decode` the
/// shift goes backwards. Non-letters pass through and do not use up the
/// stream. A primer without letters returns `text` unchanged.
pub fn use_autokey(text: &str, primer: &str, decode: bool) -> (r: String)
    ensures
        r@ == autokey_spec(text@, primer@, decode),
{
    let mut stream = letter_shifts(primer);
    if stream.len() == 0 {
        return String::from_str(text);
    }
    let ghost pk = letter_values(primer@);
    let n: usize = text.unicode_len();
    let mut ki: usize = 0;
    let mut out = String::new();
    for c in it: text.chars()
        invariant
            it.seq() == text@,
            n == text@.len(),
            pk == letter_values(primer@),
            pk.len() > 0,
            ki == letters_before(text@, it.index() as int),
            ki <= it.index(),
            stream@.len() == pk.len() + ki,
            forall|j: int|
                0 <= j < stream@.len() ==> #[trigger] stream@[j] as int == (pk + if decode {
                    autokey_plain(letter_values(text@.take(it.index() as int)), pk)
                } else {
                    letter_values(text@.take(it.index() as int))
                })[j],
            forall|j: int| 0 <= j < stream@.len() ==> 0 <= #[trigger] stream@[j] < 26,
            forall|j: int| 0 <= j < it.index() ==> letters_before(text@, j) <= ki,
            out@ == Seq::new(
                it.index() as nat,
                |i: int|
                    {
                        let k = stream@[letters_before(text@, i)] as int;
                        shift_char(text@[i], if decode { -k } else { k })
                    },
            ),
    {
        let ghost idx = it.index() as int;
        let ghost old_stream = stream@;
        let ghost lv = letter_values(text@.take(idx));
        proof {
            lemma_letter_values_step(text@, idx);
        }
        if ('A' <= c && c <= 'Z') || ('a' <= c && c <= 'z') {
            let p: i32 = if c <= 'Z' {
                (c as u32 - 'A' as u32) as i32
            } else {
                (c as u32 - 'a' as u32) as i32
            };
            let k: i32 = stream[ki];
            ki = ki + 1;
            if decode {
                let plain: i32 = mod26(p - k) as i32;
                proof {
                    lemma_autokey_plain_len(lv, pk);
                    lemma_autokey_plain_len(lv.push(letter_index(c)), pk);
                }
                stream.push(plain);
                push_char(&mut out, shift_letter(c, -k));
                proof {
                    let lv2 = lv.push(letter_index(c));
                    assert(lv2.drop_last() =~= lv);
                    assert(autokey_plain(lv2, pk) == autokey_plain(lv, pk).push(
                        (letter_index(c) - (pk + autokey_plain(lv, pk))[lv.len() as int]) % 26,
                    ));
                    assert(pk + autokey_plain(lv2, pk) =~= (pk + autokey_plain(lv, pk)).push(
                        plain as int,
                    ));
                }
            } else {
                stream.push(p);
                push_char(&mut out, shift_letter(c, k));
                proof {
                    assert(pk + letter_values(text@.take(idx + 1)) =~= (pk + lv).push(p as int));
                }
            }
        } else {
            push_char(&mut out, c);
        }
        proof {
            assert forall|i: int| 0 <= i < idx implies stream@[letters_before(text@, i)]
                == old_stream[letters_before(text@, i)] by {}
            assert(letters_before(text@, idx) == ki || letters_before(text@, idx) + 1 == ki);
        }
    }
    proof {
        assert(text@.take(text@.len() as int) =~= text@);
        assert(out@ =~= autokey_spec(text@, primer@, decode));
    }
    out
}


/// The letters of `key`, in order, made lowercase; every other character is
/// dropped.
pub open spec fn key_letters(key: Seq<char>) -> Seq<char> {
    letter_values(key).map_values(|v: int| (v + 'a' as int) as char)
}

/// The lowercase form of an ASCII capital; any other character is unchanged.
pub open spec fn to_lower(c: char) -> char {
    if is_upper(c) {
        (c as int + 32) as char
    } else {
        c
    }
}

/// The capital form of an ASCII small letter; any other character is unchanged.
pub open spec fn to_upper(c: char) -> char {
    if is_lower(c) {
        (c as int - 32) as char
    } else {
        c
    }
}

/// The position of the first `c` in `s`, if there is one.
pub open spec fn first_index(s: Seq<char>, c: char) -> Option<int>
    decreases s.len(),
{
    if s.len() == 0 {
        None
    } else {
        match first_index(s.drop_last(), c) {
            Some(j) => Some(j),
            None => if s.last() == c {
                Some(s.len() - 1)
            } else {
                None
            },
        }
    }
}

/// `first_index` finds the first occurrence, and finds none only where there
/// is none.
pub proof fn lemma_first_index(s: Seq<char>, c: char)
    ensures
        first_index(s, c) matches Some(j) ==> 0 <= j < s.len() && s[j] == c && forall|k: int|
            0 <= k < j ==> s[k] != c,
        first_index(s, c) is None ==> forall|k: int| 0 <= k < s.len() ==> s[k] != c,
    decreases s.len(),
{
    if s.len() > 0 {
        lemma_first_index(s.drop_last(), c);
        assert forall|k: int| 0 <= k < s.len() - 1 implies s[k] == s.drop_last()[k] by {}
    }
}

/// The message that `use_substitute` returns for a key of fewer than 26 letters.
pub open spec fn short_key_message(n: nat) -> Seq<char> {
    "null*y26 - use 26 letters! - only "@ + decimal(n)
}

/// Substitution on one character with the key letters `kl`: a letter at
/// alphabet position `i` becomes `kl[i]`; to decode, a letter becomes the
/// letter whose position is that of its first occurrence in `kl` (the
/// character of code `97 + j % 256` for position `j`), or stays itself when
/// `kl` lacks it. A small letter's result is then made capital; a capital's
/// result is left as it came.
pub open spec fn substitute_char(c: char, kl: Seq<char>, decode: bool) -> char {
    if !is_alpha(c) {
        c
    } else {
        let mapped = if decode {
            match first_index(kl, to_lower(c)) {
                Some(j) => (97 + j % 256) as char,
                None => c,
            }
        } else {
            kl[letter_index(c)]
        };
        if is_lower(c) {
            to_upper(mapped)
        } else {
            mapped
        }
    }
}

/// Substitution cipher with the letters of `key`; a key of fewer than 26
/// letters gives the short-key message instead.
pub open spec fn substitute_spec(text: Seq<char>, key: Seq<char>, decode: bool) -> Seq<char> {
    let kl = key_letters(key);
    if kl.len() < 26 {
        short_key_message(kl.len())
    } else {
        text.map_values(|c: char| substitute_char(c, kl, decode))
    }
}

/// Decoding writes each found letter as the byte `b'a' + j as u8`; the sum
/// must not overflow a byte, so every letter of `text` that occurs in the key
/// must first occur at a position `j` with `j % 256 <= 158`.
pub open spec fn substitute_decodable(text: Seq<char>, kl: Seq<char>) -> bool {
    forall|i: int|
        0 <= i < text.len() && is_alpha(#[trigger] text[i]) ==> (first_index(kl, to_lower(text[i]))
            matches Some(j) ==> j % 256 <= 158)
}

/// The letters of `key`, lowercase.
pub(crate) fn key_letter_chars(key: &str) -> (r: Vec<char>)
    ensures
        r@ == key_letters(key@),
{
    let shifts = letter_shifts(key);
    let mut r: Vec<char> = Vec::new();
    let mut i: usize = 0;
    while i < shifts.len()
        invariant
            i <= shifts@.len(),
            shifts@.len() == letter_values(key@).len(),
            forall|j: int| 0 <= j < shifts@.len() ==> shifts@[j] as int == #[trigger] letter_values(key@)[j],
            forall|j: int| 0 <= j < shifts@.len() ==> 0 <= #[trigger] shifts@[j] < 26,
            r@ == key_letters(key@).take(i as int),
        decreases shifts.len() - i,
    {
        let c = letter_at('a', shifts[i] as u32);
        r.push(c);
        i = i + 1;
        proof {
            assert(r@ =~= key_letters(key@).take(i as int));
        }
    }
    proof {
        assert(r@ =~= key_letters(key@));
    }
    r
}

pub(crate) fn find_first(kl: &Vec<char>, c: char) -> (r: Option<usize>)
    ensures
        r matches Some(j) ==> first_index(kl@, c) == Some(j as int),
        r is None ==> first_index(kl@, c) is None,
{
    proof {
        lemma_first_index(kl@, c);
    }
    let mut j: usize = 0;
    while j < kl.len()
        invariant
            j <= kl@.len(),
            forall|k: int| 0 <= k < j ==> kl@[k] != c,
            first_index(kl@, c) matches Some(f) ==> 0 <= f < kl@.len() && kl@[f] == c && forall|k: int|
                0 <= k < f ==> kl@[k] != c,
            first_index(kl@, c) is None ==> forall|k: int| 0 <= k < kl@.len() ==> kl@[k] != c,
        decreases kl.len() - j,
    {
        if kl[j] == c {
            return Some(j);
        }
        j = j + 1;
    }
    None
}

fn upper_of(c: char) -> (r: char)
    ensures
        r == to_upper(c),
{
    if 'a' <= c && c <= 'z' {
        let b: u8 = (c as u32 - 32) as u8;
        b as char
    } else {
        c
    }
}

pub(crate) fn lower_of(c: char) -> (r: char)
    ensures
        r == to_lower(c),
{
    if 'A' <= c && c <= 'Z' {
        let b: u8 = (c as u32 + 32) as u8;
        b as char
    } else {
        c
    }
}

/// Substitution cipher: the letters of `key` (case ignored, other characters
/// dropped) give the cipher alphabet, `key[i]` standing for the `i`-th letter.
/// To encode, a letter becomes the key letter at its position; to decode, it
/// becomes the letter at the position where it first occurs in the key (or
/// stays itself if the key lacks it). A small letter comes out capital, a
/// capital comes out as mapped; non-letters pass through. A key with fewer
/// than 26 letters gives the message
/// `null*y26 - use 26 letters! - only <count>` in place of a result.
pub fn use_substitute(text: &str, key: &str, decode: bool) -> (r: String)
    requires
        decode && key_letters(key@).len() >= 26 ==> substitute_decodable(text@, key_letters(key@)),
    ensures
        r@ == substitute_spec(text@, key@, decode),
{
    let kl = key_letter_chars(key);
    if kl.len() < 26 {
        let mut msg = String::from_str("null*y26 - use 26 letters! - only ");
        push_decimal(&mut msg, kl.len() as u64);
        return msg;
    }
    let mut out = String::new();
    for c in it: text.chars()
        invariant
            it.seq() == text@,
            kl@ == key_letters(key@),
            kl@.len() >= 26,
            decode ==> substitute_decodable(text@, kl@),
            out@ == Seq::new(it.index() as nat, |i: int| substitute_char(text@[i], kl@, decode)),
    {
        let ghost idx = it.index() as int;
        if ('A' <= c && c <= 'Z') || ('a' <= c && c <= 'z') {
            let upper = 'a' <= c && c <= 'z';
            let lc = lower_of(c);
            let i: usize = (lc as u32 - 'a' as u32) as usize;
            let mapped = if decode {
                match find_first(&kl, lc) {
                    Some(j) => {
                        assert(text@[idx] == c);
                        let b: u8 = 97u8 + (j % 256) as u8;
                        b as char
                    },
                    None => c,
                }
            } else {
                kl[i]
            };
            if upper {
                push_char(&mut out, upper_of(mapped));
            } else {
                push_char(&mut out, mapped);
            }
        } else {
            push_char(&mut out, c);
        }
    }
    proof {
        assert(out@ =~= substitute_spec(text@, key@, decode));
    }
    out
}


/// The values of `s` with every repeat after the first dropped.
pub open spec fn dedup_values(s: Seq<int>) -> Seq<int>
    decreases s.len(),
{
    if s.len() == 0 {
        Seq::empty()
    } else {
        let prev = dedup_values(s.drop_last());
        if prev.contains(s.last()) {
            prev
        } else {
            prev.push(s.last())
        }
    }
}

/// The alphabet positions below `upto` that do not occur in `used`, in order.
pub open spec fn unused_letters(used: Seq<int>, upto: nat) -> Seq<int>
    decreases upto,
{
    if upto == 0 {
        Seq::empty()
    } else {
        let prev = unused_letters(used, (upto - 1) as nat);
        if used.contains(upto - 1) {
            prev
        } else {
            prev.push(upto - 1)
        }
    }
}

/// The lowercase letter at alphabet position `v`.
pub open spec fn small_letter(v: int) -> char {
    (v + 'a' as int) as char
}

/// The keyword alphabet: the keyword's letters (lowercase, each once, in order
/// of first appearance), then the rest of the alphabet in order.
pub open spec fn keyword_alphabet(kw: Seq<char>) -> Seq<char> {
    let lv = letter_values(kw);
    (dedup_values(lv) + unused_letters(lv, 26)).map_values(|v: int| small_letter(v))
}

/// Dropping repeats keeps exactly the values that occur.
pub proof fn lemma_dedup_contains(s: Seq<int>, x: int)
    ensures
        dedup_values(s).contains(x) <==> s.contains(x),
    decreases s.len(),
{
    if s.len() > 0 {
        lemma_dedup_contains(s.drop_last(), x);
        lemma_dedup_contains(s.drop_last(), s.last());
        let prev = dedup_values(s.drop_last());
        if s.contains(x) {
            let k = choose|k: int| 0 <= k < s.len() && s[k] == x;
            if k < s.len() - 1 {
                assert(s.drop_last()[k] == x);
            }
        }
        if s.drop_last().contains(x) {
            let k = choose|k: int| 0 <= k < s.drop_last().len() && s.drop_last()[k] == x;
            assert(s[k] == x);
        }
        if prev.contains(x) && !prev.contains(s.last()) {
            let k = choose|k: int| 0 <= k < prev.len() && prev[k] == x;
            assert(prev.push(s.last())[k] == x);
        }
        if !prev.contains(s.last()) && x == s.last() {
            assert(prev.push(s.last())[prev.len() as int] == x);
        }
        if !prev.contains(s.last()) && prev.push(s.last()).contains(x) {
            let k = choose|k: int| 0 <= k < prev.len() + 1 && prev.push(s.last())[k] == x;
            if k < prev.len() {
                assert(prev[k] == x);
            }
        }
    }
}

/// Builds the substitution alphabet of a keyword: the keyword's letters first
/// (lowercase, each only once), then the remaining letters of the alphabet in
/// order; characters that are not letters are ignored.
pub fn set_kword_alpha(kw: &str) -> (r: String)
    ensures
        r@ == keyword_alphabet(kw@),
{
    let mut seen: Vec<bool> = Vec::new();
    let mut z: usize = 0;
    while z < 26
        invariant
            z <= 26,
            seen@.len() == z,
            forall|v: int| 0 <= v < z ==> !seen@[v],
        decreases 26 - z,
    {
        seen.push(false);
        z = z + 1;
    }
    let mut alpha = String::new();
    for c in it: kw.chars()
        invariant
            it.seq() == kw@,
            seen@.len() == 26,
            forall|v: int|
                0 <= v < 26 ==> #[trigger] seen@[v] == letter_values(kw@.take(it.index() as int)).contains(v),
            alpha@ == dedup_values(letter_values(kw@.take(it.index() as int))).map_values(
                |v: int| small_letter(v),
            ),
    {
        let ghost lv = letter_values(kw@.take(it.index() as int));
        proof {
            lemma_letter_values_step(kw@, it.index() as int);
        }
        if ('A' <= c && c <= 'Z') || ('a' <= c && c <= 'z') {
            let lc = lower_of(c);
            let i: usize = (lc as u32 - 'a' as u32) as usize;
            let ghost x = i as int;
            proof {
                lemma_dedup_contains(lv, x);
                assert(lv.push(x).drop_last() =~= lv);
                assert forall|v: int| #[trigger] lv.push(x).contains(v) <==> (lv.contains(v) || v == x) by {
                    if lv.push(x).contains(v) {
                        let k = choose|k: int| 0 <= k < lv.len() + 1 && lv.push(x)[k] == v;
                        if k < lv.len() {
                            assert(lv[k] == v);
                        }
                    }
                    if lv.contains(v) {
                        let k = choose|k: int| 0 <= k < lv.len() && lv[k] == v;
                        assert(lv.push(x)[k] == v);
                    }
                    if v == x {
                        assert(lv.push(x)[lv.len() as int] == v);
                    }
                }
            }
            if !seen[i] {
                seen.set(i, true);
                push_char(&mut alpha, letter_at('a', i as u32));
                proof {
                    assert(alpha@ =~= dedup_values(lv.push(x)).map_values(|v: int| small_letter(v)));
                }
            }
        }
    }
    proof {
        assert(kw@.take(kw@.len() as int) =~= kw@);
    }
    let ghost lv = letter_values(kw@);
    let ghost front = dedup_values(lv);
    let mut i: usize = 0;
    while i < 26
        invariant
            i <= 26,
            seen@.len() == 26,
            forall|v: int| 0 <= v < 26 ==> #[trigger] seen@[v] == lv.contains(v),
            alpha@ == (front + unused_letters(lv, i as nat)).map_values(|v: int| small_letter(v)),
        decreases 26 - i,
    {
        if !seen[i] {
            push_char(&mut alpha, letter_at('a', i as u32));
        }
        i = i + 1;
        proof {
            assert(alpha@ =~= (front + unused_letters(lv, i as nat)).map_values(
                |v: int| small_letter(v),
            ));
        }
    }
    alpha
}


/// How many characters of a text of length `len`, written row by row into `n`
/// columns, fall in column `col`.
pub open spec fn column_len(len: int, n: int, col: int) -> int {
    if col < len {
        (len - col + n - 1) / n
    } else {
        0
    }
}

/// Column `col` of `text` written row by row into `n` columns, read top down.
pub open spec fn column(text: Seq<char>, n: int, col: int) -> Seq<char> {
    Seq::new(column_len(text.len() as int, n, col) as nat, |r: int| text[col + r * n])
}

/// Columns `0..c` of `text` written into `n` columns, read one after another.
pub open spec fn columns_upto(text: Seq<char>, n: int, c: int) -> Seq<char>
    decreases c,
{
    if c <= 0 {
        Seq::empty()
    } else {
        columns_upto(text, n, c - 1) + column(text, n, c - 1)
    }
}

/// Columnar transposition: `text` written row by row into `n` columns and
/// read column by column. With `n <= 1` or an empty text, the text itself.
pub open spec fn transposition_spec(text: Seq<char>, n: int) -> Seq<char> {
    if n <= 1 || text.len() == 0 {
        text
    } else {
        columns_upto(text, n, n)
    }
}

/// Row `row` of column `col` holds a character exactly when `row` is below the
/// column's length, and no column is longer than the number of rows.
pub proof fn lemma_column_rows(len: int, n: int, col: int, row: int)
    requires
        n > 0,
        0 <= col < n,
        0 <= row,
        len > 0,
    ensures
        (row * n + col < len) <==> row < column_len(len, n, col),
        0 <= column_len(len, n, col) <= (len + n - 1) / n,
{
    if col < len {
        let d = len - col + n - 1;
        let q = d / n;
        let rm = d % n;
        vstd::arithmetic::div_mod::lemma_fundamental_div_mod(d, n);
        assert(0 <= rm < n);
        assert(d == n * q + rm);
        assert((row * n + col < len) <==> row < q) by (nonlinear_arith)
            requires
                d == n * q + rm,
                0 <= rm < n,
                d == len - col + n - 1,
                n > 0,
                row >= 0,
        ;
        assert(q >= 0) by (nonlinear_arith)
            requires
                d == n * q + rm,
                0 <= rm < n,
                d >= 0,
                n > 0,
        ;
        vstd::arithmetic::div_mod::lemma_div_is_ordered(d, len + n - 1, n);
    } else {
        assert(row * n + col >= col) by (nonlinear_arith)
            requires
                row >= 0,
                n > 0,
        ;
        vstd::arithmetic::div_mod::lemma_div_pos_is_pos(len + n - 1, n);
    }
}

/// Writing `len` characters into `n` columns takes `(len - 1) / n + 1` rows.
proof fn lemma_rows(len: int, n: int)
    requires
        len >= 1,
        n > 0,
    ensures
        (len - 1) / n + 1 == (len + n - 1) / n,
{
    let q = (len - 1) / n;
    let r = (len - 1) % n;
    vstd::arithmetic::div_mod::lemma_fundamental_div_mod(len - 1, n);
    assert(len + n - 1 == n * (q + 1) + r) by (nonlinear_arith)
        requires
            len - 1 == n * q + r,
    ;
    vstd::arithmetic::div_mod::lemma_fundamental_div_mod_converse_div(len + n - 1, n, q + 1, r);
}

/// Columnar transposition: writes `text` row by row into `n` columns and reads
/// it off column by column (the last row may be short). With `n <= 1` or an
/// empty text, returns `text` unchanged.
pub fn use_transposition(text: &str, n: usize) -> (r: String)
    ensures
        r@ == transposition_spec(text@, n as int),
{
    if n <= 1 || text.is_empty() {
        return String::from_str(text);
    }
    let mut chars: Vec<char> = Vec::new();
    for c in it: text.chars()
        invariant
            it.seq() == text@,
            chars@ == text@.take(it.index() as int),
    {
        chars.push(c);
        proof {
            assert(chars@ =~= text@.take(it.index() + 1));
        }
    }
    proof {
        assert(chars@ =~= text@);
    }
    let len: usize = chars.len();
    let rows: usize = (len - 1) / n + 1;
    proof {
        lemma_rows(len as int, n as int);
    }
    let ghost t = text@;
    let mut out = String::new();
    let mut col: usize = 0;
    while col < n
        invariant
            t == text@,
            chars@ == t,
            len == t.len(),
            len > 0,
            n > 1,
            rows == (len + n - 1) / (n as int),
            col <= n,
            out@ == columns_upto(t, n as int, col as int),
        decreases n - col,
    {
        let ghost clen = column_len(len as int, n as int, col as int);
        let ghost before = out@;
        proof {
            lemma_column_rows(len as int, n as int, col as int, 0);
        }
        let mut row: usize = 0;
        while row < rows
            invariant
                t == text@,
                chars@ == t,
                len == t.len(),
                len > 0,
                n > 1,
                    rows == (len + n - 1) / (n as int),
                col < n,
                row <= rows,
                clen == column_len(len as int, n as int, col as int),
                0 <= clen <= rows,
                out@ == before + column(t, n as int, col as int).take(
                    if row <= clen { row as int } else { clen },
                ),
            decreases rows - row,
        {
            proof {
                lemma_column_rows(len as int, n as int, col as int, row as int);
                assert(row * n <= (rows - 1) * n) by (nonlinear_arith)
                    requires
                        row < rows,
                        n > 0,
                ;
                assert((rows - 1) * n + n == rows * n) by (nonlinear_arith);
                vstd::arithmetic::div_mod::lemma_fundamental_div_mod((len + n - 1) as int, n as int);
                vstd::arithmetic::mul::lemma_mul_is_commutative(n as int, rows as int);
            }
            let base: usize = row * n;
            if col < len - base {
                push_char(&mut out, chars[base + col]);
                proof {
                    assert(out@ =~= before + column(t, n as int, col as int).take(row + 1));
                }
            }
            row = row + 1;
            proof {
                assert(out@ =~= before + column(t, n as int, col as int).take(
                    if row <= clen { row as int } else { clen },
                ));
            }
        }
        col = col + 1;
        proof {
            assert(column(t, n as int, (col - 1) as int).take(clen) =~= column(t, n as int, (col - 1) as int));
            assert(out@ =~= columns_upto(t, n as int, col as int));
        }
    }
    out
}

} // verus!
