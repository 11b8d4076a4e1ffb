use vstd::prelude::*;

use crate::cipher::{
    autokey_plain, autokey_spec, autokey_stream, beaufort_char, beaufort_spec, caesar_spec, column,
    column_len, columns_upto, dedup_values, first_index, is_alpha, is_lower, is_upper, key_letters,
    keyword_alphabet, lemma_autokey_plain_len, lemma_column_rows, lemma_dedup_contains, lemma_first_index,
    lemma_letter_values_range, lemma_letter_values_step, letter_index, letter_values, letters_before,
    shift_char, small_letter, substitute_decodable, substitute_spec, to_lower, transposition_spec,
    unused_letters, vigenere_spec,
};

verus! {

/// `out` has the shape of `text`: the same length, every non-letter kept in
/// place, and every letter replaced by a letter of the same case.
pub open spec fn same_shape(text: Seq<char>, out: Seq<char>) -> bool {
    &&& out.len() == text.len()
    &&& forall|i: int|
        0 <= i < text.len() ==> if is_alpha(#[trigger] text[i]) {
            is_upper(out[i]) == is_upper(text[i]) && is_lower(out[i]) == is_lower(text[i])
        } else {
            out[i] == text[i]
        }
}

/// Adding `s` and then `-s` modulo 26 returns a letter position to itself.
proof fn lemma_mod26_cancel(p: int, s: int)
    requires
        0 <= p < 26,
    ensures
        ((p + s) % 26 - s) % 26 == p,
        0 <= (p + s) % 26 < 26,
{
    let q = (p + s) / 26;
    vstd::arithmetic::div_mod::lemma_fundamental_div_mod(p + s, 26);
    assert((p + s) % 26 - s == 26 * (-q) + p);
    vstd::arithmetic::div_mod::lemma_mod_multiples_vanish(-q, p, 26);
    vstd::arithmetic::div_mod::lemma_small_mod(p as nat, 26);
}

/// Reflecting twice through the same `k` modulo 26 is the identity.
proof fn lemma_mod26_reflect(p: int, k: int)
    requires
        0 <= p < 26,
    ensures
        (k - (k - p) % 26) % 26 == p,
        0 <= (k - p) % 26 < 26,
{
    let q = (k - p) / 26;
    vstd::arithmetic::div_mod::lemma_fundamental_div_mod(k - p, 26);
    assert(k - (k - p) % 26 == 26 * q + p);
    vstd::arithmetic::div_mod::lemma_mod_multiples_vanish(q, p, 26);
    vstd::arithmetic::div_mod::lemma_small_mod(p as nat, 26);
}

/// Shifting a character keeps it a letter of the same case, or leaves it alone.
pub proof fn lemma_shift_char_shape(c: char, s: int)
    ensures
        is_alpha(c) ==> is_upper(shift_char(c, s)) == is_upper(c) && is_lower(shift_char(c, s))
            == is_lower(c),
        is_alpha(c) ==> letter_index(shift_char(c, s)) == (letter_index(c) + s) % 26,
        !is_alpha(c) ==> shift_char(c, s) == c,
{
    if is_alpha(c) {
        lemma_mod26_cancel(letter_index(c), s);
    }
}

/// Shifting by `s` and then by `-s` gives back the character.
pub proof fn lemma_shift_char_inverse(c: char, s: int)
    ensures
        shift_char(shift_char(c, s), -s) == c,
{
    lemma_shift_char_shape(c, s);
    if is_alpha(c) {
        lemma_mod26_cancel(letter_index(c), s);
    }
}


/// Two texts with letters at the same places have the same number of letters
/// before every position.
proof fn lemma_same_letters_before(a: Seq<char>, b: Seq<char>, i: int)
    requires
        a.len() == b.len(),
        0 <= i <= a.len(),
        forall|j: int| 0 <= j < a.len() ==> is_alpha(#[trigger] a[j]) == is_alpha(b[j]),
    ensures
        letters_before(a, i) == letters_before(b, i),
    decreases i,
{
    if i > 0 {
        lemma_same_letters_before(a, b, i - 1);
        lemma_letter_values_step(a, i - 1);
        lemma_letter_values_step(b, i - 1);
    }
}

/// Each character of a text that has the shape of another is a letter exactly
/// where the other has one.
proof fn lemma_shape_letters(text: Seq<char>, out: Seq<char>)
    requires
        same_shape(text, out),
    ensures
        forall|j: int| 0 <= j < text.len() ==> is_alpha(#[trigger] text[j]) == is_alpha(out[j]),
        forall|i: int| 0 <= i <= text.len() ==> letters_before(text, i) == #[trigger] letters_before(out, i),
{
    assert forall|j: int| 0 <= j < text.len() implies is_alpha(#[trigger] text[j]) == is_alpha(out[j]) by {}
    assert forall|i: int| 0 <= i <= text.len() implies letters_before(text, i) == #[trigger] letters_before(out, i) by {
        lemma_same_letters_before(text, out, i);
    }
}

/// Caesar keeps the length, every non-letter, and the case of every letter.
pub proof fn law_caesar_shape(text: Seq<char>, shift: int)
    ensures
        same_shape(text, caesar_spec(text, shift)),
{
    assert forall|i: int| 0 <= i < text.len() implies #[trigger] caesar_spec(text, shift)[i] == shift_char(text[i], shift) by {}
    assert forall|i: int| 0 <= i < text.len() && is_alpha(#[trigger] text[i]) implies (is_upper(caesar_spec(text, shift)[i]) == is_upper(text[i]) && is_lower(caesar_spec(text, shift)[i]) == is_lower(text[i])) by {
        lemma_shift_char_shape(text[i], shift);
    }
    assert forall|i: int| 0 <= i < text.len() && !is_alpha(#[trigger] text[i]) implies caesar_spec(text, shift)[i] == text[i] by {
        lemma_shift_char_shape(text[i], shift);
    }
}

/// Shifting back by the same amount undoes a Caesar shift.
pub proof fn law_caesar_inverse(text: Seq<char>, shift: int)
    ensures
        caesar_spec(caesar_spec(text, shift), -shift) == text,
{
    assert forall|i: int| 0 <= i < text.len() implies #[trigger] caesar_spec(caesar_spec(text, shift), -shift)[i] == text[i] by {
        lemma_shift_char_inverse(text[i], shift);
    }
    assert(caesar_spec(caesar_spec(text, shift), -shift) =~= text);
}

/// Two shifts modulo 26 add up.
proof fn lemma_mod26_compose(p: int, a: int, b: int)
    ensures
        ((p + a) % 26 + b) % 26 == (p + a + b) % 26,
{
    vstd::arithmetic::div_mod::lemma_fundamental_div_mod(p + a, 26);
    let q = (p + a) / 26;
    assert((p + a) % 26 + b == 26 * (-q) + (p + a + b));
    vstd::arithmetic::div_mod::lemma_mod_multiples_vanish(-q, p + a + b, 26);
}

/// Shifting by `a` and then by `b` is shifting by `a + b`.
proof fn lemma_shift_char_compose(c: char, a: int, b: int)
    ensures
        shift_char(shift_char(c, a), b) == shift_char(c, a + b),
{
    lemma_shift_char_shape(c, a);
    if is_alpha(c) {
        lemma_mod26_compose(letter_index(c), a, b);
        lemma_mod26_cancel(letter_index(c), a);
    }
}

/// Caesar shifts compose: shifting by `a` and then by `b` is shifting by
/// `a + b`.
pub proof fn law_caesar_compose(text: Seq<char>, a: int, b: int)
    ensures
        caesar_spec(caesar_spec(text, a), b) == caesar_spec(text, a + b),
{
    assert forall|i: int| 0 <= i < text.len() implies #[trigger] caesar_spec(caesar_spec(text, a), b)[i]
        == caesar_spec(text, a + b)[i] by {
        lemma_shift_char_compose(text[i], a, b);
    }
    assert(caesar_spec(caesar_spec(text, a), b) =~= caesar_spec(text, a + b));
}

/// A shift of zero leaves the text as it is.
pub proof fn law_caesar_zero(text: Seq<char>)
    ensures
        caesar_spec(text, 0) == text,
{
    assert forall|i: int| 0 <= i < text.len() implies #[trigger] caesar_spec(text, 0)[i] == text[i] by {
        let c = text[i];
        if is_alpha(c) {
            vstd::arithmetic::div_mod::lemma_small_mod(letter_index(c) as nat, 26);
        }
    }
    assert(caesar_spec(text, 0) =~= text);
}

/// Vigenère keeps the length, every non-letter, and the case of every letter.
pub proof fn law_vigenere_shape(text: Seq<char>, key: Seq<char>, decode: bool)
    ensures
        same_shape(text, vigenere_spec(text, key, decode)),
{
    let keys = letter_values(key);
    if keys.len() > 0 {
        let out = vigenere_spec(text, key, decode);
        assert forall|i: int| 0 <= i < text.len() implies if is_alpha(#[trigger] text[i]) {
            is_upper(out[i]) == is_upper(text[i]) && is_lower(out[i]) == is_lower(text[i])
        } else {
            out[i] == text[i]
        } by {
            let k = keys[letters_before(text, i) % keys.len() as int];
            lemma_shift_char_shape(text[i], if decode { -k } else { k });
        }
    }
}

/// Decoding with the same key undoes Vigenère encoding, and encoding undoes
/// decoding.
pub proof fn law_vigenere_inverse(text: Seq<char>, key: Seq<char>)
    ensures
        vigenere_spec(vigenere_spec(text, key, false), key, true) == text,
        vigenere_spec(vigenere_spec(text, key, true), key, false) == text,
{
    let keys = letter_values(key);
    if keys.len() > 0 {
        let enc = vigenere_spec(text, key, false);
        let dec = vigenere_spec(text, key, true);
        law_vigenere_shape(text, key, false);
        law_vigenere_shape(text, key, true);
        lemma_shape_letters(text, enc);
        lemma_shape_letters(text, dec);
        assert forall|i: int| 0 <= i < text.len() implies #[trigger] vigenere_spec(enc, key, true)[i] == text[i] by {
            let k = keys[letters_before(text, i) % keys.len() as int];
            lemma_shift_char_inverse(text[i], k);
        }
        assert forall|i: int| 0 <= i < text.len() implies #[trigger] vigenere_spec(dec, key, false)[i] == text[i] by {
            let k = keys[letters_before(text, i) % keys.len() as int];
            lemma_shift_char_inverse(text[i], -k);
        }
        assert(vigenere_spec(enc, key, true) =~= text);
        assert(vigenere_spec(dec, key, false) =~= text);
    }
}

/// A key with a single letter makes Vigenère a Caesar shift by that letter's
/// position (backwards to decode).
pub proof fn law_vigenere_one_letter(text: Seq<char>, key: Seq<char>, decode: bool)
    requires
        letter_values(key).len() == 1,
    ensures
        vigenere_spec(text, key, decode) == caesar_spec(
            text,
            if decode { -letter_values(key)[0] } else { letter_values(key)[0] },
        ),
{
    let s = letter_values(key)[0];
    assert forall|i: int| 0 <= i < text.len() implies #[trigger] vigenere_spec(text, key, decode)[i]
        == caesar_spec(text, if decode { -s } else { s })[i] by {
        assert(letters_before(text, i) % 1 == 0);
    }
    assert(vigenere_spec(text, key, decode) =~= caesar_spec(text, if decode { -s } else { s }));
}

/// Reflecting a character keeps it a letter of the same case, or leaves it
/// alone; reflecting twice through the same key letter gives it back.
proof fn lemma_beaufort_char(c: char, k: int)
    ensures
        is_alpha(c) ==> is_upper(beaufort_char(c, k)) == is_upper(c) && is_lower(beaufort_char(c, k))
            == is_lower(c),
        !is_alpha(c) ==> beaufort_char(c, k) == c,
        beaufort_char(beaufort_char(c, k), k) == c,
{
    if is_alpha(c) {
        lemma_mod26_reflect(letter_index(c), k);
    }
}

/// Beaufort keeps the length, every non-letter, and the case of every letter.
pub proof fn law_beaufort_shape(text: Seq<char>, key: Seq<char>)
    ensures
        same_shape(text, beaufort_spec(text, key)),
{
    let keys = letter_values(key);
    if keys.len() > 0 {
        let out = beaufort_spec(text, key);
        assert forall|i: int| 0 <= i < text.len() implies if is_alpha(#[trigger] text[i]) {
            is_upper(out[i]) == is_upper(text[i]) && is_lower(out[i]) == is_lower(text[i])
        } else {
            out[i] == text[i]
        } by {
            lemma_beaufort_char(text[i], keys[letters_before(text, i) % keys.len() as int]);
        }
    }
}

/// Beaufort is its own inverse: applying it twice with the same key gives the
/// text back.
pub proof fn law_beaufort_involution(text: Seq<char>, key: Seq<char>)
    ensures
        beaufort_spec(beaufort_spec(text, key), key) == text,
{
    let keys = letter_values(key);
    if keys.len() > 0 {
        let enc = beaufort_spec(text, key);
        law_beaufort_shape(text, key);
        lemma_shape_letters(text, enc);
        assert forall|i: int| 0 <= i < text.len() implies #[trigger] beaufort_spec(enc, key)[i] == text[i] by {
            lemma_beaufort_char(text[i], keys[letters_before(text, i) % keys.len() as int]);
        }
        assert(beaufort_spec(enc, key) =~= text);
    }
}


/// The letters before position `i` are the first letters of the whole text.
proof fn lemma_letter_values_prefix(s: Seq<char>, i: int)
    requires
        0 <= i <= s.len(),
    ensures
        letters_before(s, i) <= letter_values(s).len(),
        forall|j: int|
            0 <= j < letters_before(s, i) ==> #[trigger] letter_values(s.take(i))[j] == letter_values(s)[j],
    decreases s.len(),
{
    if i == s.len() {
        assert(s.take(i) =~= s);
    } else {
        let dl = s.drop_last();
        assert(s.take(i) =~= dl.take(i));
        lemma_letter_values_prefix(dl, i);
    }
}

/// A letter at position `i` is letter number `letters_before(s, i)` of the text.
proof fn lemma_letter_at(s: Seq<char>, i: int)
    requires
        0 <= i < s.len(),
        is_alpha(s[i]),
    ensures
        letters_before(s, i) < letter_values(s).len(),
        letter_values(s)[letters_before(s, i)] == letter_index(s[i]),
{
    lemma_letter_values_step(s, i);
    lemma_letter_values_prefix(s, i + 1);
    assert(letter_values(s.take(i + 1))[letters_before(s, i)] == letter_index(s[i]));
}

/// Autokey keeps the length, every non-letter, and the case of every letter.
pub proof fn law_autokey_shape(text: Seq<char>, primer: Seq<char>, decode: bool)
    ensures
        same_shape(text, autokey_spec(text, primer, decode)),
{
    if letter_values(primer).len() > 0 {
        let out = autokey_spec(text, primer, decode);
        let stream = autokey_stream(text, primer, decode);
        assert forall|i: int| 0 <= i < text.len() implies if is_alpha(#[trigger] text[i]) {
            is_upper(out[i]) == is_upper(text[i]) && is_lower(out[i]) == is_lower(text[i])
        } else {
            out[i] == text[i]
        } by {
            let k = stream[letters_before(text, i)];
            lemma_shift_char_shape(text[i], if decode { -k } else { k });
        }
    }
}

/// The letters of an autokey encoding are the plaintext letters moved by the
/// key stream.
proof fn lemma_autokey_encoded_letters(text: Seq<char>, primer: Seq<char>, i: int)
    requires
        letter_values(primer).len() > 0,
        0 <= i <= text.len(),
    ensures
        ({
            let enc = autokey_spec(text, primer, false);
            let p = letter_values(text);
            let stream = autokey_stream(text, primer, false);
            &&& letters_before(enc, i) == letters_before(text, i)
            &&& forall|j: int|
                0 <= j < letters_before(enc, i) ==> #[trigger] letter_values(enc.take(i))[j] == (p[j]
                    + stream[j]) % 26
        }),
    decreases i,
{
    let enc = autokey_spec(text, primer, false);
    let p = letter_values(text);
    let stream = autokey_stream(text, primer, false);
    if i > 0 {
        lemma_autokey_encoded_letters(text, primer, i - 1);
        lemma_letter_values_step(enc, i - 1);
        lemma_letter_values_step(text, i - 1);
        let c = text[i - 1];
        let k = stream[letters_before(text, i - 1)];
        lemma_shift_char_shape(c, k);
        if is_alpha(c) {
            lemma_letter_at(text, i - 1);
        }
    }
}

/// Autokey decoding recovers the plaintext letters from the encoded ones.
proof fn lemma_autokey_plain_recovers(p: Seq<int>, pk: Seq<int>, c: Seq<int>, m: int)
    requires
        pk.len() > 0,
        c.len() == p.len(),
        0 <= m <= p.len(),
        forall|j: int| 0 <= j < p.len() ==> 0 <= #[trigger] p[j] < 26,
        forall|j: int| 0 <= j < c.len() ==> #[trigger] c[j] == (p[j] + (pk + p)[j]) % 26,
    ensures
        autokey_plain(c.take(m), pk) == p.take(m),
    decreases m,
{
    if m > 0 {
        lemma_autokey_plain_recovers(p, pk, c, m - 1);
        assert(c.take(m).drop_last() =~= c.take(m - 1));
        let prev = p.take(m - 1);
        assert((pk + prev)[m - 1] == (pk + p)[m - 1]);
        lemma_mod26_cancel(p[m - 1], (pk + p)[m - 1]);
        assert(prev.push(p[m - 1]) =~= p.take(m));
    }
}

/// Decoding with the same primer undoes autokey encoding.
pub proof fn law_autokey_inverse(text: Seq<char>, primer: Seq<char>)
    ensures
        autokey_spec(autokey_spec(text, primer, false), primer, true) == text,
{
    let pk = letter_values(primer);
    if pk.len() > 0 {
        let enc = autokey_spec(text, primer, false);
        let p = letter_values(text);
        let stream = autokey_stream(text, primer, false);
        law_autokey_shape(text, primer, false);
        lemma_shape_letters(text, enc);
        lemma_autokey_encoded_letters(text, primer, text.len() as int);
        assert(text.take(text.len() as int) =~= text);
        assert(enc.take(enc.len() as int) =~= enc);
        let c = letter_values(enc);
        lemma_letter_values_range(text);
        lemma_autokey_plain_recovers(p, pk, c, p.len() as int);
        assert(c.take(c.len() as int) =~= c);
        assert(p.take(p.len() as int) =~= p);
        assert(autokey_stream(enc, primer, true) =~= stream);
        assert forall|i: int| 0 <= i < text.len() implies #[trigger] autokey_spec(enc, primer, true)[i] == text[i] by {
            lemma_shift_char_inverse(text[i], stream[letters_before(text, i)]);
        }
        assert(autokey_spec(enc, primer, true) =~= text);
    }
}


/// Each recovered letter is its cipher letter less the key stream entry at its
/// place, the stream being the primer followed by the recovered letters.
proof fn lemma_autokey_plain_step(c: Seq<int>, pk: Seq<int>)
    requires
        pk.len() > 0,
    ensures
        autokey_plain(c, pk).len() == c.len(),
        forall|j: int|
            #![trigger autokey_plain(c, pk)[j], c[j]]
            0 <= j < c.len() ==> autokey_plain(c, pk)[j] == (c[j] - (pk + autokey_plain(c, pk))[j]) % 26,
    decreases c.len(),
{
    lemma_autokey_plain_len(c, pk);
    if c.len() > 0 {
        let dl = c.drop_last();
        let prev = autokey_plain(dl, pk);
        let d = autokey_plain(c, pk);
        lemma_autokey_plain_step(dl, pk);
        assert(d == prev.push((c.last() - (pk + prev)[c.len() - 1]) % 26));
        assert forall|j: int| 0 <= j < c.len() implies #[trigger] d[j] == (c[j] - (pk + d)[j]) % 26 by {
            assert((pk + prev)[j] == (pk + d)[j]);
            if j < c.len() - 1 {
                assert(d[j] == prev[j]);
                assert(dl[j] == c[j]);
            }
        }
    }
}

/// The letters of an autokey decoding are the cipher letters moved back by the
/// key stream.
proof fn lemma_autokey_decoded_letters(text: Seq<char>, primer: Seq<char>, i: int)
    requires
        letter_values(primer).len() > 0,
        0 <= i <= text.len(),
    ensures
        ({
            let dec = autokey_spec(text, primer, true);
            let c = letter_values(text);
            let stream = autokey_stream(text, primer, true);
            &&& letters_before(dec, i) == letters_before(text, i)
            &&& forall|j: int|
                0 <= j < letters_before(dec, i) ==> #[trigger] letter_values(dec.take(i))[j] == (c[j]
                    - stream[j]) % 26
        }),
    decreases i,
{
    let dec = autokey_spec(text, primer, true);
    let stream = autokey_stream(text, primer, true);
    if i > 0 {
        lemma_autokey_decoded_letters(text, primer, i - 1);
        lemma_letter_values_step(dec, i - 1);
        lemma_letter_values_step(text, i - 1);
        let ch = text[i - 1];
        let k = stream[letters_before(text, i - 1)];
        lemma_shift_char_shape(ch, -k);
        if is_alpha(ch) {
            lemma_letter_at(text, i - 1);
        }
    }
}

/// Encoding with the same primer undoes autokey decoding.
pub proof fn law_autokey_decode_inverse(text: Seq<char>, primer: Seq<char>)
    ensures
        autokey_spec(autokey_spec(text, primer, true), primer, false) == text,
{
    let pk = letter_values(primer);
    if pk.len() > 0 {
        let dec = autokey_spec(text, primer, true);
        let c = letter_values(text);
        let d = autokey_plain(c, pk);
        let stream = autokey_stream(text, primer, true);
        law_autokey_shape(text, primer, true);
        lemma_shape_letters(text, dec);
        lemma_autokey_decoded_letters(text, primer, text.len() as int);
        lemma_autokey_plain_step(c, pk);
        assert(text.take(text.len() as int) =~= text);
        assert(dec.take(dec.len() as int) =~= dec);
        assert(letter_values(dec) =~= d);
        assert(autokey_stream(dec, primer, false) =~= stream);
        assert forall|i: int| 0 <= i < text.len() implies #[trigger] autokey_spec(dec, primer, false)[i] == text[i] by {
            lemma_shift_char_inverse(text[i], -stream[letters_before(text, i)]);
        }
        assert(autokey_spec(dec, primer, false) =~= text);
    }
}

/// While the primer lasts (the text has no more letters than the primer),
/// autokey is Vigenère with the primer as the key.
pub proof fn law_autokey_is_vigenere_within_primer(text: Seq<char>, primer: Seq<char>, decode: bool)
    requires
        letter_values(text).len() <= letter_values(primer).len(),
    ensures
        autokey_spec(text, primer, decode) == vigenere_spec(text, primer, decode),
{
    let pk = letter_values(primer);
    if pk.len() > 0 {
        let stream = autokey_stream(text, primer, decode);
        assert forall|i: int| 0 <= i < text.len() implies #[trigger] autokey_spec(text, primer, decode)[i]
            == vigenere_spec(text, primer, decode)[i] by {
            let j = letters_before(text, i);
            if is_alpha(text[i]) {
                lemma_letter_at(text, i);
                vstd::arithmetic::div_mod::lemma_small_mod(j as nat, pk.len());
                assert(stream[j] == pk[j]);
            } else {
                lemma_shift_char_shape(text[i], stream[j]);
                lemma_shift_char_shape(text[i], -stream[j]);
                let k = pk[j % pk.len() as int];
                lemma_shift_char_shape(text[i], k);
                lemma_shift_char_shape(text[i], -k);
            }
        }
        assert(autokey_spec(text, primer, decode) =~= vigenere_spec(text, primer, decode));
    }
}

/// `kl` is a cipher alphabet: 26 small letters, none twice.
pub open spec fn is_alphabet_permutation(kl: Seq<char>) -> bool {
    &&& kl.len() == 26
    &&& forall|j: int| 0 <= j < 26 ==> is_lower(#[trigger] kl[j])
    &&& kl.no_duplicates()
}

/// The key letters are small letters.
proof fn lemma_key_letters_lower(key: Seq<char>)
    ensures
        forall|j: int| 0 <= j < key_letters(key).len() ==> is_lower(#[trigger] key_letters(key)[j]),
{
    lemma_letter_values_range(key);
    assert forall|j: int| 0 <= j < key_letters(key).len() implies is_lower(#[trigger] key_letters(key)[j]) by {
        assert(0 <= letter_values(key)[j] < 26);
    }
}

/// With a key of at least 26 letters, substitution keeps the length and every
/// non-letter; encoding turns small letters into capitals and capitals into
/// small letters.
pub proof fn law_substitute_shape(text: Seq<char>, key: Seq<char>, decode: bool)
    requires
        key_letters(key).len() >= 26,
    ensures
        substitute_spec(text, key, decode).len() == text.len(),
        forall|i: int|
            0 <= i < text.len() && !is_alpha(#[trigger] text[i]) ==> substitute_spec(text, key, decode)[i]
                == text[i],
        !decode ==> forall|i: int|
            0 <= i < text.len() ==> (is_lower(#[trigger] text[i]) ==> is_upper(
                substitute_spec(text, key, decode)[i],
            )) && (is_upper(text[i]) ==> is_lower(substitute_spec(text, key, decode)[i])),
{
    lemma_key_letters_lower(key);
}

/// Decoding with the same key undoes substitution when the first 26 letters
/// of the key form a cipher alphabet (later key letters are never read); the
/// encoded text then meets the decoding precondition.
pub proof fn law_substitute_inverse(text: Seq<char>, key: Seq<char>)
    requires
        key_letters(key).len() >= 26,
        is_alphabet_permutation(key_letters(key).take(26)),
    ensures
        substitute_decodable(substitute_spec(text, key, false), key_letters(key)),
        substitute_spec(substitute_spec(text, key, false), key, true) == text,
{
    let kl = key_letters(key);
    let head = kl.take(26);
    let enc = substitute_spec(text, key, false);
    assert forall|i: int| 0 <= i < text.len() && is_alpha(#[trigger] text[i]) implies (first_index(
        kl,
        to_lower(enc[i]),
    ) == Some(letter_index(text[i])) && to_lower(enc[i]) == kl[letter_index(text[i])]) by {
        let x = letter_index(text[i]);
        let lc = to_lower(enc[i]);
        assert(head[x] == kl[x]);
        assert(is_lower(head[x]));
        assert(lc == kl[x]);
        lemma_first_index(kl, lc);
        if let Some(j) = first_index(kl, lc) {
            if j < x {
                assert(head[j] == kl[j]);
            }
            assert(j == x);
        }
    }
    assert forall|i: int| 0 <= i < enc.len() && is_alpha(#[trigger] enc[i]) implies (first_index(
        kl,
        to_lower(enc[i]),
    ) matches Some(j) ==> j % 256 <= 158) by {
        assert(is_alpha(text[i]));
    }
    assert forall|i: int| 0 <= i < text.len() implies #[trigger] substitute_spec(enc, key, true)[i] == text[i] by {
        if is_alpha(text[i]) {
            let x = letter_index(text[i]);
            assert(head[x] == kl[x]);
            assert(is_lower(head[x]));
            assert(first_index(kl, to_lower(enc[i])) == Some(x));
        }
    }
    assert(substitute_spec(enc, key, true) =~= text);
}

/// Dropping repeats leaves no value twice, and only values of the original.
proof fn lemma_dedup_values(s: Seq<int>)
    ensures
        dedup_values(s).no_duplicates(),
        forall|j: int| 0 <= j < dedup_values(s).len() ==> s.contains(#[trigger] dedup_values(s)[j]),
    decreases s.len(),
{
    if s.len() > 0 {
        let dl = s.drop_last();
        lemma_dedup_values(dl);
        let prev = dedup_values(dl);
        assert forall|j: int| 0 <= j < dedup_values(s).len() implies s.contains(#[trigger] dedup_values(s)[j]) by {
            if j < prev.len() {
                let k = choose|k: int| 0 <= k < dl.len() && dl[k] == prev[j];
                assert(s[k] == prev[j]);
            } else {
                assert(s[s.len() - 1] == s.last());
            }
        }
    }
}

/// The unused letters below `upto` are increasing, below `upto`, and are
/// exactly the positions below `upto` that `used` lacks.
proof fn lemma_unused_letters(used: Seq<int>, upto: nat)
    ensures
        forall|j: int, k: int|
            0 <= j < k < unused_letters(used, upto).len() ==> #[trigger] unused_letters(used, upto)[j]
                < #[trigger] unused_letters(used, upto)[k],
        forall|j: int|
            0 <= j < unused_letters(used, upto).len() ==> 0 <= #[trigger] unused_letters(used, upto)[j]
                < upto,
        forall|v: int|
            #[trigger] unused_letters(used, upto).contains(v) <==> (0 <= v < upto && !used.contains(v)),
    decreases upto,
{
    if upto > 0 {
        let prev = unused_letters(used, (upto - 1) as nat);
        lemma_unused_letters(used, (upto - 1) as nat);
        let cur = unused_letters(used, upto);
        assert forall|v: int| #[trigger] cur.contains(v) <==> (0 <= v < upto && !used.contains(v)) by {
            assert(prev.contains(v) <==> (0 <= v < upto - 1 && !used.contains(v)));
            if used.contains(upto - 1) {
                assert(cur == prev);
                if v == upto - 1 {
                    assert(!prev.contains(v));
                }
            } else {
                assert(cur == prev.push(upto - 1));
                if cur.contains(v) {
                    let k = choose|k: int| 0 <= k < cur.len() && cur[k] == v;
                    if k < prev.len() {
                        assert(prev[k] == v);
                    } else {
                        assert(v == upto - 1);
                    }
                }
                if 0 <= v < upto && !used.contains(v) {
                    if v < upto - 1 {
                        assert(prev.contains(v));
                        let k = choose|k: int| 0 <= k < prev.len() && prev[k] == v;
                        assert(cur[k] == v);
                    } else {
                        assert(cur[cur.len() - 1] == v);
                    }
                }
            }
        }
    }
}

/// A text of small letters has the letter values of its characters.
proof fn lemma_small_letters_values(s: Seq<char>)
    requires
        forall|j: int| 0 <= j < s.len() ==> is_lower(#[trigger] s[j]),
    ensures
        letter_values(s) == s.map_values(|c: char| letter_index(c)),
    decreases s.len(),
{
    if s.len() > 0 {
        lemma_small_letters_values(s.drop_last());
        assert(letter_values(s) =~= s.map_values(|c: char| letter_index(c)));
    }
}

/// The keyword alphabet is a cipher alphabet, and it is its own key letters,
/// so substitution with it never reports a short key and decoding undoes it.
pub proof fn law_keyword_alphabet(kw: Seq<char>)
    ensures
        is_alphabet_permutation(keyword_alphabet(kw)),
        key_letters(keyword_alphabet(kw)) == keyword_alphabet(kw),
{
    let lv = letter_values(kw);
    let d = dedup_values(lv);
    let u = unused_letters(lv, 26);
    let a = d + u;
    lemma_letter_values_range(kw);
    lemma_dedup_values(lv);
    lemma_unused_letters(lv, 26);
    assert forall|j: int| 0 <= j < d.len() implies 0 <= #[trigger] d[j] < 26 && lv.contains(d[j]) by {
        let k = choose|k: int| 0 <= k < lv.len() && lv[k] == d[j];
    }
    assert(u.no_duplicates()) by {
        assert forall|j: int, k: int| 0 <= j < u.len() && 0 <= k < u.len() && j != k implies u[j] != u[k] by {
            if j < k {
                assert(u[j] < u[k]);
            } else {
                assert(u[k] < u[j]);
            }
        }
    }
    assert forall|j: int, k: int| 0 <= j < d.len() && 0 <= k < u.len() implies d[j] != u[k] by {
        assert(u.contains(u[k]));
    }
    vstd::seq_lib::lemma_no_dup_in_concat(d, u);
    assert(a.to_set() =~= vstd::set_lib::set_int_range(0, 26)) by {
        assert forall|v: int| a.to_set().contains(v) <==> 0 <= v < 26 by {
            if a.contains(v) {
                let k = choose|k: int| 0 <= k < a.len() && a[k] == v;
                if k >= d.len() {
                    assert(u[k - d.len()] == v);
                }
            }
            if 0 <= v < 26 {
                if lv.contains(v) {
                    lemma_dedup_contains(lv, v);
                    let k = choose|k: int| 0 <= k < d.len() && d[k] == v;
                    assert(a[k] == v);
                } else {
                    assert(u.contains(v));
                    let k = choose|k: int| 0 <= k < u.len() && u[k] == v;
                    assert(a[d.len() + k] == v);
                }
            }
        }
    }
    a.unique_seq_to_set();
    vstd::set_lib::lemma_int_range(0, 26);
    let alpha = keyword_alphabet(kw);
    assert(alpha == a.map_values(|v: int| small_letter(v)));
    assert forall|j: int| 0 <= j < a.len() implies 0 <= #[trigger] a[j] < 26 by {
        if j >= d.len() {
            assert(u[j - d.len()] == a[j]);
        }
    }
    assert forall|j: int, k: int| 0 <= j < alpha.len() && 0 <= k < alpha.len() && j != k implies alpha[j] != alpha[k] by {
        assert(a[j] != a[k]);
    }
    lemma_small_letters_values(alpha);
    assert(key_letters(alpha) =~= alpha);
}


/// Appending one character to a text of length `len - 1` lengthens only the
/// column it lands in, `(len - 1) % n`, and by one, at row `column_len`.
proof fn lemma_column_len_step(len: int, n: int, c: int)
    requires
        len >= 1,
        n > 0,
        0 <= c < n,
    ensures
        c != (len - 1) % n ==> column_len(len, n, c) == column_len(len - 1, n, c),
        c == (len - 1) % n ==> column_len(len, n, c) == column_len(len - 1, n, c) + 1 && c
            + column_len(len - 1, n, c) * n == len - 1,
        column_len(len - 1, n, c) >= 0,
{
    let a = column_len(len, n, c);
    let b = column_len(len - 1, n, c);
    lemma_column_rows(len, n, c, 0);
    vstd::arithmetic::div_mod::lemma_fundamental_div_mod(len - 1, n);
    let q = (len - 1) / n;
    let c0 = (len - 1) % n;
    assert(len - 1 == q * n + c0) by {
        vstd::arithmetic::mul::lemma_mul_is_commutative(n, q);
    }
    if len - 1 == 0 {
        assert(b == 0);
        assert(q == 0 && c0 == 0) by {
            vstd::arithmetic::div_mod::lemma_small_mod(0, n as nat);
            vstd::arithmetic::div_mod::lemma_basic_div(0, n);
        }
        if c == 0 {
            vstd::arithmetic::div_mod::lemma_div_by_self(n);
        }
    } else {
        lemma_column_rows(len - 1, n, c, 0);
        lemma_column_rows(len, n, c, b);
        lemma_column_rows(len - 1, n, c, b);
        lemma_column_rows(len, n, c, a);
        lemma_column_rows(len - 1, n, c, a);
        if c != c0 {
            if a > b {
                assert(b * n + c == len - 1);
                assert((b * n + c) % n == c) by {
                    vstd::arithmetic::div_mod::lemma_mod_multiples_vanish(b, c, n);
                    vstd::arithmetic::div_mod::lemma_small_mod(c as nat, n as nat);
                    vstd::arithmetic::mul::lemma_mul_is_commutative(n, b);
                }
            }
        } else {
            assert(q >= 0) by {
                vstd::arithmetic::div_mod::lemma_div_pos_is_pos(len - 1, n);
            }
            lemma_column_rows(len, n, c, q);
            lemma_column_rows(len - 1, n, c, q);
            lemma_column_rows(len, n, c, q + 1);
            assert((q + 1) * n == q * n + n) by (nonlinear_arith);
            assert(b >= q) by (nonlinear_arith)
                requires
                    b * n + c0 >= q * n + c0,
                    n > 0,
            ;
        }
    }
}

/// Appending `x` to a text leaves every column alone but the one it lands in,
/// which gets `x` at its end.
proof fn lemma_column_step(t: Seq<char>, n: int, c: int)
    requires
        t.len() >= 1,
        n > 0,
        0 <= c < n,
    ensures
        c != (t.len() - 1) % n ==> column(t, n, c) == column(t.drop_last(), n, c),
        c == (t.len() - 1) % n ==> column(t, n, c) == column(t.drop_last(), n, c).push(t.last()),
{
    let len = t.len() as int;
    let dl = t.drop_last();
    lemma_column_len_step(len, n, c);
    let b = column_len(len - 1, n, c);
    assert forall|r: int| 0 <= r < b implies #[trigger] column(dl, n, c)[r] == column(t, n, c)[r] by {
        lemma_column_rows(len - 1, n, c, r);
        assert(c + r * n < len - 1);
    }
    if c != (len - 1) % n {
        assert(column(t, n, c) =~= column(dl, n, c));
    } else {
        assert(column(t, n, c) =~= column(dl, n, c).push(t.last()));
    }
}

/// Reading the first `c` columns of a text lengthened by one character adds
/// that character if its column is among them.
proof fn lemma_columns_upto_step(t: Seq<char>, n: int, c: int)
    requires
        t.len() >= 1,
        n > 0,
        0 <= c <= n,
    ensures
        columns_upto(t, n, c).to_multiset() == if (t.len() - 1) % n < c {
            columns_upto(t.drop_last(), n, c).to_multiset().insert(t.last())
        } else {
            columns_upto(t.drop_last(), n, c).to_multiset()
        },
    decreases c,
{
    broadcast use vstd::seq_lib::group_to_multiset_ensures;
    broadcast use vstd::multiset::group_multiset_axioms;

    let dl = t.drop_last();
    if c > 0 {
        lemma_columns_upto_step(t, n, c - 1);
        lemma_column_step(t, n, c - 1);
        vstd::seq_lib::lemma_multiset_commutative(columns_upto(t, n, c - 1), column(t, n, c - 1));
        vstd::seq_lib::lemma_multiset_commutative(columns_upto(dl, n, c - 1), column(dl, n, c - 1));
        vstd::arithmetic::div_mod::lemma_mod_pos_bound(t.len() - 1, n);
        if (t.len() - 1) % n == c - 1 {
            assert(column(t, n, c - 1).to_multiset() =~= column(dl, n, c - 1).to_multiset().insert(t.last()));
            assert(columns_upto(t, n, c).to_multiset() =~= columns_upto(dl, n, c).to_multiset().insert(t.last()));
        } else if (t.len() - 1) % n < c - 1 {
            assert(columns_upto(t, n, c).to_multiset() =~= columns_upto(dl, n, c).to_multiset().insert(t.last()));
        } else {
            assert(columns_upto(t, n, c).to_multiset() =~= columns_upto(dl, n, c).to_multiset());
        }
    } else {
        assert(columns_upto(t, n, c).to_multiset() =~= columns_upto(dl, n, c).to_multiset());
    }
}

/// All `n` columns together hold exactly the characters of the text.
proof fn lemma_columns_multiset(t: Seq<char>, n: int)
    requires
        n > 0,
    ensures
        columns_upto(t, n, n).to_multiset() == t.to_multiset(),
    decreases t.len(),
{
    broadcast use vstd::seq_lib::group_to_multiset_ensures;

    if t.len() == 0 {
        assert forall|c: int| 0 <= c <= n implies #[trigger] columns_upto(t, n, c) == Seq::<char>::empty() by {
            lemma_columns_empty(t, n, c);
        }
    } else {
        lemma_columns_multiset(t.drop_last(), n);
        lemma_columns_upto_step(t, n, n);
        vstd::arithmetic::div_mod::lemma_mod_pos_bound(t.len() - 1, n);
        assert(t.drop_last().push(t.last()) =~= t);
    }
}

/// An empty text has empty columns.
proof fn lemma_columns_empty(t: Seq<char>, n: int, c: int)
    requires
        t.len() == 0,
        0 <= c,
    ensures
        columns_upto(t, n, c) == Seq::<char>::empty(),
    decreases c,
{
    if c > 0 {
        lemma_columns_empty(t, n, c - 1);
        assert(columns_upto(t, n, c) =~= Seq::<char>::empty());
    }
}

/// Transposition only rearranges the text: the result holds the same
/// characters, each as often, and so has the same length.
pub proof fn law_transposition_permutes(text: Seq<char>, n: int)
    ensures
        transposition_spec(text, n).to_multiset() == text.to_multiset(),
        transposition_spec(text, n).len() == text.len(),
{
    broadcast use vstd::seq_lib::group_to_multiset_ensures;

    if !(n <= 1 || text.len() == 0) {
        lemma_columns_multiset(text, n);
        assert(transposition_spec(text, n).len() == transposition_spec(text, n).to_multiset().len());
    }
}

/// With at least as many columns as characters, every column holds at most
/// one character, so the first `c` columns are the first `c` characters.
proof fn lemma_columns_wide(t: Seq<char>, n: int, c: int)
    requires
        0 < t.len() <= n,
        0 <= c <= n,
    ensures
        columns_upto(t, n, c) == t.take(if c < t.len() { c } else { t.len() as int }),
    decreases c,
{
    let len = t.len() as int;
    if c > 0 {
        lemma_columns_wide(t, n, c - 1);
        let col = c - 1;
        if col < len {
            let d = len - col + n - 1;
            vstd::arithmetic::div_mod::lemma_fundamental_div_mod_converse_div(d, n, 1, d - n);
            assert(column(t, n, col) =~= seq![t[col]]);
            assert(t.take(col).push(t[col]) =~= t.take(c));
        } else {
            assert(column(t, n, col) =~= Seq::<char>::empty());
        }
        assert(columns_upto(t, n, c) =~= t.take(if c < len { c } else { len }));
    } else {
        assert(columns_upto(t, n, c) =~= t.take(0));
    }
}

/// Transposition with one column, or with at least as many columns as the
/// text has characters, gives the text back.
pub proof fn law_transposition_identity(text: Seq<char>, n: int)
    requires
        n <= 1 || n >= text.len(),
    ensures
        transposition_spec(text, n) == text,
{
    if !(n <= 1 || text.len() == 0) {
        lemma_columns_wide(text, n, n);
        assert(text.take(text.len() as int) =~= text);
    }
}

/// How many of the first `len` cells of a grid with `n` columns, filled row
/// by row, lie in columns `0..c`: the cells `k < len` with `k % n < c`.
pub open spec fn cells_in_columns(len: nat, n: int, c: int) -> nat
    decreases len,
{
    if len == 0 {
        0
    } else {
        cells_in_columns((len - 1) as nat, n, c) + if (len - 1) % n < c {
            1nat
        } else {
            0nat
        }
    }
}

/// The first `c` columns hold `cells_in_columns` characters.
proof fn lemma_columns_upto_len(t: Seq<char>, n: int, c: int)
    requires
        n > 0,
        0 <= c <= n,
    ensures
        columns_upto(t, n, c).len() == cells_in_columns(t.len(), n, c),
    decreases t.len(),
{
    broadcast use vstd::seq_lib::group_to_multiset_ensures;

    if t.len() == 0 {
        lemma_columns_empty(t, n, c);
    } else {
        lemma_columns_upto_len(t.drop_last(), n, c);
        lemma_columns_upto_step(t, n, c);
        assert(columns_upto(t, n, c).len() == columns_upto(t, n, c).to_multiset().len());
        assert(columns_upto(t.drop_last(), n, c).len() == columns_upto(t.drop_last(), n, c).to_multiset().len());
    }
}

/// Column `c` sits in the columns read after it at the place where the
/// columns before it end.
proof fn lemma_column_in_later(t: Seq<char>, n: int, c: int, d: int, r: int)
    requires
        n > 0,
        0 <= c < d,
        0 <= r < column(t, n, c).len(),
    ensures
        columns_upto(t, n, c).len() + column(t, n, c).len() <= columns_upto(t, n, d).len(),
        columns_upto(t, n, d)[columns_upto(t, n, c).len() + r] == column(t, n, c)[r],
    decreases d,
{
    if d > c + 1 {
        lemma_column_in_later(t, n, c, d - 1, r);
    }
}

/// Transposition reads the text column by column: for `n > 1` columns, the
/// character in row `r` of column `c` (text position `r * n + c`) comes out
/// at position `cells_in_columns(len, n, c) + r`, after all the characters of
/// the columns before it.
pub proof fn law_transposition_reads_columns(text: Seq<char>, n: int, c: int, r: int)
    requires
        n > 1,
        0 <= c < n,
        0 <= r,
        r * n + c < text.len(),
    ensures
        cells_in_columns(text.len(), n, c) + r < text.len(),
        transposition_spec(text, n)[cells_in_columns(text.len(), n, c) + r] == text[r * n + c],
{
    let len = text.len() as int;
    lemma_column_rows(len, n, c, r);
    lemma_column_rows(len, n, c, 0);
    lemma_columns_upto_len(text, n, c);
    lemma_column_in_later(text, n, c, n, r);
    law_transposition_permutes(text, n);
    assert(column(text, n, c)[r] == text[c + r * n]);
}

/// With `1 < n < len` columns, the result starts down the first column: the
/// text's first character, then the one `n` places on.
pub proof fn law_transposition_starts_down_first_column(text: Seq<char>, n: int)
    requires
        1 < n < text.len(),
    ensures
        transposition_spec(text, n)[0] == text[0],
        transposition_spec(text, n)[1] == text[n],
{
    law_transposition_reads_columns(text, n, 0, 0);
    law_transposition_reads_columns(text, n, 0, 1);
    assert(cells_in_columns(text.len(), n, 0) == 0) by {
        lemma_cells_none(text.len(), n);
    }
}

/// No cell lies in the first zero columns.
proof fn lemma_cells_none(len: nat, n: int)
    requires
        n > 0,
    ensures
        cells_in_columns(len, n, 0) == 0,
    decreases len,
{
    if len > 0 {
        lemma_cells_none((len - 1) as nat, n);
        vstd::arithmetic::div_mod::lemma_mod_pos_bound(len - 1, n);
    }
}

/// If `out` has a letter exactly where `text` has one, and each letter of
/// `out` is `f` of the count of letters before it and the text's letter there,
/// then letter `j` of `out` is `f(j, letter j of text)`.
proof fn lemma_letters_by_count(text: Seq<char>, out: Seq<char>, f: spec_fn(int, int) -> int, i: int)
    requires
        out.len() == text.len(),
        0 <= i <= text.len(),
        forall|k: int| 0 <= k < text.len() ==> is_alpha(#[trigger] out[k]) == is_alpha(text[k]),
        forall|k: int|
            0 <= k < text.len() && is_alpha(#[trigger] text[k]) ==> letter_index(out[k]) == f(
                letters_before(text, k),
                letter_index(text[k]),
            ),
    ensures
        letters_before(out, i) == letters_before(text, i),
        forall|j: int|
            0 <= j < letters_before(out, i) ==> #[trigger] letter_values(out.take(i))[j] == f(
                j,
                letter_values(text)[j],
            ),
    decreases i,
{
    if i > 0 {
        lemma_letters_by_count(text, out, f, i - 1);
        lemma_letter_values_step(out, i - 1);
        lemma_letter_values_step(text, i - 1);
        if is_alpha(text[i - 1]) {
            lemma_letter_at(text, i - 1);
        }
    }
}

/// The whole-text form of `lemma_letters_by_count`.
proof fn lemma_letters_by_count_all(text: Seq<char>, out: Seq<char>, f: spec_fn(int, int) -> int)
    requires
        out.len() == text.len(),
        forall|k: int| 0 <= k < text.len() ==> is_alpha(#[trigger] out[k]) == is_alpha(text[k]),
        forall|k: int|
            0 <= k < text.len() && is_alpha(#[trigger] text[k]) ==> letter_index(out[k]) == f(
                letters_before(text, k),
                letter_index(text[k]),
            ),
    ensures
        letter_values(out).len() == letter_values(text).len(),
        forall|j: int| 0 <= j < letter_values(out).len() ==> #[trigger] letter_values(out)[j] == f(j, letter_values(text)[j]),
{
    lemma_letters_by_count(text, out, f, text.len() as int);
    assert(out.take(out.len() as int) =~= out);
    assert(text.take(text.len() as int) =~= text);
}

/// Vigenère letter by letter: non-letters use up no key letter, so letter `j`
/// of the result is letter `j` of the text moved by key letter `j` (the key's
/// letters taken round and round), backwards to decode.
pub proof fn law_vigenere_letters(text: Seq<char>, key: Seq<char>, decode: bool)
    requires
        letter_values(key).len() > 0,
    ensures
        ({
            let keys = letter_values(key);
            let out = letter_values(vigenere_spec(text, key, decode));
            let p = letter_values(text);
            &&& out.len() == p.len()
            &&& forall|j: int|
                0 <= j < p.len() ==> #[trigger] out[j] == (p[j] + (if decode { -1int } else { 1int })
                    * keys[j % keys.len() as int]) % 26
        }),
{
    let keys = letter_values(key);
    let out = vigenere_spec(text, key, decode);
    let f = |j: int, x: int| (x + (if decode { -1int } else { 1int }) * keys[j % keys.len() as int]) % 26;
    law_vigenere_shape(text, key, decode);
    assert forall|k: int| 0 <= k < text.len() && is_alpha(#[trigger] text[k]) implies letter_index(out[k]) == f(
        letters_before(text, k),
        letter_index(text[k]),
    ) by {
        let kk = keys[letters_before(text, k) % keys.len() as int];
        lemma_shift_char_shape(text[k], if decode { -kk } else { kk });
    }
    assert forall|k: int| 0 <= k < text.len() implies is_alpha(#[trigger] out[k]) == is_alpha(text[k]) by {}
    lemma_letters_by_count_all(text, out, f);
}

/// Beaufort letter by letter: letter `j` of the result is key letter `j` (the
/// key's letters taken round and round) less letter `j` of the text.
pub proof fn law_beaufort_letters(text: Seq<char>, key: Seq<char>)
    requires
        letter_values(key).len() > 0,
    ensures
        ({
            let keys = letter_values(key);
            let out = letter_values(beaufort_spec(text, key));
            let p = letter_values(text);
            &&& out.len() == p.len()
            &&& forall|j: int| 0 <= j < p.len() ==> #[trigger] out[j] == (keys[j % keys.len() as int] - p[j]) % 26
        }),
{
    let keys = letter_values(key);
    let out = beaufort_spec(text, key);
    let f = |j: int, x: int| (keys[j % keys.len() as int] - x) % 26;
    law_beaufort_shape(text, key);
    assert forall|k: int| 0 <= k < text.len() && is_alpha(#[trigger] text[k]) implies letter_index(out[k]) == f(
        letters_before(text, k),
        letter_index(text[k]),
    ) by {
        let kk = keys[letters_before(text, k) % keys.len() as int];
        lemma_mod26_reflect(letter_index(text[k]), kk);
    }
    assert forall|k: int| 0 <= k < text.len() implies is_alpha(#[trigger] out[k]) == is_alpha(text[k]) by {}
    lemma_letters_by_count_all(text, out, f);
}

/// Autokey encoding letter by letter: letter `j` of the result is letter `j`
/// of the text moved by entry `j` of the primer's letters followed by the
/// text's own letters.
pub proof fn law_autokey_letters(text: Seq<char>, primer: Seq<char>)
    requires
        letter_values(primer).len() > 0,
    ensures
        ({
            let pk = letter_values(primer);
            let out = letter_values(autokey_spec(text, primer, false));
            let p = letter_values(text);
            &&& out.len() == p.len()
            &&& forall|j: int| 0 <= j < p.len() ==> #[trigger] out[j] == (p[j] + (pk + p)[j]) % 26
        }),
{
    let enc = autokey_spec(text, primer, false);
    law_autokey_shape(text, primer, false);
    lemma_shape_letters(text, enc);
    lemma_autokey_encoded_letters(text, primer, text.len() as int);
    assert(text.take(text.len() as int) =~= text);
    assert(enc.take(enc.len() as int) =~= enc);
}

/// Dropping repeats keeps values in order of first appearance: wherever the
/// later of two kept values occurs, the earlier one has occurred before.
proof fn lemma_dedup_order(s: Seq<int>)
    ensures
        forall|i: int, j: int, k: int|
            #![trigger s[k], dedup_values(s)[j], dedup_values(s)[i]]
            0 <= i < j < dedup_values(s).len() && 0 <= k < s.len() && s[k] == dedup_values(s)[j]
                ==> s.take(k).contains(dedup_values(s)[i]),
    decreases s.len(),
{
    if s.len() > 0 {
        let dl = s.drop_last();
        let x = s.last();
        let prev = dedup_values(dl);
        let d = dedup_values(s);
        lemma_dedup_order(dl);
        lemma_dedup_values(dl);
        lemma_dedup_contains(dl, x);
        assert forall|i: int, j: int, k: int|
            #![trigger s[k], d[j], d[i]]
            0 <= i < j < d.len() && 0 <= k < s.len() && s[k] == d[j] implies s.take(k).contains(d[i]) by {
            assert(d[i] == prev[i]);
            if k < dl.len() {
                assert(s[k] == dl[k]);
                if j < prev.len() {
                    assert(d[j] == prev[j]);
                    assert(dl.take(k).contains(prev[i]));
                    let k2 = choose|k2: int| 0 <= k2 < k && dl.take(k)[k2] == prev[i];
                    assert(s.take(k)[k2] == d[i]);
                } else {
                    assert(dl.contains(x));
                }
            } else {
                assert(dl.contains(prev[i]));
                let k2 = choose|k2: int| 0 <= k2 < dl.len() && dl[k2] == prev[i];
                assert(s.take(k)[k2] == d[i]);
            }
        }
    }
}

/// Whether `c`'s letter occurs among the letters of the keyword `kw`.
pub open spec fn in_keyword(kw: Seq<char>, c: char) -> bool {
    letter_values(kw).contains(letter_index(c))
}

/// The keyword alphabet's order: the keyword's letters come first, in the
/// order in which they first appear in the keyword (wherever the later one
/// occurs, the earlier one has occurred before), and the letters the keyword
/// lacks follow in alphabetical order.
pub proof fn law_keyword_alphabet_order(kw: Seq<char>)
    ensures
        ({
            let alpha = keyword_alphabet(kw);
            let lv = letter_values(kw);
            &&& alpha.len() == 26
            &&& forall|i: int, j: int|
                0 <= i < j < 26 && in_keyword(kw, #[trigger] alpha[j]) ==> in_keyword(kw, #[trigger] alpha[i])
            &&& forall|i: int, j: int|
                0 <= i < j < 26 && !in_keyword(kw, #[trigger] alpha[i]) && !in_keyword(kw, #[trigger] alpha[j])
                    ==> alpha[i] < alpha[j]
            &&& forall|i: int, j: int, k: int|
                #![trigger lv[k], alpha[j], alpha[i]]
                0 <= i < j < 26 && in_keyword(kw, alpha[i]) && 0 <= k < lv.len() && lv[k] == letter_index(
                    alpha[j],
                ) ==> lv.take(k).contains(letter_index(alpha[i]))
        }),
{
    let alpha = keyword_alphabet(kw);
    let lv = letter_values(kw);
    let d = dedup_values(lv);
    let u = unused_letters(lv, 26);
    let a = d + u;
    law_keyword_alphabet(kw);
    lemma_dedup_values(lv);
    lemma_dedup_order(lv);
    lemma_unused_letters(lv, 26);
    lemma_letter_values_range(kw);
    assert(alpha.len() == 26);
    assert forall|i: int| 0 <= i < 26 implies #[trigger] letter_index(alpha[i]) == a[i] && (in_keyword(kw, alpha[i]) <==> i < d.len()) by {
        assert(alpha[i] == small_letter(a[i]));
        if i < d.len() {
            assert(a[i] == d[i]);
            assert(lv.contains(d[i]));
            let k = choose|k: int| 0 <= k < lv.len() && lv[k] == d[i];
            assert(0 <= lv[k] < 26);
        } else {
            assert(a[i] == u[i - d.len()]);
            assert(u.contains(u[i - d.len()]));
        }
    }
    assert forall|i: int, j: int|
        0 <= i < j < 26 && in_keyword(kw, #[trigger] alpha[j]) implies in_keyword(kw, #[trigger] alpha[i]) by {
        assert(letter_index(alpha[i]) == a[i]);
        assert(letter_index(alpha[j]) == a[j]);
    }
    assert forall|i: int, j: int|
        0 <= i < j < 26 && !in_keyword(kw, #[trigger] alpha[i]) && !in_keyword(kw, #[trigger] alpha[j])
            implies alpha[i] < alpha[j] by {
        assert(letter_index(alpha[i]) == a[i]);
        assert(letter_index(alpha[j]) == a[j]);
        assert(a[i] == u[i - d.len()] && a[j] == u[j - d.len()]);
        assert(u[i - d.len()] < u[j - d.len()]);
    }
    assert forall|i: int, j: int, k: int|
        #![trigger lv[k], alpha[j], alpha[i]]
        0 <= i < j < 26 && in_keyword(kw, alpha[i]) && 0 <= k < lv.len() && lv[k] == letter_index(alpha[j])
            implies lv.take(k).contains(letter_index(alpha[i])) by {
        assert(letter_index(alpha[i]) == a[i]);
        assert(letter_index(alpha[j]) == a[j]);
        assert(lv.contains(lv[k]));
        assert(in_keyword(kw, alpha[j]));
        assert(a[i] == d[i] && a[j] == d[j]);
        assert(lv[k] == d[j]);
    }
}

} // verus!
