use vstd::prelude::*;

verus! {

/// `String::push` of std: appends one character.
#[verifier::external_body]
pub(crate) fn push_char(s: &mut String, c: char)
    ensures
        final(s)@ == old(s)@.push(c),
{
    s.push(c);
}

/// The decimal digit for `d` in `0..10`.
pub open spec fn digit_char(d: nat) -> char {
    ('0' as int + d) as char
}

/// The decimal notation of `n`, without sign or leading zeros.
pub open spec fn decimal(n: nat) -> Seq<char>
    decreases n,
{
    if n < 10 {
        seq![digit_char(n)]
    } else {
        decimal(n / 10).push(digit_char(n % 10))
    }
}

/// The decimal notation of `n`, padded on the left with zeros to at least
/// `width` characters.
pub open spec fn padded_decimal(n: nat, width: nat) -> Seq<char> {
    let d = decimal(n);
    if d.len() >= width {
        d
    } else {
        Seq::new((width - d.len()) as nat, |i: int| '0') + d
    }
}

/// Appends the decimal notation of `n` to `s`.
pub fn push_decimal(s: &mut String, n: u64)
    ensures
        final(s)@ == old(s)@ + decimal(n as nat),
    decreases n,
{
    if n >= 10 {
        push_decimal(s, n / 10);
    }
    let d: u8 = (n % 10) as u8;
    let c: char = (48u8 + d) as char;
    push_char(s, c);
    proof {
        assert(old(s)@ + decimal(n as nat) =~= final(s)@) by {
            if n >= 10 {
                assert(decimal(n as nat) == decimal((n / 10) as nat).push(digit_char((n % 10) as nat)));
            }
        }
    }
}

/// The decimal notation of `n`.
pub fn decimal_string(n: u64) -> (r: String)
    ensures
        r@ == decimal(n as nat),
{
    let mut s = String::new();
    push_decimal(&mut s, n);
    proof {
        assert(Seq::<char>::empty() + decimal(n as nat) =~= decimal(n as nat));
    }
    s
}

/// Appends the decimal notation of `n`, zero-padded to `width` characters.
pub fn push_padded_decimal(s: &mut String, n: u64, width: usize)
    ensures
        final(s)@ == old(s)@ + padded_decimal(n as nat, width as nat),
{
    let d = decimal_string(n);
    let len: usize = d.as_str().unicode_len();
    let ghost start = s@;
    if len < width {
        let mut k: usize = len;
        while k < width
            invariant
                len <= k <= width,
                len == decimal(n as nat).len(),
                s@ == start + Seq::new((k - len) as nat, |i: int| '0'),
            decreases width - k,
        {
            push_char(s, '0');
            k = k + 1;
            proof {
                assert(s@ =~= start + Seq::new((k - len) as nat, |i: int| '0'));
            }
        }
    }
    s.append(d.as_str());
    proof {
        assert(s@ =~= start + padded_decimal(n as nat, width as nat));
    }
}


/// The Unicode `White_Space` characters, those that `char::is_whitespace`
/// accepts.
pub open spec fn white_space(c: char) -> bool {
    ||| '\u{9}' <= c && c <= '\u{d}'
    ||| c == ' '
    ||| c == '\u{85}'
    ||| c == '\u{a0}'
    ||| c == '\u{1680}'
    ||| '\u{2000}' <= c && c <= '\u{200a}'
    ||| c == '\u{2028}'
    ||| c == '\u{2029}'
    ||| c == '\u{202f}'
    ||| c == '\u{205f}'
    ||| c == '\u{3000}'
}

/// Whether `c` is a Unicode `White_Space` character.
pub fn is_white_space(c: char) -> (r: bool)
    ensures
        r == white_space(c),
{
    ('\u{9}' <= c && c <= '\u{d}') || c == ' ' || c == '\u{85}' || c == '\u{a0}' || c == '\u{1680}'
        || ('\u{2000}' <= c && c <= '\u{200a}') || c == '\u{2028}' || c == '\u{2029}' || c
        == '\u{202f}' || c == '\u{205f}' || c == '\u{3000}'
}

/// The lowercase form of a string under Unicode's `Lowercase` mapping, as
/// `str::to_lowercase` computes it.
pub uninterp spec fn unicode_lowercase(s: Seq<char>) -> Seq<char>;

/// `str::to_lowercase` of std: the string with every character replaced by
/// its Unicode lowercase mapping. The contract only names the result as a
/// function of the characters of `s`; the mapping itself is Unicode's and is
/// not restated here.
#[verifier::external_body]
pub(crate) fn to_lowercase(s: &str) -> (r: String)
    ensures
        r@ == unicode_lowercase(s@),
{
    s.to_lowercase()
}

/// The characters of `s` in a vector.
pub fn chars_of(s: &str) -> (r: Vec<char>)
    ensures
        r@ == s@,
{
    let mut v: Vec<char> = Vec::new();
    for c in it: s.chars()
        invariant
            it.seq() == s@,
            v@ == s@.take(it.index() as int),
    {
        v.push(c);
        proof {
            assert(v@ =~= s@.take(it.index() + 1));
        }
    }
    proof {
        assert(v@ =~= s@);
    }
    v
}

/// A string of the characters `v[from..to]`.
pub fn string_of(v: &Vec<char>, from: usize, to: usize) -> (r: String)
    requires
        from <= to <= v@.len(),
    ensures
        r@ == v@.subrange(from as int, to as int),
{
    let mut out = String::new();
    let mut i: usize = from;
    while i < to
        invariant
            from <= i <= to <= v@.len(),
            out@ == v@.subrange(from as int, i as int),
        decreases to - i,
    {
        push_char(&mut out, v[i]);
        i = i + 1;
        proof {
            assert(out@ =~= v@.subrange(from as int, i as int));
        }
    }
    out
}

/// The first `n` characters of `s` (all of them if it is shorter).
pub open spec fn prefix_chars(s: Seq<char>, n: nat) -> Seq<char> {
    if s.len() <= n {
        s
    } else {
        s.take(n as int)
    }
}

/// The first `n` characters of `s`, as `s.chars().take(n).collect()` gives.
pub fn preview(s: &str, n: usize) -> (r: String)
    ensures
        r@ == prefix_chars(s@, n as nat),
{
    let v = chars_of(s);
    let m: usize = if v.len() <= n {
        v.len()
    } else {
        n
    };
    let r = string_of(&v, 0, m);
    proof {
        assert(v@.subrange(0, v@.len() as int) =~= v@);
    }
    r
}

/// `s` with its leading Unicode white space removed.
pub open spec fn trim_start(s: Seq<char>) -> Seq<char>
    decreases s.len(),
{
    if s.len() > 0 && white_space(s[0]) {
        trim_start(s.drop_first())
    } else {
        s
    }
}

/// `s` with its trailing Unicode white space removed.
pub open spec fn trim_end(s: Seq<char>) -> Seq<char>
    decreases s.len(),
{
    if s.len() > 0 && white_space(s.last()) {
        trim_end(s.drop_last())
    } else {
        s
    }
}

/// Leading whitespace ends at the first character that is not white space.
proof fn lemma_trim_start(s: Seq<char>, i: int)
    requires
        0 <= i <= s.len(),
        forall|k: int| 0 <= k < i ==> white_space(#[trigger] s[k]),
    ensures
        trim_start(s) == trim_start(s.subrange(i, s.len() as int)),
    decreases i,
{
    if i > 0 {
        assert(s.drop_first().subrange(i - 1, s.drop_first().len() as int) =~= s.subrange(i, s.len() as int));
        lemma_trim_start(s.drop_first(), i - 1);
    } else {
        assert(s.subrange(0, s.len() as int) =~= s);
    }
}

/// Trailing whitespace starts after the last character that is not white space.
proof fn lemma_trim_end(s: Seq<char>, j: int)
    requires
        0 <= j <= s.len(),
        forall|k: int| j <= k < s.len() ==> white_space(#[trigger] s[k]),
    ensures
        trim_end(s) == trim_end(s.subrange(0, j)),
    decreases s.len() - j,
{
    if j < s.len() {
        assert(s.drop_last().subrange(0, j) =~= s.subrange(0, j));
        lemma_trim_end(s.drop_last(), j);
    } else {
        assert(s.subrange(0, j) =~= s);
    }
}

/// `s` without leading or trailing white space, as `str::trim` gives it.
pub fn trim_text(s: &str) -> (r: String)
    ensures
        r@ == trim_end(trim_start(s@)),
{
    let v = chars_of(s);
    let mut i: usize = 0;
    while i < v.len() && is_white_space(v[i])
        invariant
            i <= v@.len(),
            forall|k: int| 0 <= k < i ==> white_space(#[trigger] v@[k]),
        decreases v.len() - i,
    {
        i = i + 1;
    }
    let ghost rest = v@.subrange(i as int, v@.len() as int);
    proof {
        lemma_trim_start(v@, i as int);
        if rest.len() > 0 {
            assert(!white_space(rest[0]));
        }
        assert(trim_start(rest) == rest);
    }
    let mut j: usize = v.len();
    while j > i && is_white_space(v[j - 1])
        invariant
            i <= j <= v@.len(),
            forall|k: int| j <= k < v@.len() ==> white_space(#[trigger] v@[k]),
        decreases j,
    {
        j = j - 1;
    }
    proof {
        let k = (j - i) as int;
        assert forall|m: int| k <= m < rest.len() implies white_space(#[trigger] rest[m]) by {
            assert(rest[m] == v@[i + m]);
        }
        lemma_trim_end(rest, k);
        let core = rest.subrange(0, k);
        if core.len() > 0 {
            assert(core.last() == v@[j - 1]);
        }
        assert(trim_end(core) == core);
        assert(core =~= v@.subrange(i as int, j as int));
    }
    string_of(&v, i, j)
}


/// The words of `s`: its maximal runs of characters that are not Unicode white
/// space, in order, as `str::split_whitespace` yields them.
pub open spec fn words(s: Seq<char>) -> Seq<Seq<char>>
    decreases s.len(),
{
    if s.len() == 0 {
        Seq::empty()
    } else {
        let prev = words(s.drop_last());
        let c = s.last();
        if white_space(c) {
            prev
        } else if s.len() >= 2 && !white_space(s[s.len() - 2]) {
            prev.update(prev.len() - 1, prev.last().push(c))
        } else {
            prev.push(seq![c])
        }
    }
}

/// The views of a vector of strings.
pub open spec fn string_views(v: Seq<String>) -> Seq<Seq<char>> {
    v.map_values(|x: String| x@)
}

/// Splits `s` into its words, as `s.split_whitespace()` does.
pub fn split_words(s: &str) -> (r: Vec<String>)
    ensures
        string_views(r@) == words(s@),
{
    let mut done: Vec<String> = Vec::new();
    let mut cur = String::new();
    let mut in_word = false;
    for c in it: s.chars()
        invariant
            it.seq() == s@,
            in_word == (it.index() > 0 && !white_space(s@[it.index() - 1])),
            words(s@.take(it.index() as int)) == if in_word {
                string_views(done@).push(cur@)
            } else {
                string_views(done@)
            },
    {
        let ghost i = it.index() as int;
        let ghost t = s@.take(i + 1);
        proof {
            assert(t.drop_last() =~= s@.take(i));
            assert(t.last() == c);
            if i >= 1 {
                assert(t[t.len() - 2] == s@[i - 1]);
            }
        }
        if is_white_space(c) {
            if in_word {
                let w = cur;
                done.push(w);
                cur = String::new();
                proof {
                    assert(string_views(done@) =~= words(s@.take(i)));
                }
            }
            in_word = false;
        } else {
            if in_word {
                push_char(&mut cur, c);
                proof {
                    assert(words(t) =~= string_views(done@).push(cur@));
                }
            } else {
                cur = String::new();
                push_char(&mut cur, c);
                in_word = true;
                proof {
                    assert(words(t) =~= string_views(done@).push(cur@));
                }
            }
        }
    }
    if in_word {
        done.push(cur);
    }
    proof {
        assert(s@.take(s@.len() as int) =~= s@);
        assert(string_views(done@) =~= words(s@));
    }
    done
}

/// The words of `ws` joined with single spaces.
pub open spec fn join_words(ws: Seq<Seq<char>>) -> Seq<char>
    decreases ws.len(),
{
    if ws.len() == 0 {
        Seq::empty()
    } else if ws.len() == 1 {
        ws[0]
    } else {
        join_words(ws.drop_last()) + seq![' '] + ws.last()
    }
}

/// Joins `ws` with single spaces, as `ws.join(" ")` does.
pub fn join_with_spaces(ws: &Vec<String>) -> (r: String)
    ensures
        r@ == join_words(string_views(ws@)),
{
    let mut out = String::new();
    let mut i: usize = 0;
    while i < ws.len()
        invariant
            i <= ws@.len(),
            out@ == join_words(string_views(ws@).take(i as int)),
        decreases ws.len() - i,
    {
        let ghost t = string_views(ws@).take(i + 1);
        proof {
            assert(t.drop_last() =~= string_views(ws@).take(i as int));
        }
        if i > 0 {
            push_char(&mut out, ' ');
        }
        out.append(ws[i].as_str());
        i = i + 1;
        proof {
            assert(out@ =~= join_words(string_views(ws@).take(i as int)));
        }
    }
    proof {
        assert(string_views(ws@).take(ws@.len() as int) =~= string_views(ws@));
    }
    out
}

/// An ASCII decimal digit.
pub open spec fn is_digit(c: char) -> bool {
    '0' <= c && c <= '9'
}

/// Every character of `s` is an ASCII decimal digit.
pub open spec fn all_digits(s: Seq<char>) -> bool {
    forall|i: int| 0 <= i < s.len() ==> is_digit(#[trigger] s[i])
}

/// The number that the digits `s` write in decimal.
pub open spec fn digits_value(s: Seq<char>) -> int
    decreases s.len(),
{
    if s.len() == 0 {
        0
    } else {
        digits_value(s.drop_last()) * 10 + (s.last() as int - '0' as int)
    }
}

/// The integer that `s` writes in decimal, as Rust's integer `parse` reads it:
/// an optional `+` (or `-` when `signed`) and then one or more ASCII digits;
/// anything else reads as nothing.
pub open spec fn parse_decimal(s: Seq<char>, signed: bool) -> Option<int> {
    if s.len() > 0 && (s[0] == '+' || (signed && s[0] == '-')) {
        let d = s.drop_first();
        if d.len() > 0 && all_digits(d) {
            Some(
                if s[0] == '-' {
                    -digits_value(d)
                } else {
                    digits_value(d)
                },
            )
        } else {
            None
        }
    } else if s.len() > 0 && all_digits(s) {
        Some(digits_value(s))
    } else {
        None
    }
}

/// What `s.parse::<i32>()` gives: the decimal value if `s` reads as an integer
/// that fits in an `i32`.
pub open spec fn parse_i32(s: Seq<char>) -> Option<int> {
    match parse_decimal(s, true) {
        Some(v) => if i32::MIN <= v <= i32::MAX {
            Some(v)
        } else {
            None
        },
        None => None,
    }
}

/// What `s.parse::<usize>()` gives: the decimal value if `s` reads as a
/// non-negative integer that fits in a `usize`.
pub open spec fn parse_usize(s: Seq<char>) -> Option<int> {
    match parse_decimal(s, false) {
        Some(v) => if v <= usize::MAX {
            Some(v)
        } else {
            None
        },
        None => None,
    }
}

/// Digits never decrease in value as more are written after them.
proof fn lemma_digits_value_grows(s: Seq<char>, k: int)
    requires
        all_digits(s),
        0 <= k <= s.len(),
    ensures
        0 <= digits_value(s.take(k)) <= digits_value(s),
    decreases s.len(),
{
    if k == s.len() {
        assert(s.take(k) =~= s);
        lemma_digits_value_nonneg(s);
    } else {
        assert(s.drop_last().take(k) =~= s.take(k));
        assert(all_digits(s.drop_last()));
        lemma_digits_value_grows(s.drop_last(), k);
        lemma_digits_value_nonneg(s.drop_last());
    }
}

/// Digits write a non-negative number.
proof fn lemma_digits_value_nonneg(s: Seq<char>)
    requires
        all_digits(s),
    ensures
        digits_value(s) >= 0,
    decreases s.len(),
{
    if s.len() > 0 {
        assert(all_digits(s.drop_last()));
        lemma_digits_value_nonneg(s.drop_last());
    }
}

/// The value of the digits `v[start..]` if they are one or more digits whose
/// value is at most `limit`.
fn digits_magnitude(v: &Vec<char>, start: usize, limit: u64) -> (r: Option<u64>)
    requires
        start <= v@.len(),
    ensures
        ({
            let d = v@.subrange(start as int, v@.len() as int);
            match r {
                Some(m) => d.len() > 0 && all_digits(d) && m as int == digits_value(d) && m <= limit,
                None => !(d.len() > 0 && all_digits(d) && digits_value(d) <= limit),
            }
        }),
{
    let ghost d = v@.subrange(start as int, v@.len() as int);
    if start >= v.len() {
        return None;
    }
    let mut acc: u128 = 0;
    let mut i: usize = start;
    while i < v.len()
        invariant
            start <= i <= v@.len(),
            d == v@.subrange(start as int, v@.len() as int),
            all_digits(d.take(i - start)),
            acc as int == digits_value(d.take(i - start)),
            acc <= limit,
        decreases v.len() - i,
    {
        let c = v[i];
        proof {
            assert(d.take(i - start + 1).drop_last() =~= d.take(i - start));
            assert(d[i - start] == c);
        }
        if !('0' <= c && c <= '9') {
            proof {
                assert(!is_digit(d[i - start]));
            }
            return None;
        }
        let dv: u128 = (c as u32 - '0' as u32) as u128;
        acc = acc * 10 + dv;
        proof {
            assert(all_digits(d.take(i - start + 1)));
        }
        if acc > limit as u128 {
            proof {
                if all_digits(d) {
                    lemma_digits_value_grows(d, i - start + 1);
                }
            }
            return None;
        }
        i = i + 1;
    }
    proof {
        assert(d.take(i - start) =~= d);
    }
    Some(acc as u64)
}

/// Reads `s` as Rust's `s.parse::<i32>()` does.
pub fn parse_i32_text(s: &str) -> (r: Option<i32>)
    ensures
        match r {
            Some(x) => parse_i32(s@) == Some(x as int),
            None => parse_i32(s@) is None,
        },
{
    let v = chars_of(s);
    if v.len() == 0 {
        return None;
    }
    proof {
        assert(v@.subrange(1, v@.len() as int) =~= v@.drop_first());
        assert(v@.subrange(0, v@.len() as int) =~= v@);
    }
    if v[0] == '+' {
        match digits_magnitude(&v, 1, 2147483647) {
            Some(m) => Some(m as i32),
            None => None,
        }
    } else if v[0] == '-' {
        match digits_magnitude(&v, 1, 2147483648) {
            Some(m) => {
                let x: i64 = 0 - (m as i64);
                Some(x as i32)
            },
            None => None,
        }
    } else {
        proof {
            if all_digits(v@) {
                assert(is_digit(v@[0]));
            }
        }
        match digits_magnitude(&v, 0, 2147483647) {
            Some(m) => Some(m as i32),
            None => None,
        }
    }
}

/// Reads `s` as Rust's `s.parse::<usize>()` does.
pub fn parse_usize_text(s: &str) -> (r: Option<usize>)
    ensures
        match r {
            Some(x) => parse_usize(s@) == Some(x as int),
            None => parse_usize(s@) is None,
        },
{
    let v = chars_of(s);
    if v.len() == 0 {
        return None;
    }
    proof {
        assert(v@.subrange(1, v@.len() as int) =~= v@.drop_first());
        assert(v@.subrange(0, v@.len() as int) =~= v@);
    }
    let limit: u64 = usize::MAX as u64;
    if v[0] == '+' {
        match digits_magnitude(&v, 1, limit) {
            Some(m) => Some(m as usize),
            None => None,
        }
    } else {
        proof {
            if all_digits(v@) {
                assert(is_digit(v@[0]));
            }
        }
        match digits_magnitude(&v, 0, limit) {
            Some(m) => Some(m as usize),
            None => None,
        }
    }
}

/// The decimal notation of `x`, with a leading `-` when it is negative.
pub open spec fn signed_decimal(x: int) -> Seq<char> {
    if x < 0 {
        seq!['-'] + decimal((-x) as nat)
    } else {
        decimal(x as nat)
    }
}

/// Appends the decimal notation of `x`, as `format!("{x}")` writes it.
pub fn push_signed_decimal(s: &mut String, x: i32)
    ensures
        final(s)@ == old(s)@ + signed_decimal(x as int),
{
    if x < 0 {
        push_char(s, '-');
        let m: u64 = (0 - (x as i64)) as u64;
        push_decimal(s, m);
        proof {
            assert(final(s)@ =~= old(s)@ + signed_decimal(x as int));
        }
    } else {
        push_decimal(s, x as u64);
    }
}

} // verus!
