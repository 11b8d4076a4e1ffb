use vstd::prelude::*;

use crate::text::{
    join_with_spaces, join_words, parse_i32, parse_i32_text, parse_usize, parse_usize_text,
    prefix_chars, preview, split_words, string_views, to_lowercase, unicode_lowercase, words,
};

verus! {

/// Files larger than this many bytes (1 MiB) are not read.
pub const FILE_READ_STOP: u64 = 1048576;

/// Whether a file of `len` bytes is over the read limit.
pub fn exceeds_read_limit(len: u64) -> (r: bool)
    ensures
        r == (len > FILE_READ_STOP),
{
    len > FILE_READ_STOP
}

/// One entry per page written: enough to rebuild the index page.
pub struct Logger {
    /// The page's file name.
    pub namefiles: String,
    /// The cipher (mode) used.
    pub setcipher: String,
    /// The parameters used.
    pub summarize: String,
    /// The first characters of the input.
    pub previewer: String,
}

/// The session state kept across commands.
pub struct Moment {
    /// The working plaintext or ciphertext, once set.
    pub text: Option<String>,
    /// The directory that pages are written to.
    pub outdir: String,
    /// Every page written in the session, in order.
    pub log: Vec<Logger>,
}

/// How many input characters an index entry keeps.
pub const PREVIEW_CHARS: usize = 60;

impl Moment {
    /// A fresh session: no text, pages to `output/html`, nothing written yet.
    pub fn new() -> (m: Self)
        ensures
            m.text is None,
            m.outdir@ == "output/html"@,
            m.log@.len() == 0,
    {
        Moment { text: None, outdir: String::from_str("output/html"), log: Vec::new() }
    }

    /// Records a written page in the log; the preview is the first 60
    /// characters of `input`.
    pub fn record(&mut self, namefiles: String, setcipher: &str, summarize: &str, input: &str)
        ensures
            final(self).text == old(self).text,
            final(self).outdir == old(self).outdir,
            final(self).log@.len() == old(self).log@.len() + 1,
            forall|i: int| 0 <= i < old(self).log@.len() ==> #[trigger] final(self).log@[i] == old(self).log@[i],
            final(self).log@.last().namefiles@ == namefiles@,
            final(self).log@.last().setcipher@ == setcipher@,
            final(self).log@.last().summarize@ == summarize@,
            final(self).log@.last().previewer@ == prefix_chars(input@, 60),
    {
        let entry = Logger {
            namefiles,
            setcipher: String::from_str(setcipher),
            summarize: String::from_str(summarize),
            previewer: preview(input, PREVIEW_CHARS),
        };
        self.log.push(entry);
    }
}

/// One `/key value` pair of a command line.
pub struct FlagEntry {
    pub key: String,
    pub value: String,
}

/// The flags of `entries` as a map; a later entry for a key replaces an
/// earlier one.
pub open spec fn entries_map(entries: Seq<FlagEntry>) -> Map<Seq<char>, Seq<char>>
    decreases entries.len(),
{
    if entries.len() == 0 {
        Map::empty()
    } else {
        entries_map(entries.drop_last()).insert(entries.last().key@, entries.last().value@)
    }
}

/// A token that names a flag: one that starts with `/`.
pub open spec fn is_flag(tok: Seq<char>) -> bool {
    tok.len() > 0 && tok[0] == '/'
}

/// What the tokens after the command say: the flags they set (a `/key` token
/// takes the next token as its value unless that one is a flag too, in which
/// case, or at the end, the value is empty; keys are lowercased and a later
/// flag replaces an earlier one) and the other tokens, in order.
pub open spec fn scan_flags(toks: Seq<Seq<char>>) -> (Map<Seq<char>, Seq<char>>, Seq<Seq<char>>)
    decreases toks.len(),
{
    if toks.len() == 0 {
        (Map::empty(), Seq::empty())
    } else if is_flag(toks[0]) {
        let key = unicode_lowercase(toks[0].drop_first());
        if toks.len() >= 2 && !is_flag(toks[1]) {
            let rest = scan_flags(toks.skip(2));
            (Map::empty().insert(key, toks[1]).union_prefer_right(rest.0), rest.1)
        } else {
            let rest = scan_flags(toks.skip(1));
            (Map::empty().insert(key, Seq::empty()).union_prefer_right(rest.0), rest.1)
        }
    } else {
        let rest = scan_flags(toks.skip(1));
        (rest.0, seq![toks[0]] + rest.1)
    }
}

/// The command word of a line: its first word, lowercased (an empty line's
/// command is the lowercase of the empty string).
pub open spec fn line_command(line: Seq<char>) -> Seq<char> {
    let ws = words(line);
    unicode_lowercase(if ws.len() > 0 { ws[0] } else { Seq::empty() })
}

/// The value of flag `key` in `m`, or `default` if the flag is not set.
pub open spec fn flag_value(m: Map<Seq<char>, Seq<char>>, key: Seq<char>, default: Seq<char>) -> Seq<char> {
    if m.contains_key(key) {
        m[key]
    } else {
        default
    }
}

/// A parsed command line: the command word, the `/key value` flags, and the
/// other words in order. The flags are kept as a list of entries in the order
/// they were written, a later entry for a key overriding an earlier one (see
/// `flag_map`); a `HashMap<String, String>` would carry no usable contract
/// here, since vstd's map specifications hold only for key types known to
/// obey its key model, and `String` is not among them.
pub struct Flags {
    pub command: String,
    pub map: Vec<FlagEntry>,
    pub position: Vec<String>,
}

/// The last entry for `key` decides the map's value for it.
proof fn lemma_entries_lookup(e: Seq<FlagEntry>, key: Seq<char>, j: int)
    requires
        0 <= j <= e.len(),
        forall|k: int| j <= k < e.len() ==> (#[trigger] e[k]).key@ != key,
    ensures
        entries_map(e).contains_key(key) == entries_map(e.take(j)).contains_key(key),
        entries_map(e).contains_key(key) ==> entries_map(e)[key] == entries_map(e.take(j))[key],
    decreases e.len(),
{
    if j == e.len() {
        assert(e.take(j) =~= e);
    } else {
        assert(e.drop_last().take(j) =~= e.take(j));
        lemma_entries_lookup(e.drop_last(), key, j);
    }
}

impl Flags {
    /// The flags as a map.
    pub open spec fn flag_map(&self) -> Map<Seq<char>, Seq<char>> {
        entries_map(self.map@)
    }

    /// Parses a command line: the first word, lowercased, is the command; of
    /// the words after it, `/key value` pairs become flags (keys lowercased; a
    /// `/key` followed by another `/` word or by nothing gets an empty value)
    /// and the rest are kept as position words.
    pub fn parser(liner: &str) -> (r: Self)
        ensures
            r.command@ == line_command(liner@),
            ({
                let ws = words(liner@);
                let toks = if ws.len() > 0 { ws.skip(1) } else { Seq::empty() };
                &&& r.flag_map() == scan_flags(toks).0
                &&& string_views(r.position@) == scan_flags(toks).1
            }),
    {
        let tokens = split_words(liner);
        let ghost ws = words(liner@);
        let ghost tv = string_views(tokens@);
        if tokens.len() == 0 {
            let empty = String::new();
            let command = to_lowercase(empty.as_str());
            let r = Flags { command, map: Vec::new(), position: Vec::new() };
            proof {
                assert(r.flag_map() =~= Map::empty());
                assert(string_views(r.position@) =~= Seq::empty());
            }
            return r;
        }
        let command = to_lowercase(tokens[0].as_str());
        proof {
            assert(tv[0] == tokens@[0]@);
        }
        let ghost toks = ws.skip(1);
        let mut map: Vec<FlagEntry> = Vec::new();
        let mut position: Vec<String> = Vec::new();
        let mut i: usize = 1;
        proof {
            assert(entries_map(map@).union_prefer_right(scan_flags(toks).0) =~= scan_flags(toks).0);
            assert(string_views(position@) + scan_flags(toks).1 =~= scan_flags(toks).1);
        }
        while i < tokens.len()
            invariant
                tv == string_views(tokens@),
                tv == ws,
                ws.len() > 0,
                toks == ws.skip(1),
                1 <= i <= tokens@.len(),
                scan_flags(toks).0 == entries_map(map@).union_prefer_right(
                    scan_flags(tv.skip(i as int)).0,
                ),
                scan_flags(toks).1 == string_views(position@) + scan_flags(tv.skip(i as int)).1,
            decreases tokens.len() - i,
        {
            let ghost rest = tv.skip(i as int);
            let ghost before = map@;
            let ghost before_pos = string_views(position@);
            let tok = &tokens[i];
            let tlen = tok.as_str().unicode_len();
            let first_slash = tlen > 0 && tok.as_str().get_char(0) == '/';
            assert(rest[0] == tok@);
            assert(first_slash == is_flag(rest[0]));
            if first_slash {
                let stripped = tok.as_str().substring_char(1, tlen);
                let key = to_lowercase(stripped);
                proof {
                    assert(stripped@ =~= tok@.drop_first());
                }
                let value_follows = i + 1 < tokens.len() && !(tokens[i + 1].as_str().unicode_len() > 0
                    && tokens[i + 1].as_str().get_char(0) == '/');
                if value_follows {
                    proof {
                        assert(rest[1] == tokens@[i + 1]@);
                        assert(!is_flag(rest[1]));
                        assert(rest.skip(2) =~= tv.skip(i + 2));
                    }
                    let value = tokens[i + 1].clone();
                    let ghost v = value@;
                    map.push(FlagEntry { key, value });
                    i = i + 2;
                    proof {
                        assert(map@.drop_last() =~= before);
                        assert(entries_map(map@) == entries_map(before).insert(key@, v));
                        assert(scan_flags(rest).0 == Map::empty().insert(key@, rest[1]).union_prefer_right(
                            scan_flags(tv.skip(i as int)).0,
                        ));
                        assert(scan_flags(rest).1 == scan_flags(tv.skip(i as int)).1);
                        assert(entries_map(map@).union_prefer_right(scan_flags(tv.skip(i as int)).0)
                            =~= entries_map(before).union_prefer_right(scan_flags(rest).0));
                    }
                } else {
                    proof {
                        if i + 1 < tokens.len() {
                            assert(rest[1] == tokens@[i + 1]@);
                        }
                        assert(rest.skip(1) =~= tv.skip(i + 1));
                    }
                    map.push(FlagEntry { key, value: String::new() });
                    i = i + 1;
                    proof {
                        assert(map@.drop_last() =~= before);
                        assert(entries_map(map@) == entries_map(before).insert(key@, Seq::<char>::empty()));
                        assert(scan_flags(rest).0 == Map::empty().insert(key@, Seq::<char>::empty()).union_prefer_right(
                            scan_flags(tv.skip(i as int)).0,
                        ));
                        assert(entries_map(map@).union_prefer_right(scan_flags(tv.skip(i as int)).0)
                            =~= entries_map(before).union_prefer_right(scan_flags(rest).0));
                    }
                }
            } else {
                position.push(tokens[i].clone());
                i = i + 1;
                proof {
                    assert(rest.skip(1) =~= tv.skip(i as int));
                    assert(string_views(position@) + scan_flags(tv.skip(i as int)).1 =~= before_pos
                        + scan_flags(rest).1);
                }
            }
        }
        proof {
            assert(tv.skip(i as int) =~= Seq::<Seq<char>>::empty());
            assert(entries_map(map@).union_prefer_right(Map::empty()) =~= entries_map(map@));
            assert(string_views(position@) + Seq::<Seq<char>>::empty() =~= string_views(position@));
        }
        Flags { command, map, position }
    }
}


impl Flags {
    /// All position words joined with single spaces, so a whole phrase can be
    /// given without quotes: `set this phrase here` gives `this phrase here`.
    pub fn check_position(&self) -> (r: String)
        ensures
            r@ == join_words(string_views(self.position@)),
    {
        join_with_spaces(&self.position)
    }

    /// The value of flag `key`, or `default` if it is not set.
    pub fn read_get<'a>(&'a self, key: &str, default: &'a str) -> (r: &'a str)
        ensures
            r@ == flag_value(self.flag_map(), key@, default@),
    {
        let k = String::from_str(key);
        let mut j: usize = self.map.len();
        while j > 0
            invariant
                j <= self.map@.len(),
                k@ == key@,
                forall|m: int| j <= m < self.map@.len() ==> (#[trigger] self.map@[m]).key@ != key@,
            decreases j,
        {
            if self.map[j - 1].key == k {
                proof {
                    lemma_entries_lookup(self.map@, key@, j as int);
                    assert(self.map@.take(j as int).drop_last() =~= self.map@.take(j - 1));
                }
                return self.map[j - 1].value.as_str();
            }
            j = j - 1;
        }
        proof {
            lemma_entries_lookup(self.map@, key@, 0);
            assert(self.map@.take(0) =~= Seq::<FlagEntry>::empty());
        }
        default
    }

    /// Whether flag `key` was given at all (with or without a value).
    pub fn flag_off(&self, key: &str) -> (r: bool)
        ensures
            r == self.flag_map().contains_key(key@),
    {
        let k = String::from_str(key);
        let mut j: usize = self.map.len();
        while j > 0
            invariant
                j <= self.map@.len(),
                k@ == key@,
                forall|m: int| j <= m < self.map@.len() ==> (#[trigger] self.map@[m]).key@ != key@,
            decreases j,
        {
            if self.map[j - 1].key == k {
                proof {
                    lemma_entries_lookup(self.map@, key@, j as int);
                    assert(self.map@.take(j as int).drop_last() =~= self.map@.take(j - 1));
                }
                return true;
            }
            j = j - 1;
        }
        proof {
            lemma_entries_lookup(self.map@, key@, 0);
            assert(self.map@.take(0) =~= Seq::<FlagEntry>::empty());
        }
        false
    }

    /// The integer value of flag `key`, or `default` if it is not set or does
    /// not read as an `i32`.
    pub fn read_num(&self, key: &str, default: i32) -> (r: i32)
        ensures
            r as int == match parse_i32(flag_value(self.flag_map(), key@, ""@)) {
                Some(v) => v,
                None => default as int,
            },
    {
        let text = self.read_get(key, "");
        match parse_i32_text(text) {
            Some(v) => v,
            None => default,
        }
    }

    /// The column range to sweep: `/range a..b` (or its short form `/r a..b`)
    /// if given (with `a` read as 1 and `b` as 999 where they do not read as
    /// numbers), else `/from` and `/to` (defaults 1 and 999); the end is
    /// raised to the start if below it.
    pub fn read_range(&self) -> (r: (usize, usize))
        ensures
            r.0 as int == range_spec(self.flag_map()).0,
            r.1 as int == range_spec(self.flag_map()).1,
    {
        let given: Option<&str> = if self.flag_off("range") {
            Some(self.read_get("range", ""))
        } else if self.flag_off("r") {
            Some(self.read_get("r", ""))
        } else {
            None
        };
        if let Some(r) = given {
            let v = crate::text::chars_of(r);
            match find_dots(&v) {
                Some(k) => {
                    let a = crate::text::string_of(&v, 0, k);
                    let b = crate::text::string_of(&v, k + 2, v.len());
                    proof {
                        assert(v@.subrange(0, k as int) =~= v@.take(k as int));
                        assert(v@.subrange(k + 2, v@.len() as int) =~= v@.skip(k + 2));
                    }
                    let from: usize = match parse_usize_text(a.as_str()) {
                        Some(x) => x,
                        None => 1,
                    };
                    let to: usize = match parse_usize_text(b.as_str()) {
                        Some(x) => x,
                        None => 999,
                    };
                    return (from, if to >= from { to } else { from });
                },
                None => {},
            }
        }
        let from: usize = match parse_usize_text(self.read_get("from", "1")) {
            Some(x) => x,
            None => 1,
        };
        let to: usize = match parse_usize_text(self.read_get("to", "999")) {
            Some(x) => x,
            None => 999,
        };
        (from, if to >= from { to } else { from })
    }
}

/// The position of the first `..` in `s`, if any.
pub open spec fn first_dots(s: Seq<char>) -> Option<int>
    decreases s.len(),
{
    if s.len() < 2 {
        None
    } else {
        match first_dots(s.drop_last()) {
            Some(k) => Some(k),
            None => if s[s.len() - 2] == '.' && s[s.len() - 1] == '.' {
                Some(s.len() - 2)
            } else {
                None
            },
        }
    }
}

/// `first_dots` finds the first `..`, and finds none only where there is none.
proof fn lemma_first_dots(s: Seq<char>)
    ensures
        first_dots(s) matches Some(k) ==> 0 <= k && k + 2 <= s.len() && s[k] == '.' && s[k + 1] == '.'
            && forall|m: int| 0 <= m < k ==> !(#[trigger] s[m] == '.' && s[m + 1] == '.'),
        first_dots(s) is None ==> forall|m: int|
            0 <= m && m + 2 <= s.len() ==> !(#[trigger] s[m] == '.' && s[m + 1] == '.'),
    decreases s.len(),
{
    if s.len() >= 2 {
        let dl = s.drop_last();
        lemma_first_dots(dl);
        match first_dots(dl) {
            Some(k) => {
                assert forall|m: int| 0 <= m < k implies !(#[trigger] s[m] == '.' && s[m + 1] == '.') by {
                    assert(dl[m] == s[m] && dl[m + 1] == s[m + 1]);
                    assert(!(dl[m] == '.' && dl[m + 1] == '.'));
                }
                assert(dl[k] == s[k] && dl[k + 1] == s[k + 1]);
            },
            None => {
                if first_dots(s) is None {
                    assert forall|m: int| 0 <= m && m + 2 <= s.len() implies !(#[trigger] s[m] == '.'
                        && s[m + 1] == '.') by {
                        if m + 2 <= dl.len() {
                            assert(dl[m] == s[m] && dl[m + 1] == s[m + 1]);
                            assert(!(dl[m] == '.' && dl[m + 1] == '.'));
                        }
                    }
                }
                if first_dots(s) is Some {
                    assert forall|m: int| 0 <= m < s.len() - 2 implies !(#[trigger] s[m] == '.' && s[m
                        + 1] == '.') by {
                        assert(dl[m] == s[m] && dl[m + 1] == s[m + 1]);
                        assert(!(dl[m] == '.' && dl[m + 1] == '.'));
                    }
                }
            },
        }
    }
}

/// The position of the first `..` in `v`, if any.
fn find_dots(v: &Vec<char>) -> (r: Option<usize>)
    ensures
        r matches Some(k) ==> first_dots(v@) == Some(k as int) && k + 2 <= v@.len(),
        r is None ==> first_dots(v@) is None,
{
    proof {
        lemma_first_dots(v@);
    }
    if v.len() < 2 {
        return None;
    }
    let mut k: usize = 0;
    while k < v.len() - 1
        invariant
            v@.len() >= 2,
            forall|m: int| 0 <= m < k && m + 1 < v@.len() ==> !(#[trigger] v@[m] == '.' && v@[m + 1] == '.'),
            first_dots(v@) matches Some(f) ==> 0 <= f && f + 2 <= v@.len() && v@[f] == '.' && v@[f + 1]
                == '.' && forall|m: int| 0 <= m < f ==> !(#[trigger] v@[m] == '.' && v@[m + 1] == '.'),
            first_dots(v@) is None ==> forall|m: int|
                0 <= m && m + 2 <= v@.len() ==> !(#[trigger] v@[m] == '.' && v@[m + 1] == '.'),
        decreases v.len() - k,
    {
        if v[k] == '.' && v[k + 1] == '.' {
            return Some(k);
        }
        k = k + 1;
    }
    None
}

/// `x`, or `default` if there is none.
pub open spec fn or_default(x: Option<int>, default: int) -> int {
    match x {
        Some(v) => v,
        None => default,
    }
}

/// The value of the range flag: `/range`, or else its short form `/r`.
pub open spec fn range_flag(m: Map<Seq<char>, Seq<char>>) -> Option<Seq<char>> {
    if m.contains_key("range"@) {
        Some(m["range"@])
    } else if m.contains_key("r"@) {
        Some(m["r"@])
    } else {
        None
    }
}

/// The range that `read_range` gives for the flags `m`.
pub open spec fn range_spec(m: Map<Seq<char>, Seq<char>>) -> (int, int) {
    let given = range_flag(m);
    let bounds = if given is Some && first_dots(given->0) is Some {
        let r = given->0;
        let k = first_dots(r)->0;
        (or_default(parse_usize(r.take(k)), 1), or_default(parse_usize(r.skip(k + 2)), 999))
    } else {
        (
            or_default(parse_usize(flag_value(m, "from"@, "1"@)), 1),
            or_default(parse_usize(flag_value(m, "to"@, "999"@)), 999),
        )
    };
    (bounds.0, if bounds.1 >= bounds.0 { bounds.1 } else { bounds.0 })
}


/// Where a command's working text comes from, as seen in the spec.
pub enum SourceView {
    Given(Seq<char>),
    ReadFile(Seq<char>),
    Missing(Seq<char>),
}

/// Where a command's working text comes from.
pub enum TextSource {
    /// The text itself.
    Given(String),
    /// The text is the contents of this file (looked up under `input/`
    /// first).
    ReadFile(String),
    /// No text; the message says how to set one.
    Missing(String),
}

impl View for TextSource {
    type V = SourceView;

    open spec fn view(&self) -> SourceView {
        match self {
            TextSource::Given(t) => SourceView::Given(t@),
            TextSource::ReadFile(p) => SourceView::ReadFile(p@),
            TextSource::Missing(m) => SourceView::Missing(m@),
        }
    }
}

/// The source of the working text, in order of priority: a non-empty `/text`
/// or `/t` flag, a non-empty `/file` or `/f` flag (a file to read), the
/// position words of the line, then the stored session text.
pub open spec fn text_source_spec(
    m: Map<Seq<char>, Seq<char>>,
    position: Seq<Seq<char>>,
    stored: Option<Seq<char>>,
) -> SourceView {
    if flag_value(m, "text"@, ""@).len() > 0 {
        SourceView::Given(flag_value(m, "text"@, ""@))
    } else if flag_value(m, "t"@, ""@).len() > 0 {
        SourceView::Given(flag_value(m, "t"@, ""@))
    } else if flag_value(m, "file"@, ""@).len() > 0 {
        SourceView::ReadFile(flag_value(m, "file"@, ""@))
    } else if flag_value(m, "f"@, ""@).len() > 0 {
        SourceView::ReadFile(flag_value(m, "f"@, ""@))
    } else if join_words(position).len() > 0 {
        SourceView::Given(join_words(position))
    } else {
        match stored {
            Some(t) => SourceView::Given(t),
            None => SourceView::Missing("try: set --text message"@),
        }
    }
}

/// The stored session text, if any.
pub open spec fn stored_text(moment: &Moment) -> Option<Seq<char>> {
    match moment.text {
        Some(t) => Some(t@),
        None => None,
    }
}

/// Decides where the working text of a command comes from (see
/// `text_source_spec`); reading a file is left to the caller.
pub fn text_source(f: &Flags, moment: &Moment) -> (r: TextSource)
    ensures
        r@ == text_source_spec(f.flag_map(), string_views(f.position@), stored_text(moment)),
{
    let t = f.read_get("text", "");
    if !t.is_empty() {
        return TextSource::Given(String::from_str(t));
    }
    let t = f.read_get("t", "");
    if !t.is_empty() {
        return TextSource::Given(String::from_str(t));
    }
    let path = f.read_get("file", "");
    if !path.is_empty() {
        return TextSource::ReadFile(String::from_str(path));
    }
    let path = f.read_get("f", "");
    if !path.is_empty() {
        return TextSource::ReadFile(String::from_str(path));
    }
    let pos = f.check_position();
    if pos.as_str().unicode_len() > 0 {
        return TextSource::Given(pos);
    }
    match &moment.text {
        Some(t) => TextSource::Given(t.clone()),
        None => TextSource::Missing(String::from_str("try: set --text message")),
    }
}


/// The range that `read_range` gives never ends before it starts.
pub proof fn law_range_ordered(m: Map<Seq<char>, Seq<char>>)
    ensures
        range_spec(m).0 <= range_spec(m).1,
{
}

/// The key a flag token sets: the token without its `/`, lowercased.
pub open spec fn flag_key(tok: Seq<char>) -> Seq<char> {
    unicode_lowercase(tok.drop_first())
}

/// Tokens that hold no flag token for `key` set no flag `key`.
proof fn lemma_scan_lacks_key(toks: Seq<Seq<char>>, key: Seq<char>)
    requires
        forall|j: int| 0 <= j < toks.len() && is_flag(#[trigger] toks[j]) ==> flag_key(toks[j]) != key,
    ensures
        !scan_flags(toks).0.contains_key(key),
    decreases toks.len(),
{
    if toks.len() > 0 {
        if is_flag(toks[0]) && toks.len() >= 2 && !is_flag(toks[1]) {
            let rest = toks.skip(2);
            assert forall|j: int| 0 <= j < rest.len() && is_flag(#[trigger] rest[j]) implies flag_key(rest[j]) != key by {
                assert(rest[j] == toks[j + 2]);
            }
            lemma_scan_lacks_key(rest, key);
        } else {
            let rest = toks.skip(1);
            assert forall|j: int| 0 <= j < rest.len() && is_flag(#[trigger] rest[j]) implies flag_key(rest[j]) != key by {
                assert(rest[j] == toks[j + 1]);
            }
            lemma_scan_lacks_key(rest, key);
        }
    }
}

/// The value a flag token at `i` is given: the next token if there is one
/// and it is not a flag itself, else the empty string.
pub open spec fn value_after(toks: Seq<Seq<char>>, i: int) -> Seq<char> {
    if i + 1 < toks.len() && !is_flag(toks[i + 1]) {
        toks[i + 1]
    } else {
        Seq::empty()
    }
}

/// A flag keeps its value as written: where the tokens after the command hold
/// a flag token `/k` at `i` and no later flag token sets the same
/// (lowercased) key, the parsed flags map the lowercased `k` to the token
/// after it, case and all, or to the empty string when that token is missing
/// or is itself a flag. (`Flags::parser` gives exactly `scan_flags` of these
/// tokens.)
pub proof fn law_flag_value_as_written(toks: Seq<Seq<char>>, i: int)
    requires
        0 <= i < toks.len(),
        is_flag(toks[i]),
        forall|j: int| i < j < toks.len() && is_flag(#[trigger] toks[j]) ==> flag_key(toks[j]) != flag_key(toks[i]),
    ensures
        scan_flags(toks).0.contains_key(flag_key(toks[i])),
        scan_flags(toks).0[flag_key(toks[i])] == value_after(toks, i),
    decreases toks.len(),
{
    let key = flag_key(toks[i]);
    if i == 0 {
        let skip = if toks.len() >= 2 && !is_flag(toks[1]) { 2int } else { 1int };
        let rest = toks.skip(skip);
        assert forall|j: int| 0 <= j < rest.len() && is_flag(#[trigger] rest[j]) implies flag_key(rest[j]) != key by {
            assert(rest[j] == toks[j + skip]);
        }
        lemma_scan_lacks_key(rest, key);
    } else {
        let skip = if is_flag(toks[0]) && toks.len() >= 2 && !is_flag(toks[1]) { 2int } else { 1int };
        let rest = toks.skip(skip);
        assert(i >= skip);
        assert(rest[i - skip] == toks[i]);
        assert(value_after(rest, i - skip) == value_after(toks, i));
        assert forall|j: int| i - skip < j < rest.len() && is_flag(#[trigger] rest[j]) implies flag_key(rest[j]) != flag_key(rest[i - skip]) by {
            assert(rest[j] == toks[j + skip]);
        }
        law_flag_value_as_written(rest, i - skip);
    }
}

/// A text given on the line wins: a non-empty `/text` is the working text;
/// otherwise a non-empty `/t` is. Either way the file flags, the position
/// words and the stored session text do not matter.
pub proof fn law_given_text_wins(
    m: Map<Seq<char>, Seq<char>>,
    position: Seq<Seq<char>>,
    other_position: Seq<Seq<char>>,
    stored: Option<Seq<char>>,
    other_stored: Option<Seq<char>>,
)
    ensures
        m.contains_key("text"@) && m["text"@].len() > 0 ==> text_source_spec(m, position, stored)
            == SourceView::Given(m["text"@]),
        !(m.contains_key("text"@) && m["text"@].len() > 0) && m.contains_key("t"@) && m["t"@].len()
            > 0 ==> text_source_spec(m, position, stored) == SourceView::Given(m["t"@]),
        (m.contains_key("text"@) && m["text"@].len() > 0) || (m.contains_key("t"@) && m["t"@].len() > 0)
            ==> text_source_spec(m, position, stored) == text_source_spec(m, other_position, other_stored),
{
    reveal_strlit("");
}

/// Without a text flag, a file flag names the file to read (`/file` before
/// `/f`); without either, the position words are the text; and only when
/// there is none of these does the stored session text count, with a hint
/// when there is none.
pub proof fn law_text_source_fallbacks(
    m: Map<Seq<char>, Seq<char>>,
    position: Seq<Seq<char>>,
    stored: Option<Seq<char>>,
)
    requires
        flag_value(m, "text"@, ""@).len() == 0,
        flag_value(m, "t"@, ""@).len() == 0,
    ensures
        m.contains_key("file"@) && m["file"@].len() > 0 ==> text_source_spec(m, position, stored)
            == SourceView::ReadFile(m["file"@]),
        flag_value(m, "file"@, ""@).len() == 0 && m.contains_key("f"@) && m["f"@].len() > 0
            ==> text_source_spec(m, position, stored) == SourceView::ReadFile(m["f"@]),
        flag_value(m, "file"@, ""@).len() == 0 && flag_value(m, "f"@, ""@).len() == 0 && join_words(
            position,
        ).len() > 0 ==> text_source_spec(m, position, stored) == SourceView::Given(join_words(position)),
        flag_value(m, "file"@, ""@).len() == 0 && flag_value(m, "f"@, ""@).len() == 0 && join_words(
            position,
        ).len() == 0 ==> text_source_spec(m, position, stored) == match stored {
            Some(t) => SourceView::Given(t),
            None => SourceView::Missing("try: set --text message"@),
        },
{
}

} // verus!
