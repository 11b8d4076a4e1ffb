use vstd::prelude::*;

use crate::cipher::{
    caesar_fits, caesar_shift_fits, find_first, key_letter_chars, lower_of,
    autokey_spec, beaufort_spec, caesar_spec, first_index, key_letters, keyword_alphabet,
    set_kword_alpha, substitute_decodable, substitute_spec, to_lower, is_alpha, transposition_spec,
    use_autokey, use_beaufort, use_caesar, use_substitute, use_transposition, use_vigenere,
    vigenere_spec,
};
use crate::cipher_laws::{is_alphabet_permutation, law_keyword_alphabet};
use crate::moment::{flag_value, or_default, range_spec, Flags, Moment};
use crate::html::{escape_html, escape_html_chars};
use crate::text::{padded_decimal, push_padded_decimal, decimal, parse_i32, parse_usize, parse_usize_text, push_decimal, push_signed_decimal, signed_decimal};
use vstd::utf8::{decode_utf8, encode_utf8, is_char_boundary};
use crate::text::{
    join_words, prefix_chars, preview, string_views,
};

verus! {

/// The commands of a session.
#[derive(Clone, Copy, Debug)]
pub enum Command {
    Help,
    Quit,
    Debug,
    Read,
    SetText,
    Show,
    Out,
    Caesar,
    Vigenere,
    Autokey,
    Beaufort,
    Substitute,
    Keyword,
    Transpose,
    Unknown,
}

/// The command a (lowercased) command word names.
pub open spec fn command_spec(c: Seq<char>) -> Command {
    if c == "help"@ {
        Command::Help
    } else if c == "qq!"@ {
        Command::Quit
    } else if c == "debug"@ {
        Command::Debug
    } else if c == "read"@ {
        Command::Read
    } else if c == "set"@ {
        Command::SetText
    } else if c == "show"@ {
        Command::Show
    } else if c == "out"@ {
        Command::Out
    } else if c == "csr"@ {
        Command::Caesar
    } else if c == "vig"@ {
        Command::Vigenere
    } else if c == "auto"@ {
        Command::Autokey
    } else if c == "bfort"@ {
        Command::Beaufort
    } else if c == "sub"@ {
        Command::Substitute
    } else if c == "word"@ {
        Command::Keyword
    } else if c == "trans"@ {
        Command::Transpose
    } else {
        Command::Unknown
    }
}

fn is_word(s: &String, w: &str) -> (r: bool)
    ensures
        r == (s@ == w@),
{
    *s == String::from_str(w)
}

/// The command that a parsed line names.
pub fn command_of(f: &Flags) -> (r: Command)
    ensures
        r == command_spec(f.command@),
{
    let c = &f.command;
    if is_word(c, "help") {
        Command::Help
    } else if is_word(c, "qq!") {
        Command::Quit
    } else if is_word(c, "debug") {
        Command::Debug
    } else if is_word(c, "read") {
        Command::Read
    } else if is_word(c, "set") {
        Command::SetText
    } else if is_word(c, "show") {
        Command::Show
    } else if is_word(c, "out") {
        Command::Out
    } else if is_word(c, "csr") {
        Command::Caesar
    } else if is_word(c, "vig") {
        Command::Vigenere
    } else if is_word(c, "auto") {
        Command::Autokey
    } else if is_word(c, "bfort") {
        Command::Beaufort
    } else if is_word(c, "sub") {
        Command::Substitute
    } else if is_word(c, "word") {
        Command::Keyword
    } else if is_word(c, "trans") {
        Command::Transpose
    } else {
        Command::Unknown
    }
}

/// Whether a (trimmed) line is skipped: empty, or a `#` comment.
pub fn skip_line(liner: &str) -> (r: bool)
    ensures
        r == (liner@.len() == 0 || liner@[0] == '#'),
{
    liner.unicode_len() == 0 || liner.get_char(0) == '#'
}

/// The file that `read` loads: the position words if there are any, else the
/// `/file` flag (possibly empty).
pub fn read_path(f: &Flags) -> (r: String)
    ensures
        r@ == if f.position@.len() == 0 {
            flag_value(f.flag_map(), "file"@, ""@)
        } else {
            join_words(string_views(f.position@))
        },
{
    if f.position.len() == 0 {
        String::from_str(f.read_get("file", ""))
    } else {
        f.check_position()
    }
}

/// The output directory that `out` sets, if its `/dir` flag is non-empty.
pub fn out_dir(f: &Flags) -> (r: Option<String>)
    ensures
        match r {
            Some(d) => d@ == flag_value(f.flag_map(), "dir"@, ""@) && d@.len() > 0,
            None => flag_value(f.flag_map(), "dir"@, ""@).len() == 0,
        },
{
    let d = f.read_get("dir", "");
    if d.is_empty() {
        None
    } else {
        Some(String::from_str(d))
    }
}

/// What `show` prints for the session text: its first 60 characters, with
/// `...` after them if there are more, or `(null)` when there is no text.
pub open spec fn show_preview_spec(text: Option<Seq<char>>) -> Seq<char> {
    match text {
        Some(t) => if t.len() > 60 {
            prefix_chars(t, 60) + "..."@
        } else {
            t
        },
        None => "(null)"@,
    }
}

/// The preview that `show` prints (see `show_preview_spec`).
pub fn show_preview(moment: &Moment) -> (r: String)
    ensures
        r@ == show_preview_spec(crate::moment::stored_text(moment)),
{
    match &moment.text {
        Some(t) => {
            let mut p = preview(t.as_str(), 60);
            if t.as_str().unicode_len() > 60 {
                p.append("...");
            }
            p
        },
        None => String::from_str("(null)"),
    }
}


/// `, decode` when decoding, else nothing.
pub open spec fn decode_suffix(decode: bool) -> Seq<char> {
    if decode {
        ", decode"@
    } else {
        ""@
    }
}

/// The byte length that the `sub` summary keeps of a key of `len` bytes.
pub open spec fn key_head_bytes(len: int) -> int {
    if len < 4 {
        len
    } else {
        4
    }
}

/// The start of a key shown in the `sub` summary: its first four bytes (all
/// of them if fewer), as characters.
pub open spec fn key_head(key: Seq<char>) -> Seq<char> {
    decode_utf8(encode_utf8(key).subrange(0, key_head_bytes(encode_utf8(key).len() as int)))
}

/// The outcome of a cipher command, as seen in the spec.
pub enum RunView {
    Page(Seq<char>, Seq<char>, Seq<char>),
    Notice(Seq<char>),
    Sweep(int, int),
}

/// The outcome of a cipher command.
pub enum CipherRun {
    /// Write a result page for the cipher `setcipher` with parameters
    /// `summarize` and the result `output`.
    Page { setcipher: String, summarize: String, output: String },
    /// Print this line instead; no page is written.
    Notice(String),
    /// Write the page of a transposition sweep over column counts
    /// `from..=to`.
    Sweep { from: usize, to: usize },
}

impl View for CipherRun {
    type V = RunView;

    open spec fn view(&self) -> RunView {
        match self {
            CipherRun::Page { setcipher, summarize, output } => RunView::Page(
                setcipher@,
                summarize@,
                output@,
            ),
            CipherRun::Notice(m) => RunView::Notice(m@),
            CipherRun::Sweep { from, to } => RunView::Sweep(*from as int, *to as int),
        }
    }
}

/// The commands that run a cipher on the working text.
pub open spec fn is_cipher_command(cmd: Command) -> bool {
    match cmd {
        Command::Caesar | Command::Vigenere | Command::Autokey | Command::Beaufort
        | Command::Substitute | Command::Keyword | Command::Transpose => true,
        _ => false,
    }
}

/// The Caesar shift that `csr` reads: `/shift`, 0 when absent or unreadable.
pub open spec fn caesar_shift(m: Map<Seq<char>, Seq<char>>) -> int {
    or_default(parse_i32(flag_value(m, "shift"@, ""@)), 0)
}

/// The column count that `trans /n` reads, 2 when unreadable.
pub open spec fn trans_columns(m: Map<Seq<char>, Seq<char>>) -> int {
    or_default(parse_usize(flag_value(m, "n"@, "2"@)), 2)
}

/// What a cipher command does with the working text `t` and the flags `m`.
pub open spec fn run_spec(cmd: Command, m: Map<Seq<char>, Seq<char>>, t: Seq<char>) -> RunView {
    let decode = m.contains_key("decode"@);
    let key = flag_value(m, "key"@, ""@);
    match cmd {
        Command::Caesar => {
            let shift = caesar_shift(m);
            RunView::Page(
                "Caesar"@,
                "shift="@ + signed_decimal(shift) + decode_suffix(decode),
                caesar_spec(t, if decode { -shift } else { shift }),
            )
        },
        Command::Vigenere => if key.len() == 0 {
            RunView::Notice(" vig --key default"@)
        } else {
            RunView::Page("Vigenere"@, "key="@ + key + decode_suffix(decode), vigenere_spec(t, key, decode))
        },
        Command::Autokey => {
            let primer = flag_value(m, "primer"@, ""@);
            if primer.len() == 0 {
                RunView::Notice(""@)
            } else {
                RunView::Page(
                    "auto"@,
                    "primer="@ + primer + decode_suffix(decode),
                    autokey_spec(t, primer, decode),
                )
            }
        },
        Command::Beaufort => if key.len() == 0 {
            RunView::Notice(" b --key word"@)
        } else {
            RunView::Page("b"@, "key="@ + key, beaufort_spec(t, key))
        },
        Command::Substitute => RunView::Page(
            "sub"@,
            "key="@ + key_head(key) + "..."@ + decode_suffix(decode),
            substitute_spec(t, key, decode),
        ),
        Command::Keyword => if key.len() == 0 {
            RunView::Notice(" word --key word"@)
        } else {
            let alpha = keyword_alphabet(key);
            RunView::Page("kw"@, "kw="@ + key + " -> "@ + alpha, substitute_spec(t, alpha, decode))
        },
        Command::Transpose => if flag_value(m, "n"@, ""@).len() > 0 {
            let n = trans_columns(m);
            RunView::Page("trans"@, "n="@ + decimal(n as nat), transposition_spec(t, n))
        } else {
            let r = range_spec(m);
            RunView::Sweep(r.0, r.1)
        },
        _ => RunView::Notice(""@),
    }
}

/// The inputs on which a cipher command runs without panicking: `csr /decode`
/// cannot negate the least `i32` shift, `csr` adds its shift to each letter's
/// position in an `i32`, and `sub` cuts its key at a character boundary and
/// can write every decoded letter.
pub open spec fn run_ok(cmd: Command, m: Map<Seq<char>, Seq<char>>, t: Seq<char>) -> bool {
    let decode = m.contains_key("decode"@);
    let key = flag_value(m, "key"@, ""@);
    match cmd {
        Command::Caesar => {
            &&& decode ==> caesar_shift(m) != i32::MIN
            &&& caesar_fits(t, if decode { -caesar_shift(m) } else { caesar_shift(m) })
        },
        Command::Substitute => {
            &&& is_char_boundary(encode_utf8(key), key_head_bytes(encode_utf8(key).len() as int))
            &&& (decode && key_letters(key).len() >= 26 ==> substitute_decodable(t, key_letters(key)))
        },
        _ => true,
    }
}

/// Text without letters, or key letters forming a cipher alphabet, can always
/// be decoded.
proof fn lemma_alphabet_decodable(t: Seq<char>, kl: Seq<char>)
    requires
        is_alphabet_permutation(kl),
    ensures
        substitute_decodable(t, kl),
{
    assert forall|i: int| 0 <= i < t.len() && is_alpha(#[trigger] t[i]) implies (first_index(
        kl,
        to_lower(t[i]),
    ) matches Some(j) ==> j % 256 <= 158) by {
        crate::cipher::lemma_first_index(kl, to_lower(t[i]));
    }
}

/// The `sub` summary of a key: `key=`, its first four bytes, `...`, and
/// `, decode` when decoding.
fn sub_summary(key: &str, decode: bool) -> (r: String)
    requires
        is_char_boundary(encode_utf8(key@), key_head_bytes(encode_utf8(key@).len() as int)),
    ensures
        r@ == "key="@ + key_head(key@) + "..."@ + decode_suffix(decode),
{
    let blen: usize = key.as_bytes().len();
    let m: usize = if blen < 4 {
        blen
    } else {
        4
    };
    let (head, _rest) = key.split_at(m);
    proof {
        vstd::utf8::encode_utf8_decode_utf8(head@);
    }
    let mut out = String::from_str("key=");
    out.append(head);
    out.append("...");
    out.append(if decode { ", decode" } else { "" });
    out
}

/// Runs a cipher command on the working text `t` (see `run_spec`).
pub fn run_cipher(cmd: Command, f: &Flags, t: &str) -> (r: CipherRun)
    requires
        is_cipher_command(cmd),
        run_ok(cmd, f.flag_map(), t@),
    ensures
        r@ == run_spec(cmd, f.flag_map(), t@),
{
    let decode = f.flag_off("decode");
    let key = f.read_get("key", "");
    match cmd {
        Command::Caesar => {
            let shift = f.read_num("shift", 0);
            let output = use_caesar(t, if decode { -shift } else { shift });
            let mut summarize = String::from_str("shift=");
            push_signed_decimal(&mut summarize, shift);
            summarize.append(if decode { ", decode" } else { "" });
            CipherRun::Page { setcipher: String::from_str("Caesar"), summarize, output }
        },
        Command::Vigenere => {
            if key.is_empty() {
                CipherRun::Notice(String::from_str(" vig --key default"))
            } else {
                let output = use_vigenere(t, key, decode);
                let mut summarize = String::from_str("key=");
                summarize.append(key);
                summarize.append(if decode { ", decode" } else { "" });
                CipherRun::Page { setcipher: String::from_str("Vigenere"), summarize, output }
            }
        },
        Command::Autokey => {
            let primer = f.read_get("primer", "");
            if primer.is_empty() {
                CipherRun::Notice(String::from_str(""))
            } else {
                let output = use_autokey(t, primer, decode);
                let mut summarize = String::from_str("primer=");
                summarize.append(primer);
                summarize.append(if decode { ", decode" } else { "" });
                CipherRun::Page { setcipher: String::from_str("auto"), summarize, output }
            }
        },
        Command::Beaufort => {
            if key.is_empty() {
                CipherRun::Notice(String::from_str(" b --key word"))
            } else {
                let output = use_beaufort(t, key);
                let mut summarize = String::from_str("key=");
                summarize.append(key);
                CipherRun::Page { setcipher: String::from_str("b"), summarize, output }
            }
        },
        Command::Substitute => {
            let output = use_substitute(t, key, decode);
            let summarize = sub_summary(key, decode);
            CipherRun::Page { setcipher: String::from_str("sub"), summarize, output }
        },
        Command::Keyword => {
            if key.is_empty() {
                CipherRun::Notice(String::from_str(" word --key word"))
            } else {
                let alpha = set_kword_alpha(key);
                proof {
                    law_keyword_alphabet(key@);
                    lemma_alphabet_decodable(t@, keyword_alphabet(key@));
                }
                let output = use_substitute(t, alpha.as_str(), decode);
                let mut summarize = String::from_str("kw=");
                summarize.append(key);
                summarize.append(" -> ");
                summarize.append(alpha.as_str());
                CipherRun::Page { setcipher: String::from_str("kw"), summarize, output }
            }
        },
        _ => {
            if !f.read_get("n", "").is_empty() {
                let n: usize = match parse_usize_text(f.read_get("n", "2")) {
                    Some(x) => x,
                    None => 2,
                };
                let output = use_transposition(t, n);
                let mut summarize = String::from_str("n=");
                push_decimal(&mut summarize, n as u64);
                CipherRun::Page { setcipher: String::from_str("trans"), summarize, output }
            } else {
                let (from, to) = f.read_range();
                CipherRun::Sweep { from, to }
            }
        },
    }
}


/// Whether a cipher command can run on `t` with the flags of `f` (see
/// `run_ok`); where it cannot, the command would panic.
pub fn cipher_can_run(cmd: Command, f: &Flags, t: &str) -> (r: bool)
    ensures
        r == run_ok(cmd, f.flag_map(), t@),
{
    let decode = f.flag_off("decode");
    match cmd {
        Command::Caesar => {
            let shift = f.read_num("shift", 0);
            if decode && shift == i32::MIN {
                return false;
            }
            caesar_shift_fits(t, if decode { -shift } else { shift })
        },
        Command::Substitute => {
            let key = f.read_get("key", "");
            let blen: usize = key.as_bytes().len();
            let m: usize = if blen < 4 {
                blen
            } else {
                4
            };
            if !key.is_char_boundary(m) {
                return false;
            }
            let kl = key_letter_chars(key);
            if !decode || kl.len() < 26 {
                return true;
            }
            let mut ok = true;
            for c in it: t.chars()
                invariant
                    it.seq() == t@,
                    kl@ == key_letters(key@),
                    ok == forall|i: int|
                        0 <= i < it.index() && is_alpha(#[trigger] t@[i]) ==> (first_index(
                            kl@,
                            to_lower(t@[i]),
                        ) matches Some(j) ==> j % 256 <= 158),
            {
                let ghost i = it.index() as int;
                if ('A' <= c && c <= 'Z') || ('a' <= c && c <= 'z') {
                    match find_first(&kl, lower_of(c)) {
                        Some(j) => {
                            if j % 256 > 158 {
                                ok = false;
                            }
                        },
                        None => {},
                    }
                }
            }
            ok
        },
        _ => true,
    }
}

/// One row of a transposition sweep table: the column count, the start of
/// the input, and the output; rows whose output equals the input are dimmed
/// and marked `ident`.
pub open spec fn sweep_row_spec(t: Seq<char>, n: int) -> Seq<char> {
    let out = transposition_spec(t, n);
    let same = out == t;
    "<tr"@ + (if same { " style='opacity:.3'"@ } else { ""@ })
        + "><td style='color:var(--accent)'>n="@ + decimal(n as nat)
        + "</td><td style=color:var(--muted)'>"@ + escape_html(prefix_chars(t, 30))
        + "</td><td>"@ + escape_html(out) + (if same {
        " <span style='color:var(--muted);font-size:10px'>ident</span>"@
    } else {
        ""@
    }) + "</td></tr>"@
}

/// The sweep table rows for the column counts `from..upto`.
pub open spec fn sweep_rows_spec(t: Seq<char>, from: int, upto: int) -> Seq<char>
    decreases upto - from,
{
    if upto <= from {
        Seq::empty()
    } else {
        sweep_rows_spec(t, from, upto - 1) + sweep_row_spec(t, upto - 1)
    }
}

fn sweep_row(t: &str, n: usize) -> (r: String)
    ensures
        r@ == sweep_row_spec(t@, n as int),
{
    let out = use_transposition(t, n);
    let same = out == String::from_str(t);
    let mut row = String::from_str("<tr");
    row.append(if same { " style='opacity:.3'" } else { "" });
    row.append("><td style='color:var(--accent)'>n=");
    push_decimal(&mut row, n as u64);
    row.append("</td><td style=color:var(--muted)'>");
    row.append(escape_html_chars(preview(t, 30).as_str()).as_str());
    row.append("</td><td>");
    row.append(escape_html_chars(out.as_str()).as_str());
    row.append(if same { " <span style='color:var(--muted);font-size:10px'>ident</span>" } else { "" });
    row.append("</td></tr>");
    row
}

/// The table rows of a transposition sweep over `from..=to` columns.
pub fn sweep_rows(t: &str, from: usize, to: usize) -> (r: String)
    ensures
        r@ == sweep_rows_spec(t@, from as int, to + 1),
{
    let mut rows = String::new();
    if from > to {
        return rows;
    }
    let mut n: usize = from;
    loop
        invariant_except_break
            rows@ == sweep_rows_spec(t@, from as int, n as int),
        invariant
            from <= n <= to,
        ensures
            rows@ == sweep_rows_spec(t@, from as int, to + 1),
        decreases to - n,
    {
        let row = sweep_row(t, n);
        rows.append(row.as_str());
        assert(rows@ == sweep_rows_spec(t@, from as int, n + 1));
        if n == to {
            break;
        }
        n = n + 1;
    }
    rows
}

/// The summary of a sweep: `ranges=from..to`.
pub fn sweep_summary(from: usize, to: usize) -> (r: String)
    ensures
        r@ == "ranges="@ + decimal(from as nat) + ".."@ + decimal(to as nat),
{
    let mut s = String::from_str("ranges=");
    push_decimal(&mut s, from as u64);
    s.append("..");
    push_decimal(&mut s, to as u64);
    s
}

/// The file name of a sweep page when `count` pages have been written:
/// `t_range=`, the next page number in at least three digits, `.html`.
pub fn sweep_page_name(count: usize) -> (r: String)
    requires
        count < usize::MAX,
    ensures
        r@ == "t_range="@ + padded_decimal((count + 1) as nat, 3) + ".html"@,
{
    let mut s = String::from_str("t_range=");
    push_padded_decimal(&mut s, (count + 1) as u64, 3);
    s.append(".html");
    s
}

} // verus!
