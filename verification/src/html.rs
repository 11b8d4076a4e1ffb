use vstd::prelude::*;

use crate::moment::Logger;
use crate::text::{
    decimal, padded_decimal, push_char, push_decimal, push_padded_decimal, to_lowercase,
    unicode_lowercase,
};

verus! {

/// The style sheet inlined into every page, so each page stands on its own.
pub const CSS: &'static str = r#"
<style>
@import url('https://fonts.googleapis.com/css2?family=Google+Sans+Code:wght,MONO@0,300..800,1;1,300..800,1&display=swap');
:root {
    --bg: #03020a; --card: #0b081a; --border: #090072;
    --accent: #4e50c0; --gold: #c2ba4f; --muted: #001c29; --text: #eafaff;
}
* { box-sizing: border-box; margin: 0; padding: 0; }
body { background: var(--bg); color: var(--text); font-family: 'Google Sans Code', monospace;
        font-size: 14px; line-height: 1.7; padding: 2rem 2.5rem; }
a { color: var(--accent); text-decoration: none; }
a:hover { text-decoration: underline; }
h1 { color: var(--accent); font-size: 1.6rem; margin-bottom: .3rem; }
.meta { color: var(--muted); font-size: 12px; margin-bottom: 1.8rem; }
.block { background: var(--card); border: 1px solid var(--border); border-radius: 6px;
        padding: .8rem 1.1rem; margin-bottom: 1.2rem; word-break: break-all; }
.block .label { color: var(--muted); font-size: 11px; text-transform: uppercase;
                letter-spacing: .1em; margin-bottom: .35rem; }
.block.hi { border-left: 3px solid var(--accent); }
.block.out { border-left: 3px sold var(--gold); }
table { width: 100%; border-collapse: collapse; }
th { text-align: left; color: var(--muted); font-size: 10px; text-transform: uppercase;
    letter-spacing: .1em; padding: .4rem .7rem; border-bottom: 1px solid var(--border); }
tr { border-bottom: 1px solid #2c3948; }
tr:hover { background: var(--card); }
td { padding: .4rem .7rem; }
.back { display: inline-block; margin-bottom: 1.5rem; border: 1px solid var(--border);
        padding: 3px 10px; border-radius: 3px; font-size: 12px; color: var(--muted); }
.back:hover { color: var(--accent); border-color: var(--accent); }
footer { margin-top: 2.5rem; color: var(--border); font-size: 10px; border-top: 1px solid var(--border); padding-top: .8rem; }
</style>
"#;

/// What `escape_html_chars` writes for one character.
pub open spec fn escape_char(c: char) -> Seq<char> {
    if c == '&' {
        "&amp;"@
    } else if c == '<' {
        "&lt;"@
    } else if c == '>' {
        "&gt;"@
    } else {
        seq![c]
    }
}

/// `s` with each `&`, `<` and `>` written out as `escape_char` says.
pub open spec fn escape_html(s: Seq<char>) -> Seq<char>
    decreases s.len(),
{
    if s.len() == 0 {
        Seq::empty()
    } else {
        escape_html(s.drop_last()) + escape_char(s.last())
    }
}

/// Position `i` of `s` starts one of the entities `&amp;`, `&lt;`, `&gt;`.
pub open spec fn entity_at(s: Seq<char>, i: int) -> bool {
    ||| i + 5 <= s.len() && s.subrange(i, i + 5) == "&amp;"@
    ||| i + 4 <= s.len() && s.subrange(i, i + 4) == "&lt;"@
    ||| i + 4 <= s.len() && s.subrange(i, i + 4) == "&gt;"@
}

/// Escapes the characters `&`, `<` and `>` of `s` as the HTML entities
/// `&amp;`, `&lt;` and `&gt;`, so that cipher output placed in a page cannot
/// break it: the result holds no `<` or `>`, and every `&` in it starts one
/// of those entities. Every other character is copied.
pub fn escape_html_chars(s: &str) -> (r: String)
    ensures
        r@ == escape_html(s@),
        forall|i: int| 0 <= i < r@.len() ==> #[trigger] r@[i] != '<' && r@[i] != '>',
        forall|i: int| 0 <= i < r@.len() && #[trigger] r@[i] == '&' ==> entity_at(r@, i),
{
    let mut out = String::new();
    for c in it: s.chars()
        invariant
            it.seq() == s@,
            out@ == escape_html(s@.take(it.index() as int)),
    {
        let ghost i = it.index() as int;
        proof {
            assert(s@.take(i + 1).drop_last() =~= s@.take(i));
        }
        if c == '&' {
            out.append("&amp;");
        } else if c == '<' {
            out.append("&lt;");
        } else if c == '>' {
            out.append("&gt;");
        } else {
            push_char(&mut out, c);
        }
    }
    proof {
        assert(s@.take(s@.len() as int) =~= s@);
        law_escape_safe(s@);
    }
    out
}

/// The result page of one cipher run: the cipher, its parameters, the input and the output, each escaped.
pub open spec fn result_page_spec(setcipher: Seq<char>, summarize: Seq<char>, input: Seq<char>, output: Seq<char>) -> Seq<char> {
    "<!DOCTYPE html><html lang='en'><head><meta charset='UTF-8'><title>[Zephr1.0]</title>"@
        + CSS@
        + "</head></body><a href='index.html' class='back'> o index</a><h1>"@
        + escape_html(setcipher)
        + "</h1><div class='meta'>"@
        + escape_html(summarize)
        + "</div>\n        <div class='block hi'><div class='label'>input</div>"@
        + escape_html(input)
        + "</div><div class='block out'><div class='label'>output</div>"@
        + escape_html(output)
        + "</div><footer>zephr .. "@
        + escape_html(setcipher)
        + " : "@
        + escape_html(summarize)
        + "</footer></body></html>"@
}

/// Builds the result page of one cipher run (see `result_page_spec`).
pub fn result_page(setcipher: &str, summarize: &str, input: &str, output: &str) -> (r: String)
    ensures
        r@ == result_page_spec(setcipher@, summarize@, input@, output@),
{
    let c = escape_html_chars(setcipher);
    let s = escape_html_chars(summarize);
    let i = escape_html_chars(input);
    let o = escape_html_chars(output);
    let mut out = String::new();
    out.append("<!DOCTYPE html><html lang='en'><head><meta charset='UTF-8'><title>[Zephr1.0]</title>");
    out.append(CSS);
    out.append("</head></body><a href='index.html' class='back'> o index</a><h1>");
    out.append(c.as_str());
    out.append("</h1><div class='meta'>");
    out.append(s.as_str());
    out.append("</div>\n        <div class='block hi'><div class='label'>input</div>");
    out.append(i.as_str());
    out.append("</div><div class='block out'><div class='label'>output</div>");
    out.append(o.as_str());
    out.append("</div><footer>zephr .. ");
    out.append(c.as_str());
    out.append(" : ");
    out.append(s.as_str());
    out.append("</footer></body></html>");
    out
}

/// The error page: the context and the message, each escaped.
pub open spec fn error_page_spec(context: Seq<char>, message: Seq<char>) -> Seq<char> {
    "<!DOCTYPE html>\n        <html lang='en'>\n        <head><meta cahrset='UTF-8'>\n        <title>error</title>"@
        + CSS@
        + "</head><body>\n        <a href='index.html' class='back'>back</a>\n        <h1 style='color:#ff6b6b'>error</h1>\n        <div class='meta'>"@
        + escape_html(context)
        + "</div>\n        <div class='block' style='border-left:3px solid #ff6b6b'>\n        <div class='label'>huh? </div>"@
        + escape_html(message)
        + "</div>\n        <footer>error log</footer> </body></html>"@
}

/// Builds the error page (see `error_page_spec`).
pub fn error_page(context: &str, message: &str) -> (r: String)
    ensures
        r@ == error_page_spec(context@, message@),
{
    let c = escape_html_chars(context);
    let m = escape_html_chars(message);
    let mut out = String::new();
    out.append("<!DOCTYPE html>\n        <html lang='en'>\n        <head><meta cahrset='UTF-8'>\n        <title>error</title>");
    out.append(CSS);
    out.append("</head><body>\n        <a href='index.html' class='back'>back</a>\n        <h1 style='color:#ff6b6b'>error</h1>\n        <div class='meta'>");
    out.append(c.as_str());
    out.append("</div>\n        <div class='block' style='border-left:3px solid #ff6b6b'>\n        <div class='label'>huh? </div>");
    out.append(m.as_str());
    out.append("</div>\n        <footer>error log</footer> </body></html>");
    out
}

/// The page of a transposition sweep: its summary, the input, and the table rows.
pub open spec fn range_page_spec(summarize: Seq<char>, input: Seq<char>, rows: Seq<char>) -> Seq<char> {
    "<!DOCTYPE html><html lang='en'><head><meta charset='UTF-8'><title>transposer</title>"@
        + CSS@
        + "</head><body><a href='index.html' class='back'><- indexer</a><h1>transposer</h1><div class='meta'>"@
        + escape_html(summarize)
        + "</div><div class='block hi'><div class='label'>inputs</div>"@
        + escape_html(input)
        + "</div><table><thead><tr><th>n</th><th>input</th><th>output</th></tr></thead><tbody>"@
        + rows
        + "</tbody></table><footer>zephr transposer "@
        + escape_html(summarize)
        + "</footer></body></html>"@
}

/// Builds the page of a transposition sweep (see `range_page_spec`); `rows` is already markup.
pub fn range_page(summarize: &str, input: &str, rows: &str) -> (r: String)
    ensures
        r@ == range_page_spec(summarize@, input@, rows@),
{
    let s = escape_html_chars(summarize);
    let i = escape_html_chars(input);
    let mut out = String::new();
    out.append("<!DOCTYPE html><html lang='en'><head><meta charset='UTF-8'><title>transposer</title>");
    out.append(CSS);
    out.append("</head><body><a href='index.html' class='back'><- indexer</a><h1>transposer</h1><div class='meta'>");
    out.append(s.as_str());
    out.append("</div><div class='block hi'><div class='label'>inputs</div>");
    out.append(i.as_str());
    out.append("</div><table><thead><tr><th>n</th><th>input</th><th>output</th></tr></thead><tbody>");
    out.append(rows);
    out.append("</tbody></table><footer>zephr transposer ");
    out.append(s.as_str());
    out.append("</footer></body></html>");
    out
}

/// One row of the index page, for entry number `n` (counted from 1).
pub open spec fn index_row_spec(n: nat, e: Logger) -> Seq<char> {
    "<tr><td>"@ + decimal(n) + "</td><td>"@ + escape_html(e.setcipher@) + "</td><td>"@
        + escape_html(e.summarize@) + "</td><td>"@ + escape_html(e.previewer@)
        + "</td><td><a href='"@ + escape_html(e.namefiles@) + "'>"@ + escape_html(e.namefiles@)
        + "</a></td></tr>"@
}

/// The rows of the index page for the log entries `log`, in order.
pub open spec fn index_rows_spec(log: Seq<Logger>) -> Seq<char>
    decreases log.len(),
{
    if log.len() == 0 {
        Seq::empty()
    } else {
        index_rows_spec(log.drop_last()) + index_row_spec(log.len(), log.last())
    }
}

/// The index page: one row per page written, a count, and a placeholder row
/// when nothing has been written yet.
pub open spec fn index_page_spec(log: Seq<Logger>) -> Seq<char> {
    "<!DOCTYPE html><html lang='en'><head><meta charset='UTF-8'><title>zephyr</title>"@ + CSS@
        + "</head><body><h1>zephyr</h1><div class='meta'>"@ + decimal(log.len())
        + " file"@ + (if log.len() == 1 { ""@ } else { "s"@ })
        + " moment</div><table><thread><tr><th> # </th><th>ciphertext</th><th>params</th><th>input preview</th><th>file</th></tr></thread><tbody>"@
        + index_rows_spec(log) + (if log.len() == 0 {
        "<tr><td colspan='4' style='color:var(--muted);padding:.8rem'>null_string*09a</td></tr>"@
    } else {
        ""@
    }) + "</tbody></table><footer></footer></body></html>"@
}

/// Builds the index page for the session log (see `index_page_spec`).
pub fn index_page(log: &Vec<Logger>) -> (r: String)
    ensures
        r@ == index_page_spec(log@),
{
    let mut rows = String::new();
    let mut i: usize = 0;
    while i < log.len()
        invariant
            i <= log@.len(),
            rows@ == index_rows_spec(log@.take(i as int)),
        decreases log.len() - i,
    {
        let e = &log[i];
        rows.append("<tr><td>");
        push_decimal(&mut rows, (i + 1) as u64);
        rows.append("</td><td>");
        rows.append(escape_html_chars(e.setcipher.as_str()).as_str());
        rows.append("</td><td>");
        rows.append(escape_html_chars(e.summarize.as_str()).as_str());
        rows.append("</td><td>");
        rows.append(escape_html_chars(e.previewer.as_str()).as_str());
        rows.append("</td><td><a href='");
        let f = escape_html_chars(e.namefiles.as_str());
        rows.append(f.as_str());
        rows.append("'>");
        rows.append(f.as_str());
        rows.append("</a></td></tr>");
        proof {
            assert(log@.take(i + 1).drop_last() =~= log@.take(i as int));
        }
        i = i + 1;
    }
    proof {
        assert(log@.take(log@.len() as int) =~= log@);
    }
    let mut out = String::new();
    out.append("<!DOCTYPE html><html lang='en'><head><meta charset='UTF-8'><title>zephyr</title>");
    out.append(CSS);
    out.append("</head><body><h1>zephyr</h1><div class='meta'>");
    push_decimal(&mut out, log.len() as u64);
    out.append(" file");
    out.append(if log.len() == 1 { "" } else { "s" });
    out.append(" moment</div><table><thread><tr><th> # </th><th>ciphertext</th><th>params</th><th>input preview</th><th>file</th></tr></thread><tbody>");
    out.append(rows.as_str());
    out.append(if log.len() == 0 {
        "<tr><td colspan='4' style='color:var(--muted);padding:.8rem'>null_string*09a</td></tr>"
    } else {
        ""
    });
    out.append("</tbody></table><footer></footer></body></html>");
    out
}

/// The name of the `n`-th error page: `null_` and `n` in at least three
/// digits, then `.html`.
pub open spec fn error_page_name_spec(n: nat) -> Seq<char> {
    "null_"@ + padded_decimal(n, 3) + ".html"@
}

/// Names the `n`-th error page, as `format!("null_{n:03}.html")` does.
pub fn error_page_name(n: u32) -> (r: String)
    ensures
        r@ == error_page_name_spec(n as nat),
{
    let mut out = String::from_str("null_");
    push_padded_decimal(&mut out, n as u64, 3);
    out.append(".html");
    out
}

/// `s` with every space replaced by an underscore.
pub open spec fn underscore_spaces(s: Seq<char>) -> Seq<char> {
    s.map_values(|c: char| if c == ' ' { '_' } else { c })
}

/// The name of the `n`-th result page of a cipher whose lowercased name is
/// `lower`: its spaces made underscores, then `n`, then `.html`.
pub open spec fn result_page_name_spec(lower: Seq<char>, n: nat) -> Seq<char> {
    underscore_spaces(lower) + decimal(n) + ".html"@
}

/// Names the `n`-th result page from the cipher name already lowercased.
pub fn result_page_name_of_lower(lower: &str, n: u32) -> (r: String)
    ensures
        r@ == result_page_name_spec(lower@, n as nat),
{
    let mut out = String::new();
    for c in it: lower.chars()
        invariant
            it.seq() == lower@,
            out@ == underscore_spaces(lower@.take(it.index() as int)),
    {
        push_char(&mut out, if c == ' ' { '_' } else { c });
        proof {
            assert(out@ =~= underscore_spaces(lower@.take(it.index() + 1)));
        }
    }
    proof {
        assert(lower@.take(lower@.len() as int) =~= lower@);
    }
    push_decimal(&mut out, n as u64);
    out.append(".html");
    out
}

/// Names the `n`-th result page of the cipher `setcipher`: its Unicode
/// lowercase with spaces made underscores, then `n`, then `.html`.
pub fn result_page_name(setcipher: &str, n: u32) -> (r: String)
    ensures
        r@ == result_page_name_spec(unicode_lowercase(setcipher@), n as nat),
{
    let lower = to_lowercase(setcipher);
    result_page_name_of_lower(lower.as_str(), n)
}


/// Escaping a concatenation escapes each part: escaping works character by
/// character.
pub proof fn law_escape_concat(a: Seq<char>, b: Seq<char>)
    ensures
        escape_html(a + b) == escape_html(a) + escape_html(b),
    decreases b.len(),
{
    if b.len() == 0 {
        assert(a + b =~= a);
        assert(escape_html(a) + escape_html(b) =~= escape_html(a));
    } else {
        law_escape_concat(a, b.drop_last());
        assert((a + b).drop_last() =~= a + b.drop_last());
        assert((a + b).last() == b.last());
        assert(escape_html(a) + escape_html(b) =~= escape_html(a) + escape_html(b.drop_last())
            + escape_char(b.last()));
    }
}

/// Text without `&`, `<` or `>` passes through escaping unchanged.
pub proof fn law_escape_plain(s: Seq<char>)
    requires
        forall|i: int| 0 <= i < s.len() ==> #[trigger] s[i] != '&' && s[i] != '<' && s[i] != '>',
    ensures
        escape_html(s) == s,
    decreases s.len(),
{
    if s.len() > 0 {
        law_escape_plain(s.drop_last());
        assert(s.drop_last().push(s.last()) =~= s);
    }
}


/// Escaped text holds no `<` or `>`, and each `&` in it begins one of the
/// entities `&amp;`, `&lt;` or `&gt;`: cipher output cannot open or close a
/// tag in the page.
pub proof fn law_escape_safe(s: Seq<char>)
    ensures
        forall|i: int|
            0 <= i < escape_html(s).len() ==> #[trigger] escape_html(s)[i] != '<' && escape_html(s)[i]
                != '>',
        forall|i: int|
            0 <= i < escape_html(s).len() && #[trigger] escape_html(s)[i] == '&' ==> entity_at(
                escape_html(s),
                i,
            ),
    decreases s.len(),
{
    reveal_strlit("&amp;");
    reveal_strlit("&lt;");
    reveal_strlit("&gt;");
    if s.len() > 0 {
        let p = escape_html(s.drop_last());
        let e = escape_char(s.last());
        let out = escape_html(s);
        law_escape_safe(s.drop_last());
        assert(out == p + e);
        assert forall|i: int| 0 <= i < out.len() implies #[trigger] out[i] != '<' && out[i] != '>' by {
            if i < p.len() {
                assert(out[i] == p[i]);
            } else {
                assert(out[i] == e[i - p.len()]);
            }
        }
        assert forall|i: int| 0 <= i < out.len() && #[trigger] out[i] == '&' implies {
            ||| i + 5 <= out.len() && out.subrange(i, i + 5) == "&amp;"@
            ||| i + 4 <= out.len() && out.subrange(i, i + 4) == "&lt;"@
            ||| i + 4 <= out.len() && out.subrange(i, i + 4) == "&gt;"@
        } by {
            if i < p.len() {
                assert(out[i] == p[i]);
                if i + 5 <= p.len() && p.subrange(i, i + 5) == "&amp;"@ {
                    assert(out.subrange(i, i + 5) =~= p.subrange(i, i + 5));
                } else if i + 4 <= p.len() && p.subrange(i, i + 4) == "&lt;"@ {
                    assert(out.subrange(i, i + 4) =~= p.subrange(i, i + 4));
                } else {
                    assert(out.subrange(i, i + 4) =~= p.subrange(i, i + 4));
                }
            } else {
                assert(out[i] == e[i - p.len()]);
                assert(i == p.len());
                if s.last() == '&' {
                    assert(out.subrange(i, i + 5) =~= e);
                } else if s.last() == '<' {
                    assert(out.subrange(i, i + 4) =~= e);
                } else {
                    assert(out.subrange(i, i + 4) =~= e);
                }
            }
        }
    }
}

/// Reads escaped text back: each `&amp;`, `&lt;` or `&gt;` becomes the
/// character it stands for, every other character stays.
pub open spec fn unescape_html(s: Seq<char>) -> Seq<char>
    decreases s.len(),
{
    if s.len() == 0 {
        Seq::empty()
    } else if s.len() >= 5 && s.take(5) == "&amp;"@ {
        seq!['&'] + unescape_html(s.skip(5))
    } else if s.len() >= 4 && s.take(4) == "&lt;"@ {
        seq!['<'] + unescape_html(s.skip(4))
    } else if s.len() >= 4 && s.take(4) == "&gt;"@ {
        seq!['>'] + unescape_html(s.skip(4))
    } else {
        seq![s[0]] + unescape_html(s.skip(1))
    }
}

/// Unescaping gives back the text that was escaped.
proof fn lemma_unescape_escape(a: Seq<char>)
    ensures
        unescape_html(escape_html(a)) == a,
    decreases a.len(),
{
    reveal_strlit("&amp;");
    reveal_strlit("&lt;");
    reveal_strlit("&gt;");
    if a.len() > 0 {
        let a0 = a[0];
        let rest = a.drop_first();
        assert(a =~= seq![a0] + rest);
        law_escape_concat(seq![a0], rest);
        assert(seq![a0].drop_last() =~= Seq::<char>::empty());
        assert(seq![a0].last() == a0);
        assert(escape_html(Seq::<char>::empty()) == Seq::<char>::empty());
        assert(escape_html(seq![a0]) == escape_html(Seq::<char>::empty()) + escape_char(a0));
        assert(escape_html(seq![a0]) =~= escape_char(a0));
        let e = escape_char(a0);
        let r = escape_html(rest);
        let s = e + r;
        lemma_unescape_escape(rest);
        if a0 == '&' {
            assert(s.take(5) =~= e);
            assert(s.skip(5) =~= r);
        } else if a0 == '<' {
            if s.len() >= 5 {
                assert(s.take(5)[1] == 'l');
            }
            assert(s.take(4) =~= e);
            assert(s.skip(4) =~= r);
        } else if a0 == '>' {
            if s.len() >= 5 {
                assert(s.take(5)[1] == 'g');
            }
            assert(s.take(4)[1] == 'g');
            assert(s.take(4) =~= e);
            assert(s.skip(4) =~= r);
        } else {
            assert(s[0] == a0);
            if s.len() >= 5 {
                assert(s.take(5)[0] == a0);
            }
            if s.len() >= 4 {
                assert(s.take(4)[0] == a0);
            }
            assert(s.skip(1) =~= r);
        }
        assert(seq![a0] + rest =~= a);
    }
}

/// Escaping loses nothing: different texts escape differently, so a page
/// shows exactly the text that was put into it.
pub proof fn law_escape_injective(a: Seq<char>, b: Seq<char>)
    requires
        escape_html(a) == escape_html(b),
    ensures
        a == b,
{
    lemma_unescape_escape(a);
    lemma_unescape_escape(b);
}

} // verus!
