use zephyr::html::{
    error_page, error_page_name, escape_html_chars, index_page, range_page, result_page,
    result_page_name, CSS,
};
use zephyr::moment::{Logger, Moment};

#[test]
fn escape_writes_entities() {
    assert_eq!(
        escape_html_chars("a<b>&c"),
        "a&lt;b&gt;&amp;c"
    );
}

#[test]
fn escape_matches_sequential_replacement() {
    let s = "<<&>> x & y";
    let expected = s
        .replace('&', "&amp;")
        .replace('<', "&lt;")
        .replace('>', "&gt;");
    assert_eq!(escape_html_chars(s), expected);
}

#[test]
fn escaped_text_cannot_hold_a_tag() {
    let out = escape_html_chars("<script>alert('&lt;')</script>");
    assert!(!out.contains('<') && !out.contains('>'));
    assert_eq!(out, "&lt;script&gt;alert('&amp;lt;')&lt;/script&gt;");
}

#[test]
fn escape_leaves_plain_text() {
    assert_eq!(escape_html_chars("plain text, ünï"), "plain text, ünï");
    assert_eq!(escape_html_chars(""), "");
}

#[test]
fn result_page_layout() {
    let page = result_page("Caesar", "shift=3", "a<b", "d<e");
    let expected = format!(
        "<!DOCTYPE html><html lang='en'><head><meta charset='UTF-8'><title>[Zephr1.0]</title>{CSS}</head></body>\
        <a href='index.html' class='back'> o index</a>\
        <h1>{print_cipher}</h1>\
        <div class='meta'>{print_summary}</div>
        <div class='block hi'><div class='label'>input</div>{input_esc}</div>\
        <div class='block out'><div class='label'>output</div>{output_esc}</div>\
        <footer>zephr .. {print_cipher} : {print_summary}</footer>\
        </body></html>",
        print_cipher = "Caesar",
        CSS = CSS,
        print_summary = "shift=3",
        input_esc = "a&lt;b",
        output_esc = "d&lt;e",
    );
    assert_eq!(page, expected);
}

#[test]
fn error_page_layout() {
    let page = error_page("read x.txt", "no such file & more");
    let expected = format!(
        "<!DOCTYPE html>
        <html lang='en'>
        <head><meta cahrset='UTF-8'>
        <title>error</title>{CSS}</head><body>
        <a href='index.html' class='back'>back</a>
        <h1 style='color:#ff6b6b'>error</h1>
        <div class='meta'>{ctx}</div>
        <div class='block' style='border-left:3px solid #ff6b6b'>
        <div class='label'>huh? </div>{msg}</div>
        <footer>error log</footer> </body></html>",
        CSS = CSS,
        ctx = "read x.txt",
        msg = "no such file &amp; more",
    );
    assert_eq!(page, expected);
}

fn entry(name: &str, cipher: &str, summary: &str, preview: &str) -> Logger {
    Logger {
        namefiles: name.to_string(),
        setcipher: cipher.to_string(),
        summarize: summary.to_string(),
        previewer: preview.to_string(),
    }
}

fn expected_index(log: &[Logger]) -> String {
    let rows: String = log
        .iter()
        .enumerate()
        .map(|(i, e)| {
            format!(
                "<tr><td>{n}</td><td>{c}</td><td>{s}</td><td>{p}</td><td><a href='{f}'>{f}</a></td></tr>",
                n = i + 1,
                c = escape_html_chars(&e.setcipher),
                s = escape_html_chars(&e.summarize),
                p = escape_html_chars(&e.previewer),
                f = escape_html_chars(&e.namefiles),
            )
        })
        .collect();
    let empty = if log.is_empty() {
        "<tr><td colspan='4' style='color:var(--muted);padding:.8rem'>null_string*09a</td></tr>"
    } else {
        ""
    };
    format!(
        "<!DOCTYPE html><html lang='en'><head><meta charset='UTF-8'><title>zephyr</title>{CSS}</head><body>\
        <h1>zephyr</h1>\
        <div class='meta'>{count} file{s} moment</div>\
        <table>\
        <thread><tr><th> # </th><th>ciphertext</th><th>params</th><th>input preview</th><th>file</th></tr></thread>\
        <tbody>{rows}{empty}</tbody>\
        </table>\
        <footer></footer>\
        </body></html>",
        CSS = CSS,
        count = log.len(),
        s = if log.len() == 1 { "" } else { "s" },
        rows = rows,
        empty = empty,
    )
}

#[test]
fn index_page_empty_log() {
    let log: Vec<Logger> = Vec::new();
    let page = index_page(&log);
    assert_eq!(page, expected_index(&log));
    assert!(page.contains("0 files moment"));
    assert!(page.contains("null_string*09a"));
}

#[test]
fn index_page_one_entry() {
    let log = vec![entry("caesar1.html", "Caesar", "shift=3", "hi <there>")];
    let page = index_page(&log);
    assert_eq!(page, expected_index(&log));
    assert!(page.contains("1 file moment"));
}

#[test]
fn index_page_many_entries() {
    let log = vec![
        entry("caesar1.html", "Caesar", "shift=3", "abc"),
        entry("null_001.html", "error", "read x", "missing"),
        entry("t_range=003.html", "trans", "ranges=1..3", "a&b"),
    ];
    let page = index_page(&log);
    assert_eq!(page, expected_index(&log));
    assert!(page.contains("<td>3</td>"));
}

#[test]
fn index_page_rebuilds_from_the_whole_log() {
    let mut m = Moment::new();
    m.record("a1.html".to_string(), "a", "s1", "input one");
    m.record("b1.html".to_string(), "b", "s2", "input two");
    assert_eq!(index_page(&m.log), expected_index(&m.log));
}

#[test]
fn range_page_layout() {
    let page = range_page("ranges=1..2", "a<b", "<tr>rows</tr>");
    let expected = format!(
        "<!DOCTYPE html><html lang='en'><head><meta charset='UTF-8'>\
        <title>transposer</title>{CSS}</head><body>\
        <a href='index.html' class='back'><- indexer</a>\
        <h1>transposer</h1>\
        <div class='meta'>{print_summary}</div>\
        <div class='block hi'><div class='label'>inputs</div>{input_esc}</div>\
        <table><thead><tr><th>n</th><th>input</th><th>output</th></tr></thead>\
        <tbody>{print_rows}</tbody></table>\
        <footer>zephr transposer {print_summary}</footer>\
        </body></html>",
        CSS = CSS,
        print_summary = "ranges=1..2",
        input_esc = "a&lt;b",
        print_rows = "<tr>rows</tr>",
    );
    assert_eq!(page, expected);
}

#[test]
fn error_page_names_are_zero_padded() {
    assert_eq!(error_page_name(1), "null_001.html");
    assert_eq!(error_page_name(42), "null_042.html");
    assert_eq!(error_page_name(1234), "null_1234.html");
}

#[test]
fn result_page_names_use_lowercase_slug() {
    assert_eq!(result_page_name("Caesar", 1), "caesar1.html");
    assert_eq!(result_page_name("My Cipher", 12), "my_cipher12.html");
    assert_eq!(result_page_name("ÄB C", 3), "äb_c3.html");
}
