use zephyr::moment::{exceeds_read_limit, Flags, Moment, TextSource, FILE_READ_STOP};
use zephyr::session::{
    cipher_can_run, command_of, out_dir, read_path, run_cipher, show_preview,
    skip_line, sweep_page_name, sweep_rows, sweep_summary, CipherRun, Command,
};
use zephyr::text::{parse_i32_text, parse_usize_text, preview, split_words, trim_text};

#[test]
fn parser_reads_command_flags_and_words() {
    let f = Flags::parser("CSR hello /Shift 3 world /decode");
    assert_eq!(f.command, "csr");
    assert_eq!(f.read_get("shift", "x"), "3");
    assert_eq!(f.read_get("decode", "x"), "");
    assert!(f.flag_off("decode"));
    assert!(!f.flag_off("key"));
    assert_eq!(f.position, vec!["hello".to_string(), "world".to_string()]);
    assert_eq!(f.check_position(), "hello world");
}

#[test]
fn parser_flag_value_is_not_a_position_word() {
    let f = Flags::parser("csr this is a string of words /s 12");
    assert_eq!(f.check_position(), "this is a string of words");
    assert_eq!(f.read_get("s", ""), "12");
}

#[test]
fn parser_flag_followed_by_flag_gets_empty_value() {
    let f = Flags::parser("vig /decode /key lemon");
    assert_eq!(f.read_get("decode", "none"), "");
    assert_eq!(f.read_get("key", "none"), "lemon");
}

#[test]
fn parser_later_flag_wins() {
    let f = Flags::parser("x /k one /K two");
    assert_eq!(f.read_get("k", ""), "two");
}

#[test]
fn parser_empty_line() {
    let f = Flags::parser("   ");
    assert_eq!(f.command, "");
    assert!(f.position.is_empty());
    assert_eq!(f.check_position(), "");
}

#[test]
fn read_num_parses_or_falls_back() {
    let f = Flags::parser("csr /shift -7 /bad 12x /big 99999999999");
    assert_eq!(f.read_num("shift", 0), -7);
    assert_eq!(f.read_num("bad", 5), 5);
    assert_eq!(f.read_num("big", 1), 1);
    assert_eq!(f.read_num("missing", 9), 9);
}

#[test]
fn read_range_variants() {
    assert_eq!(Flags::parser("trans /range 5..10").read_range(), (5, 10));
    assert_eq!(Flags::parser("trans /range 10..5").read_range(), (10, 10));
    assert_eq!(Flags::parser("trans /range x..y").read_range(), (1, 999));
    assert_eq!(Flags::parser("trans /range 7").read_range(), (1, 999));
    assert_eq!(Flags::parser("trans /from 3").read_range(), (3, 999));
    assert_eq!(Flags::parser("trans /from 3 /to 4").read_range(), (3, 4));
    assert_eq!(Flags::parser("trans").read_range(), (1, 999));
    assert_eq!(Flags::parser("trans /r 2..5").read_range(), (2, 5));
    assert_eq!(Flags::parser("trans /range 3..6 /r 2..5").read_range(), (3, 6));
}

#[test]
fn text_source_priority() {
    let mut m = Moment::new();
    match zephyr::moment::text_source(&Flags::parser("csr /text hi /file a.txt words"), &m) {
        TextSource::Given(t) => assert_eq!(t, "hi"),
        _ => panic!("expected text"),
    }
    match zephyr::moment::text_source(&Flags::parser("csr /f a.txt words"), &m) {
        TextSource::ReadFile(p) => assert_eq!(p, "a.txt"),
        _ => panic!("expected file"),
    }
    match zephyr::moment::text_source(&Flags::parser("csr some words /shift 2"), &m) {
        TextSource::Given(t) => assert_eq!(t, "some words"),
        _ => panic!("expected words"),
    }
    match zephyr::moment::text_source(&Flags::parser("csr"), &m) {
        TextSource::Missing(e) => assert_eq!(e, "try: set --text message"),
        _ => panic!("expected missing"),
    }
    m.text = Some("stored".to_string());
    match zephyr::moment::text_source(&Flags::parser("csr"), &m) {
        TextSource::Given(t) => assert_eq!(t, "stored"),
        _ => panic!("expected stored"),
    }
}

#[test]
fn moment_starts_empty() {
    let m = Moment::new();
    assert!(m.text.is_none());
    assert_eq!(m.outdir, "output/html");
    assert!(m.log.is_empty());
}

#[test]
fn record_appends_with_preview() {
    let mut m = Moment::new();
    let long: String = std::iter::repeat('x').take(70).collect();
    m.record("f1.html".to_string(), "Caesar", "shift=1", &long);
    assert_eq!(m.log.len(), 1);
    assert_eq!(m.log[0].previewer.chars().count(), 60);
    assert_eq!(m.log[0].namefiles, "f1.html");
}

#[test]
fn read_limit() {
    assert_eq!(FILE_READ_STOP, 1024 * 1024);
    assert!(!exceeds_read_limit(1048576));
    assert!(exceeds_read_limit(1048577));
}

#[test]
fn commands_are_recognised() {
    assert!(matches!(command_of(&Flags::parser("HELP")), Command::Help));
    assert!(matches!(command_of(&Flags::parser("qq!")), Command::Quit));
    assert!(matches!(command_of(&Flags::parser("csr x")), Command::Caesar));
    assert!(matches!(command_of(&Flags::parser("trans")), Command::Transpose));
    assert!(matches!(command_of(&Flags::parser("nope")), Command::Unknown));
}

#[test]
fn lines_are_cleaned_and_skipped() {
    assert_eq!(trim_text("  csr x \t\n"), "csr x");
    assert!(skip_line(""));
    assert!(skip_line("# note"));
    assert!(!skip_line("csr"));
}

#[test]
fn read_path_prefers_position_words() {
    assert_eq!(read_path(&Flags::parser("read my notes.txt")), "my notes.txt");
    assert_eq!(read_path(&Flags::parser("read /file a.txt")), "a.txt");
    assert_eq!(read_path(&Flags::parser("read")), "");
}

#[test]
fn out_dir_needs_a_value() {
    assert_eq!(out_dir(&Flags::parser("out /dir pages")), Some("pages".to_string()));
    assert_eq!(out_dir(&Flags::parser("out")), None);
}

#[test]
fn show_preview_cuts_at_sixty() {
    let mut m = Moment::new();
    assert_eq!(show_preview(&m), "(null)");
    m.text = Some("short".to_string());
    assert_eq!(show_preview(&m), "short");
    let long: String = std::iter::repeat('a').take(61).collect();
    m.text = Some(long);
    let p = show_preview(&m);
    assert!(p.ends_with("..."));
    assert_eq!(p.chars().count(), 63);
}

fn page(r: CipherRun) -> (String, String, String) {
    match r {
        CipherRun::Page { setcipher, summarize, output } => (setcipher, summarize, output),
        _ => panic!("expected a page"),
    }
}

fn notice(r: CipherRun) -> String {
    match r {
        CipherRun::Notice(m) => m,
        _ => panic!("expected a notice"),
    }
}

#[test]
fn run_caesar() {
    let f = Flags::parser("csr /shift 3");
    assert!(cipher_can_run(Command::Caesar, &f, "abc"));
    let (c, s, o) = page(run_cipher(Command::Caesar, &f, "abc"));
    assert_eq!((c.as_str(), s.as_str(), o.as_str()), ("Caesar", "shift=3", "def"));
    let f = Flags::parser("csr /shift 3 /decode");
    let (_, s, o) = page(run_cipher(Command::Caesar, &f, "def"));
    assert_eq!((s.as_str(), o.as_str()), ("shift=3, decode", "abc"));
    let f = Flags::parser("csr /shift -2147483648 /decode");
    assert!(!cipher_can_run(Command::Caesar, &f, "abc"));
    let f = Flags::parser("csr /shift 2147483647");
    assert!(!cipher_can_run(Command::Caesar, &f, "abc"));
    assert!(cipher_can_run(Command::Caesar, &f, "a 1"));
    let f = Flags::parser("csr /shift -2147483647 /decode");
    assert!(cipher_can_run(Command::Caesar, &f, "a"));
    assert!(!cipher_can_run(Command::Caesar, &f, "z"));
    assert!(cipher_can_run(Command::Transpose, &Flags::parser("trans /n 18446744073709551615"), "abc"));
}

#[test]
fn run_keyed_ciphers() {
    let f = Flags::parser("vig /key lemon");
    let (c, s, o) = page(run_cipher(Command::Vigenere, &f, "attack"));
    assert_eq!((c.as_str(), s.as_str(), o.as_str()), ("Vigenere", "key=lemon", "lxfopv"));
    assert_eq!(notice(run_cipher(Command::Vigenere, &Flags::parser("vig"), "x")), " vig --key default");
    assert_eq!(notice(run_cipher(Command::Autokey, &Flags::parser("auto"), "x")), "");
    let (c, s, _) = page(run_cipher(Command::Autokey, &Flags::parser("auto /primer queenly /decode"), "x"));
    assert_eq!((c.as_str(), s.as_str()), ("auto", "primer=queenly, decode"));
    assert_eq!(notice(run_cipher(Command::Beaufort, &Flags::parser("bfort"), "x")), " b --key word");
    let (c, s, o) = page(run_cipher(Command::Beaufort, &Flags::parser("bfort /key fortune"), "Hello, World"));
    assert_eq!((c.as_str(), s.as_str(), o.as_str()), ("b", "key=fortune", "Ykgig, Rqodo"));
}

#[test]
fn run_substitution_commands() {
    let f = Flags::parser("sub /key qwertyuiopasdfghjklzxcvbnm");
    assert!(cipher_can_run(Command::Substitute, &f, "Hello"));
    let (c, s, o) = page(run_cipher(Command::Substitute, &f, "Hello"));
    assert_eq!((c.as_str(), s.as_str(), o.as_str()), ("sub", "key=qwer...", "iTSSG"));
    let f = Flags::parser("sub /key ab");
    let (_, s, o) = page(run_cipher(Command::Substitute, &f, "x"));
    assert_eq!((s.as_str(), o.as_str()), ("key=ab...", "null*y26 - use 26 letters! - only 2"));
    let f = Flags::parser("sub /key aéé");
    assert!(!cipher_can_run(Command::Substitute, &f, "x"));
    let f = Flags::parser("word /key zebra");
    let (c, s, o) = page(run_cipher(Command::Keyword, &f, "abc"));
    assert_eq!(
        (c.as_str(), s.as_str(), o.as_str()),
        ("kw", "kw=zebra -> zebracdfghijklmnopqstuvwxy", "ZEB")
    );
    assert_eq!(notice(run_cipher(Command::Keyword, &Flags::parser("word"), "x")), " word --key word");
}

#[test]
fn run_transposition_commands() {
    let f = Flags::parser("trans /n 3");
    let (c, s, o) = page(run_cipher(Command::Transpose, &f, "abcdefg"));
    assert_eq!((c.as_str(), s.as_str(), o.as_str()), ("trans", "n=3", "adgbecf"));
    let f = Flags::parser("trans /n zz");
    let (_, s, o) = page(run_cipher(Command::Transpose, &f, "abcd"));
    assert_eq!((s.as_str(), o.as_str()), ("n=2", "acbd"));
    match run_cipher(Command::Transpose, &Flags::parser("trans /range 2..4"), "abcd") {
        CipherRun::Sweep { from, to } => assert_eq!((from, to), (2, 4)),
        _ => panic!("expected a sweep"),
    }
}

#[test]
fn sweep_pieces() {
    let rows = sweep_rows("abcd", 1, 2);
    let expected = "<tr style='opacity:.3'><td style='color:var(--accent)'>n=1</td><td style=color:var(--muted)'>abcd</td><td>abcd <span style='color:var(--muted);font-size:10px'>ident</span></td></tr>\
<tr><td style='color:var(--accent)'>n=2</td><td style=color:var(--muted)'>abcd</td><td>acbd</td></tr>";
    assert_eq!(rows, expected);
    assert_eq!(sweep_rows("abcd", 3, 2), "");
    assert_eq!(sweep_summary(1, 999), "ranges=1..999");
    assert_eq!(sweep_page_name(2), "t_range=003.html");
}

#[test]
fn text_helpers() {
    assert_eq!(parse_i32_text("+12"), Some(12));
    assert_eq!(parse_i32_text("-2147483648"), Some(i32::MIN));
    assert_eq!(parse_i32_text("2147483648"), None);
    assert_eq!(parse_i32_text("-"), None);
    assert_eq!(parse_i32_text(""), None);
    assert_eq!(parse_usize_text("-1"), None);
    assert_eq!(parse_usize_text("+0042"), Some(42));
    assert_eq!(parse_usize_text("18446744073709551616"), None);
    assert_eq!(preview("héllo", 2), "hé");
    assert_eq!(trim_text("\u{3000} a b \u{85}"), "a b");
    assert_eq!(split_words(" a\tb  c\u{2003}d "), vec!["a", "b", "c", "d"]);
}
