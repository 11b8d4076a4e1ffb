use zephyr::cipher::{
    set_kword_alpha, use_autokey, use_beaufort, use_caesar, use_substitute, use_transposition,
    use_vigenere,
};
use zephyr::html::escape_html_chars;
use zephyr::moment::Flags;

fn same_shape(text: &str, out: &str) -> bool {
    let a: Vec<char> = text.chars().collect();
    let b: Vec<char> = out.chars().collect();
    a.len() == b.len()
        && a.iter().zip(b.iter()).all(|(x, y)| {
            if x.is_ascii_alphabetic() {
                x.is_ascii_uppercase() == y.is_ascii_uppercase()
                    && x.is_ascii_lowercase() == y.is_ascii_lowercase()
            } else {
                x == y
            }
        })
}

#[test]
fn ciphers_pass_non_letters_through() {
    let t = "Hello, Wörld! 1-2-3 \t ok?";
    assert!(same_shape(t, &use_caesar(t, 7)));
    assert!(same_shape(t, &use_vigenere(t, "key", false)));
    assert!(same_shape(t, &use_vigenere(t, "key", true)));
    assert!(same_shape(t, &use_autokey(t, "primer", false)));
    assert!(same_shape(t, &use_autokey(t, "primer", true)));
    assert!(same_shape(t, &use_beaufort(t, "key")));
}

#[test]
fn substitution_keeps_non_letters_and_flips_case() {
    let t = "Ab, c!";
    let out = use_substitute(t, "mnbvcxzlkjhgfdsapoiuytrewq", false);
    assert_eq!(out, "mN, B!");
}

#[test]
fn decoding_undoes_encoding() {
    let t = "Round trip, with Punctuation & Digits 42.";
    assert_eq!(use_caesar(&use_caesar(t, -40), 40), t);
    assert_eq!(use_vigenere(&use_vigenere(t, "Vig", false), "Vig", true), t);
    assert_eq!(use_autokey(&use_autokey(t, "Auto", false), "Auto", true), t);
    assert_eq!(use_beaufort(&use_beaufort(t, "Beau"), "Beau"), t);
    let alpha = set_kword_alpha("Substitution");
    assert_eq!(use_substitute(&use_substitute(t, &alpha, false), &alpha, true), t);
}

#[test]
fn keyword_alphabet_is_a_permutation() {
    let alpha = set_kword_alpha("The Quick Brown Fox");
    let mut letters: Vec<char> = alpha.chars().collect();
    letters.sort();
    let expected: Vec<char> = ('a'..='z').collect();
    assert_eq!(letters, expected);
}

#[test]
fn transposition_keeps_length() {
    let t = "transposition keeps every character";
    for n in 0..12 {
        assert_eq!(use_transposition(t, n).chars().count(), t.chars().count());
    }
}

#[test]
fn escaping_works_piece_by_piece() {
    let a = "x<y";
    let b = "&z>";
    assert_eq!(
        escape_html_chars(&format!("{a}{b}")),
        format!("{}{}", escape_html_chars(a), escape_html_chars(b))
    );
}

#[test]
fn range_never_ends_before_it_starts() {
    let (from, to) = Flags::parser("trans /from 50 /to 3").read_range();
    assert!(from <= to);
    assert_eq!((from, to), (50, 50));
}

#[test]
fn caesar_shifts_add_up() {
    let t = "Shift me, Twice! xyz";
    assert_eq!(use_caesar(&use_caesar(t, 3), 5), use_caesar(t, 8));
    assert_eq!(use_caesar(&use_caesar(t, 30), -7), use_caesar(t, 23));
    assert_eq!(use_caesar(t, 0), t);
    assert_eq!(use_caesar(t, 26), t);
}

#[test]
fn one_letter_vigenere_key_is_a_caesar_shift() {
    let t = "Attack at Dawn!";
    assert_eq!(use_vigenere(t, "d", false), use_caesar(t, 3));
    assert_eq!(use_vigenere(t, "1-D-2", true), use_caesar(t, -3));
    assert_eq!(use_vigenere(t, "a", false), t);
}

#[test]
fn autokey_is_vigenere_while_the_primer_lasts() {
    let t = "Hi, there";
    assert_eq!(use_autokey(t, "lemonade", false), use_vigenere(t, "lemonade", false));
    assert_eq!(use_autokey(t, "lemonade", true), use_vigenere(t, "lemonade", true));
    assert_ne!(use_autokey("attack at dawn", "lemon", false), use_vigenere("attack at dawn", "lemon", false));
}

#[test]
fn encoding_undoes_decoding() {
    let t = "Any Text at all, even 'decoded' first.";
    assert_eq!(use_autokey(&use_autokey(t, "Auto", true), "Auto", false), t);
    assert_eq!(use_vigenere(&use_vigenere(t, "Vig", true), "Vig", false), t);
}

#[test]
fn substitution_round_trip_reads_only_the_first_26_key_letters() {
    let t = "Long Keys, Too.";
    let key = "qwertyuiopasdfghjklzxcvbnm-and-more";
    assert_eq!(use_substitute(&use_substitute(t, key, false), key, true), t);
}

#[test]
fn transposition_with_wide_rows_is_identity() {
    assert_eq!(use_transposition("abc", 3), "abc");
    assert_eq!(use_transposition("abc", 7), "abc");
    assert_eq!(use_transposition("abc", 1), "abc");
    assert_eq!(use_transposition("abcd", 3), "adbc");
}

#[test]
fn escaping_loses_nothing() {
    assert_ne!(escape_html_chars("&lt;"), escape_html_chars("<"));
    assert_ne!(escape_html_chars("&amp;"), escape_html_chars("&"));
    assert_eq!(escape_html_chars("&lt;"), "&amp;lt;");
}
