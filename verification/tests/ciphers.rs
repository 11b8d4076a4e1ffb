use zephyr::cipher::{
    caesar_shift_fits,
    set_kword_alpha, use_autokey, use_beaufort, use_caesar, use_substitute, use_transposition,
    use_vigenere,
};

#[test]
fn caesar_shifts_letters_and_keeps_the_rest() {
    assert_eq!(use_caesar("Hello, World!", 3), "Khoor, Zruog!");
    assert_eq!(use_caesar("xyz XYZ", 3), "abc ABC");
}

#[test]
fn caesar_negative_and_large_shifts_wrap() {
    assert_eq!(use_caesar("abc", -1), "zab");
    assert_eq!(use_caesar("abc", 29), "def");
    assert_eq!(use_caesar("abc", -27), "zab");
    assert_eq!(use_caesar("Zz", i32::MAX - 25), "Xx");
    assert_eq!(use_caesar("Aa", i32::MAX), use_caesar("Aa", i32::MAX % 26));
    assert_eq!(use_caesar("Aa", i32::MIN), "Cc");
}

#[test]
fn caesar_shift_back_restores_text() {
    let t = "The quick brown fox, 123 ÆØ!";
    assert_eq!(use_caesar(&use_caesar(t, 11), -11), t);
}

#[test]
fn caesar_leaves_non_ascii_letters() {
    assert_eq!(use_caesar("é ß 9", 5), "é ß 9");
}

#[test]
fn vigenere_classic_example() {
    assert_eq!(use_vigenere("ATTACKATDAWN", "LEMON", false), "LXFOPVEFRNHR");
}

#[test]
fn vigenere_skips_non_letters_without_using_key() {
    assert_eq!(use_vigenere("attack at dawn", "lemon", false), "lxfopv ef rnhr");
    assert_eq!(use_vigenere("attack at dawn", "Le-Mon 7", false), "lxfopv ef rnhr");
}

#[test]
fn vigenere_decode_restores_text() {
    let t = "Attack at Dawn, 5pm!";
    let enc = use_vigenere(t, "lemon", false);
    assert_eq!(use_vigenere(&enc, "lemon", true), t);
    let dec = use_vigenere(t, "key", true);
    assert_eq!(use_vigenere(&dec, "key", false), t);
}

#[test]
fn vigenere_without_key_letters_is_identity() {
    assert_eq!(use_vigenere("Hello", "123 !", false), "Hello");
    assert_eq!(use_vigenere("Hello", "", true), "Hello");
}

#[test]
fn autokey_classic_example() {
    assert_eq!(use_autokey("ATTACKATDAWN", "QUEENLY", false), "QNXEPVYTWTWP");
}

#[test]
fn autokey_keeps_case_and_punctuation() {
    assert_eq!(use_autokey("Attack at dawn!", "queenly", false), "Qnxepv yt wtwp!");
}

#[test]
fn autokey_decode_restores_text() {
    let enc = use_autokey("Attack at dawn!", "queenly", false);
    assert_eq!(use_autokey(&enc, "queenly", true), "Attack at dawn!");
}

#[test]
fn autokey_without_primer_letters_is_identity() {
    assert_eq!(use_autokey("Hello", "42", false), "Hello");
}

#[test]
fn beaufort_example() {
    assert_eq!(use_beaufort("Hello, World", "fortune"), "Ykgig, Rqodo");
}

#[test]
fn beaufort_is_its_own_inverse() {
    let t = "Meet me at noon; bring 3 maps.";
    assert_eq!(use_beaufort(&use_beaufort(t, "Fortune"), "Fortune"), t);
}

#[test]
fn beaufort_without_key_letters_is_identity() {
    assert_eq!(use_beaufort("abc", "..."), "abc");
}

#[test]
fn substitute_encodes_with_case_flip() {
    let key = "QWERTYUIOPASDFGHJKLZXCVBNM";
    assert_eq!(use_substitute("Hello!", key, false), "iTSSG!");
}

#[test]
fn substitute_decode_restores_text() {
    let key = "qwertyuiopasdfghjklzxcvbnm";
    let t = "Hello, World 42";
    let enc = use_substitute(t, key, false);
    assert_eq!(use_substitute(&enc, key, true), t);
}

#[test]
fn substitute_short_key_reports_count() {
    assert_eq!(use_substitute("abc", "xyz", false), "null*y26 - use 26 letters! - only 3");
    assert_eq!(use_substitute("abc", "", true), "null*y26 - use 26 letters! - only 0");
    assert_eq!(
        use_substitute("abc", "abcdefghijklmnopqrstuvwxy", false),
        "null*y26 - use 26 letters! - only 25"
    );
}

#[test]
fn substitute_decode_of_missing_letter_keeps_it() {
    // A key of 26 letters that lacks `z`: decoding `z` keeps it (made capital).
    let key = "abcdefghijklmnopqrstuvwxyy";
    assert_eq!(use_substitute("z", key, true), "Z");
    assert_eq!(use_substitute("Z", key, true), "Z");
}

#[test]
fn substitute_decode_past_the_alphabet() {
    // `b` first occurs at position 26, which decodes to the character after `z`.
    let key = "aaaaaaaaaaaaaaaaaaaaaaaaaab";
    assert_eq!(use_substitute("B", key, true), "{");
}

#[test]
fn keyword_alphabet_puts_keyword_first() {
    assert_eq!(set_kword_alpha("zebra"), "zebracdfghijklmnopqstuvwxy");
    assert_eq!(set_kword_alpha("Hello World"), "helowrdabcfgijkmnpqstuvxyz");
}

#[test]
fn keyword_alphabet_without_letters_is_the_alphabet() {
    assert_eq!(set_kword_alpha(""), "abcdefghijklmnopqrstuvwxyz");
    assert_eq!(set_kword_alpha("123 !?"), "abcdefghijklmnopqrstuvwxyz");
}

#[test]
fn keyword_alphabet_roundtrips_substitution() {
    let alpha = set_kword_alpha("secret");
    assert_eq!(alpha.len(), 26);
    let t = "Keyword Cipher, 2024";
    let enc = use_substitute(t, &alpha, false);
    assert_eq!(use_substitute(&enc, &alpha, true), t);
}

#[test]
fn transposition_reads_columns() {
    assert_eq!(use_transposition("WEAREDISCOVERED", 3), "WRIOREESVEADCED");
    assert_eq!(use_transposition("abcdefg", 3), "adgbecf");
}

#[test]
fn transposition_more_columns_than_letters() {
    assert_eq!(use_transposition("hello", 10), "hello");
}

#[test]
fn transposition_trivial_cases() {
    assert_eq!(use_transposition("hello", 1), "hello");
    assert_eq!(use_transposition("hello", 0), "hello");
    assert_eq!(use_transposition("", 4), "");
}

#[test]
fn transposition_keeps_characters() {
    let t = "a longer message, with ünïcode";
    let out = use_transposition(t, 4);
    let mut a: Vec<char> = t.chars().collect();
    let mut b: Vec<char> = out.chars().collect();
    a.sort();
    b.sort();
    assert_eq!(a, b);
}

#[test]
fn caesar_shift_must_fit_each_letter() {
    assert!(caesar_shift_fits("Zz", i32::MAX - 25));
    assert!(!caesar_shift_fits("Zz", i32::MAX - 24));
    assert!(caesar_shift_fits("Aa", i32::MAX));
    assert!(!caesar_shift_fits("aB", i32::MAX));
    assert!(caesar_shift_fits("12 é", i32::MAX));
    assert!(caesar_shift_fits("xyz", i32::MIN));
}
