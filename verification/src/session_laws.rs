use vstd::prelude::*;

use crate::cipher::{key_letters, keyword_alphabet, letter_values};
use crate::cipher_laws::{
    is_alphabet_permutation, law_autokey_decode_inverse, law_autokey_inverse, law_beaufort_involution,
    law_caesar_inverse, law_keyword_alphabet, law_substitute_inverse, law_vigenere_inverse,
};
use crate::moment::flag_value;
use crate::session::{command_spec, run_spec, Command, RunView};

verus! {

/// The command words of the shell.
pub open spec fn command_words() -> Seq<Seq<char>> {
    seq![
        "help"@, "qq!"@, "debug"@, "read"@, "set"@, "show"@, "out"@, "csr"@, "vig"@, "auto"@,
        "bfort"@, "sub"@, "word"@, "trans"@,
    ]
}

/// The position of a command in the shell's list of commands (the list of
/// `command_words`); `Unknown` is past its end.
pub open spec fn command_rank(c: Command) -> int {
    match c {
        Command::Help => 0,
        Command::Quit => 1,
        Command::Debug => 2,
        Command::Read => 3,
        Command::SetText => 4,
        Command::Show => 5,
        Command::Out => 6,
        Command::Caesar => 7,
        Command::Vigenere => 8,
        Command::Autokey => 9,
        Command::Beaufort => 10,
        Command::Substitute => 11,
        Command::Keyword => 12,
        Command::Transpose => 13,
        Command::Unknown => 14,
    }
}


/// Each command word names its own command and no two words name the same
/// one: word number `i` of `command_words` names the command of rank `i`, so
/// `csr` is Caesar, `vig` Vigenère, `auto` autokey, `bfort` Beaufort, `sub`
/// substitution, `word` the keyword alphabet and `trans` transposition; any
/// other word is unknown.
pub proof fn law_command_words(w: Seq<char>)
    ensures
        forall|i: int| 0 <= i < 14 ==> command_rank(#[trigger] command_spec(command_words()[i])) == i,
        forall|i: int, j: int|
            0 <= i < 14 && 0 <= j < 14 && i != j ==> #[trigger] command_spec(command_words()[i])
                != #[trigger] command_spec(command_words()[j]),
        !command_words().contains(w) ==> command_spec(w) == Command::Unknown,
{
    reveal_strlit("help");
    reveal_strlit("qq!");
    reveal_strlit("debug");
    reveal_strlit("read");
    reveal_strlit("set");
    reveal_strlit("show");
    reveal_strlit("out");
    reveal_strlit("csr");
    reveal_strlit("vig");
    reveal_strlit("auto");
    reveal_strlit("bfort");
    reveal_strlit("sub");
    reveal_strlit("word");
    reveal_strlit("trans");
    assert("read"@[0] != "help"@[0]);
    assert("set"@[0] != "qq!"@[0]);
    assert("show"@[0] != "help"@[0]);
    assert("show"@[0] != "read"@[0]);
    assert("out"@[0] != "qq!"@[0]);
    assert("out"@[0] != "set"@[0]);
    assert("csr"@[0] != "qq!"@[0]);
    assert("csr"@[0] != "set"@[0]);
    assert("csr"@[0] != "out"@[0]);
    assert("vig"@[0] != "qq!"@[0]);
    assert("vig"@[0] != "set"@[0]);
    assert("vig"@[0] != "out"@[0]);
    assert("vig"@[0] != "csr"@[0]);
    assert("auto"@[0] != "help"@[0]);
    assert("auto"@[0] != "read"@[0]);
    assert("auto"@[0] != "show"@[0]);
    assert("bfort"@[0] != "debug"@[0]);
    assert("sub"@[0] != "qq!"@[0]);
    assert("sub"@[1] != "set"@[1]);
    assert("sub"@[0] != "out"@[0]);
    assert("sub"@[0] != "csr"@[0]);
    assert("sub"@[0] != "vig"@[0]);
    assert("word"@[0] != "help"@[0]);
    assert("word"@[0] != "read"@[0]);
    assert("word"@[0] != "show"@[0]);
    assert("word"@[0] != "auto"@[0]);
    assert("trans"@[0] != "debug"@[0]);
    assert("trans"@[0] != "bfort"@[0]);
    let ws = command_words();
    assert(ws[0] == "help"@);
    assert(ws[1] == "qq!"@);
    assert(ws[2] == "debug"@);
    assert(ws[3] == "read"@);
    assert(ws[4] == "set"@);
    assert(ws[5] == "show"@);
    assert(ws[6] == "out"@);
    assert(ws[7] == "csr"@);
    assert(ws[8] == "vig"@);
    assert(ws[9] == "auto"@);
    assert(ws[10] == "bfort"@);
    assert(ws[11] == "sub"@);
    assert(ws[12] == "word"@);
    assert(ws[13] == "trans"@);
    assert(command_spec(ws[0]) == Command::Help);
    assert(command_spec(ws[1]) == Command::Quit);
    assert(command_spec(ws[2]) == Command::Debug);
    assert(command_spec(ws[3]) == Command::Read);
    assert(command_spec(ws[4]) == Command::SetText);
    assert(command_spec(ws[5]) == Command::Show);
    assert(command_spec(ws[6]) == Command::Out);
    assert(command_spec(ws[7]) == Command::Caesar);
    assert(command_spec(ws[8]) == Command::Vigenere);
    assert(command_spec(ws[9]) == Command::Autokey);
    assert(command_spec(ws[10]) == Command::Beaufort);
    assert(command_spec(ws[11]) == Command::Substitute);
    assert(command_spec(ws[12]) == Command::Keyword);
    assert(command_spec(ws[13]) == Command::Transpose);
    assert forall|i: int| 0 <= i < 14 implies command_rank(#[trigger] command_spec(ws[i])) == i by {
        if i == 0 {} else if i == 1 {} else if i == 2 {} else if i == 3 {} else if i == 4 {}
        else if i == 5 {} else if i == 6 {} else if i == 7 {} else if i == 8 {} else if i == 9 {}
        else if i == 10 {} else if i == 11 {} else if i == 12 {} else {}
    }
    assert forall|i: int, j: int|
        0 <= i < 14 && 0 <= j < 14 && i != j implies #[trigger] command_spec(ws[i])
            != #[trigger] command_spec(ws[j]) by {
        assert(command_rank(command_spec(ws[i])) == i);
        assert(command_rank(command_spec(ws[j])) == j);
    }
    if !ws.contains(w) {
        assert(w != ws[0] && w != ws[1] && w != ws[2] && w != ws[3] && w != ws[4] && w != ws[5]
            && w != ws[6] && w != ws[7] && w != ws[8] && w != ws[9] && w != ws[10] && w != ws[11]
            && w != ws[12] && w != ws[13]);
    }
}

/// The command named by the word at `i` of `command_words`.
proof fn lemma_word_names(i: int, c: Command)
    requires
        0 <= i < 14,
        command_rank(c) == i,
    ensures
        command_spec(command_words()[i]) == c,
{
    law_command_words(command_words()[i]);
}

/// `csr` with `/decode` undoes `csr` with the same shift, and the other way
/// round.
pub proof fn law_caesar_command_round_trip(m: Map<Seq<char>, Seq<char>>, t: Seq<char>, d: Seq<char>)
    requires
        !m.contains_key("decode"@),
    ensures
        ({
            let cmd = command_spec("csr"@);
            let md = m.insert("decode"@, d);
            &&& run_spec(cmd, m, t) is Page
            &&& run_spec(cmd, md, t) is Page
            &&& run_spec(cmd, md, run_spec(cmd, m, t)->2)->2 == t
            &&& run_spec(cmd, m, run_spec(cmd, md, t)->2)->2 == t
        }),
{
    lemma_word_names(7, Command::Caesar);
    assert(command_words()[7] == "csr"@);
    reveal_strlit("decode");
    reveal_strlit("shift");
    assert("shift"@.len() != "decode"@.len());
    let md = m.insert("decode"@, d);
    let s = crate::session::caesar_shift(m);
    assert(crate::session::caesar_shift(md) == s);
    law_caesar_inverse(t, s);
    law_caesar_inverse(t, -s);
}

/// `vig` with `/decode` undoes `vig` with the same key, and the other way
/// round.
pub proof fn law_vigenere_command_round_trip(m: Map<Seq<char>, Seq<char>>, t: Seq<char>, d: Seq<char>)
    requires
        !m.contains_key("decode"@),
        flag_value(m, "key"@, ""@).len() > 0,
    ensures
        ({
            let cmd = command_spec("vig"@);
            let md = m.insert("decode"@, d);
            &&& run_spec(cmd, m, t) is Page
            &&& run_spec(cmd, md, t) is Page
            &&& run_spec(cmd, md, run_spec(cmd, m, t)->2)->2 == t
            &&& run_spec(cmd, m, run_spec(cmd, md, t)->2)->2 == t
        }),
{
    lemma_word_names(8, Command::Vigenere);
    assert(command_words()[8] == "vig"@);
    reveal_strlit("decode");
    reveal_strlit("key");
    assert("key"@.len() != "decode"@.len());
    let md = m.insert("decode"@, d);
    assert(flag_value(md, "key"@, ""@) == flag_value(m, "key"@, ""@));
    law_vigenere_inverse(t, flag_value(m, "key"@, ""@));
}

/// `auto` with `/decode` undoes `auto` with the same primer, and the other
/// way round.
pub proof fn law_autokey_command_round_trip(m: Map<Seq<char>, Seq<char>>, t: Seq<char>, d: Seq<char>)
    requires
        !m.contains_key("decode"@),
        flag_value(m, "primer"@, ""@).len() > 0,
    ensures
        ({
            let cmd = command_spec("auto"@);
            let md = m.insert("decode"@, d);
            &&& run_spec(cmd, m, t) is Page
            &&& run_spec(cmd, md, t) is Page
            &&& run_spec(cmd, md, run_spec(cmd, m, t)->2)->2 == t
            &&& run_spec(cmd, m, run_spec(cmd, md, t)->2)->2 == t
        }),
{
    lemma_word_names(9, Command::Autokey);
    assert(command_words()[9] == "auto"@);
    reveal_strlit("decode");
    reveal_strlit("primer");
    assert("primer"@[0] != "decode"@[0]);
    let md = m.insert("decode"@, d);
    let p = flag_value(m, "primer"@, ""@);
    assert(flag_value(md, "primer"@, ""@) == p);
    law_autokey_inverse(t, p);
    law_autokey_decode_inverse(t, p);
}

/// `bfort` run twice with the same key gives the text back.
pub proof fn law_beaufort_command_twice(m: Map<Seq<char>, Seq<char>>, t: Seq<char>)
    requires
        flag_value(m, "key"@, ""@).len() > 0,
    ensures
        ({
            let cmd = command_spec("bfort"@);
            &&& run_spec(cmd, m, t) is Page
            &&& run_spec(cmd, m, run_spec(cmd, m, t)->2)->2 == t
        }),
{
    lemma_word_names(10, Command::Beaufort);
    assert(command_words()[10] == "bfort"@);
    law_beaufort_involution(t, flag_value(m, "key"@, ""@));
}

/// `sub` with `/decode` undoes `sub` with the same key, when the key's first
/// 26 letters form a cipher alphabet.
pub proof fn law_substitute_command_round_trip(m: Map<Seq<char>, Seq<char>>, t: Seq<char>, d: Seq<char>)
    requires
        !m.contains_key("decode"@),
        key_letters(flag_value(m, "key"@, ""@)).len() >= 26,
        is_alphabet_permutation(key_letters(flag_value(m, "key"@, ""@)).take(26)),
    ensures
        ({
            let cmd = command_spec("sub"@);
            let md = m.insert("decode"@, d);
            &&& run_spec(cmd, m, t) is Page
            &&& run_spec(cmd, md, run_spec(cmd, m, t)->2)->2 == t
        }),
{
    lemma_word_names(11, Command::Substitute);
    assert(command_words()[11] == "sub"@);
    reveal_strlit("decode");
    reveal_strlit("key");
    assert("key"@.len() != "decode"@.len());
    let md = m.insert("decode"@, d);
    assert(flag_value(md, "key"@, ""@) == flag_value(m, "key"@, ""@));
    law_substitute_inverse(t, flag_value(m, "key"@, ""@));
}

/// `word` with `/decode` undoes `word` with the same keyword.
pub proof fn law_keyword_command_round_trip(m: Map<Seq<char>, Seq<char>>, t: Seq<char>, d: Seq<char>)
    requires
        !m.contains_key("decode"@),
        flag_value(m, "key"@, ""@).len() > 0,
    ensures
        ({
            let cmd = command_spec("word"@);
            let md = m.insert("decode"@, d);
            &&& run_spec(cmd, m, t) is Page
            &&& run_spec(cmd, md, run_spec(cmd, m, t)->2)->2 == t
        }),
{
    lemma_word_names(12, Command::Keyword);
    assert(command_words()[12] == "word"@);
    reveal_strlit("decode");
    reveal_strlit("key");
    assert("key"@.len() != "decode"@.len());
    let md = m.insert("decode"@, d);
    let k = flag_value(m, "key"@, ""@);
    assert(flag_value(md, "key"@, ""@) == k);
    let alpha = keyword_alphabet(k);
    law_keyword_alphabet(k);
    assert(key_letters(alpha).take(26) =~= key_letters(alpha));
    law_substitute_inverse(t, alpha);
}

} // verus!
