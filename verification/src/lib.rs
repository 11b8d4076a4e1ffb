//! Classical ciphers on text, with the session logic of a small shell that
//! writes each run to an HTML page.
//!
//! - `cipher`: Caesar, Vigenère, autokey, Beaufort, substitution (with keyword
//!   alphabets) and columnar transposition, each specified over the text's
//!   characters.
//! - `cipher_laws`: what holds of the ciphers as a whole: non-letters pass
//!   through, decoding undoes encoding, transposition only rearranges.
//! - `text`: character and string helpers (white space, words, decimal
//!   numbers).
//! - `html`: escaping and the text of the result, error, sweep and index pages.
//! - `moment`: the session state and the command-line flags.
//! - `session`: the decisions of each command.
//! - `session_laws`: what the commands are for: each command word names its
//!   own command, and the cipher commands undo themselves with `/decode`.

use vstd::prelude::*;

pub mod cipher;
pub mod cipher_laws;
pub mod html;
pub mod moment;
pub mod session;
pub mod session_laws;
pub mod text;

verus! {

} // verus!
