# zephyr

Classical ciphers (Caesar, Vigenère, autokey, Beaufort, substitution with
keyword alphabets, columnar transposition) and the session logic of a small
command shell that writes every run to a self-contained HTML page and keeps an
index page of all runs.

- `src/` is the library, verified with Verus. Each cipher's contract gives its
  exact output over the text's characters; `src/cipher_laws.rs` proves what
  holds of the ciphers as a whole (non-letters pass through, decoding undoes
  encoding and encoding undoes decoding, Caesar shifts add up, a one-letter
  Vigenère key is a Caesar shift, autokey is Vigenère while its primer lasts,
  transposition only rearranges the text, keyword alphabets are permutations
  of the alphabet). `src/html.rs` proves that escaped text cannot open or
  close a tag and that escaping loses nothing.
- `app/` is the shell itself: reading lines, reading input files, writing the
  pages, printing.
- `tests/` runs the library on concrete values.
