# nscript

The string, array, encoding, timer and encryption functions of the Nscript
scripting language, written in Verus and proved against their contracts.

Layout:

- `src/text.rs`: the model of text (sequences of `char`), pattern search,
  splitting and joining, with the lemmas that relate them.
- `src/order.rs`: the code-point order of texts and insertion sort.
- `src/nstring.rs`: `Nstring`, the string functions.
- `src/arrays.rs`: Nscript arrays, texts whose entries stand between
  occurrences of `]].n.c.arr.[[`.
- `src/functions.rs`: Base64 and hexadecimal texts, number parsing and
  printing, the timer, and the reports of file and program operations.
- `src/encryption.rs`: passphrase encryption (PBKDF2-HMAC-SHA256,
  AES-256-CBC with PKCS#7 padding, Base64).
- `src/bindings.rs`: the calls into `base64`, `hex`, `encoding_rs`, `rand`,
  `chrono` and `rust-crypto`, whose contracts are trusted.
- `src/laws.rs`: properties that relate the functions to each other.
- `app/lib.rs`: file, terminal and process I/O and the floating-point
  functions, on top of the library.
