# xmip_contract_toml

The TOML content contract, written in Verus.

A Stream held to the contract must be UTF-8 text that parses as TOML; a
contract bound to a layout also holds it to the keys and types the layout
names. The layout is itself a small TOML document: every leaf is a required
key, its value the name of a type (`string`, `integer`, `float`, `boolean`,
`table`, `array`, `datetime`), keys nested by dotted path.

Layout of the crate:

- `src/text.rs` — the operations on text the contract uses (trimming,
  finding a character, case-insensitive comparison, decimal numerals,
  counting lines and columns), each stated over the characters it reads.
- `src/contract.rs` — the vocabulary of content contracts: descriptors,
  Streams, issues, results and errors.
- `src/document.rs` — a TOML document as plain values (`Item`, `Table`),
  read from text by the `toml` crate.
- `src/layout.rs` — layouts: how one is read from its document, and the
  issues a document gives it; with the laws that relate the two.
- `src/lib.rs` — the contract itself (`Toml`), how a Stream is identified
  and validated, and the factory that binds layouts (`TomlFactory`).
- `app/lib.rs` — loading a contract from a reference: reading the layout
  file.
