# y3 tokenizer

A tokenizer that turns text into word tokens for spell checking, written in
Verus with its behaviour stated in contracts and proved.

- `src/text.rs`: Unicode character classes, UTF-8 byte lengths, cutting at
  whitespace, trimming symbols, cutting words at case changes.
- `src/patterns.rs`: the regular expressions (run by the `regex` crate) that
  decide which chunks are ignored, where joined words are cut (between the
  separator matches) and which parts are words.
- `src/tokenizer.rs`: `Position`, `Token` and `Tokenizer`; `tokenize_line`
  and `tokenize_lines` are specified exactly by `line_tokens` and
  `lines_tokens`.
- `src/laws.rs`: properties that hold for every input.
- `app/lib.rs`: reading a file line by line into a `Tokenizer`.
