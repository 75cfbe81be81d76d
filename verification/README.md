# turbo-parsepdf-core

A PDF parser whose byte-level logic is proved with Verus: lexing and COS
object parsing, cross-reference tables and streams (with `/Prev` chains and
hybrid files), object streams, stream filters (Flate, LZW, ASCII85,
ASCIIHex, RunLength, PNG/TIFF predictors), the Standard security handler
(RC4, AES-128, AES-256 / R6), CMaps and font encodings, the page tree,
content-stream tokenizing, image extraction (with a stored-deflate PNG
encoder) and the Markdown / HTML renderers.

Fonts of the Symbol family (Symbol, SymbolMT) whose `/ToUnicode` CMap maps
glyphs into the private-use area `U+F0xx` are read back through the Adobe
Symbol encoding. For MT-Extra fonts only the private-use points with a known
meaning are reversed (at present `U+F051` → `∩`); others yield no text.
Objects fetched by reference are cached per decryption setting.

Layout:

- `src/` — the verified library. Each module states its behaviour as spec
  functions over `Seq`/`Map` models and proves its executable code against
  them. Hashes and block ciphers are called from `md-5`, `sha2`, `aes` and
  `cbc` through small trusted wrappers in `src/crypt.rs`.
- `tests/` — unit tests of the library on concrete inputs.
- `app/` — the tool server (JSON-RPC over stdio) and the parts that work in
  floating point: text placement, line layout, ruled-table detection, and
  the serde-based JSON output.
