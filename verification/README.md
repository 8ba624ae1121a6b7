# kallsyms

A kallsyms parser for Linux kernel images, verified with Verus.

Given a kernel image (plain, gzip or LZ4 frame), the library finds the
kallsyms tables inside it, aligns the token index and token table, picks a
name decoding variant (V1..V4), decodes the symbol names and the address
table, and returns the symbols sorted by address, with lookup maps by name
and by address. A signature-scanning fallback synthesizes text symbols for
images whose tables cannot be found.

Layout:

- `src/` — the verified library. Each discovery step has an exact contract
  over a spec function of the bytes; `Kallsyms::parse` is specified as the
  composition of those steps.
  - `bytes`, `helpers`, `score`, `text`: byte reading, plausibility checks,
    exact fractional scores, hexadecimal rendering.
  - `candidates`, `markers`, `names`, `addresses`, `tokens`, `decoder`:
    the discovery and decoding steps.
  - `decompress`: gzip (flate2) and LZ4 frame (lz4_flex) input.
  - `parser`, `samsung`, `types`, `layout`, `error`: the symbol table, the
    fallback extractor and the public types.
- `tests/` — tests on small inputs and on a synthetic kernel image.
- `app/` — the error type with display messages (thiserror) and entry
  points returning it.

Plausibility scores are exact fractions (`Score { num, den }`) rather than
floating-point values.
