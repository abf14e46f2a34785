# customasm (verified core)

Parts of the customasm assembler, written in Verus with their contracts
proved. The assembler core is not among them: expression evaluation,
symbol resolution, instruction matching and `assemble` are built on the
`util` (big integers, file server), `syntax` and `asm` modules, whose
source this crate does not have. What is here:

- `bitvec` — bit sequences, literal parsing in bases 2, 10 and 16, bytes
  and hex dumps.
- `binary_block`, `annotated` — the output block with its source ranges,
  and every output format it is written in (binary, MIF, Intel HEX, C
  arrays, Logisim images, dumps, annotated listings).
- `output_format` — the `-f` format strings and their arguments.
- `driver` — the command line: argument groups, options (read with the
  `getopts` crate), defines and output file names.
- `diagn`, `render`, `reporter` — spans, messages nested in their
  contexts, the report, and its text with source excerpts.
- `asm2`, `expr`, `configuration`, `instrset` — pieces of the assembler:
  alignment, definition lists, bank overlap checks, field names, built-in
  functions, string encodings, rule patterns.
- `string_literal` — the body of a quoted string, its escape sequences
  read.
- `text` — characters, digits and numbers as text.

Laws that span several functions are public proof functions named
`law_*`, next to the functions they speak of.
