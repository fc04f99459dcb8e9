# zfmt

Low-overhead binary event logging: firmware sends compact binary frames
(a 32-bit tag, a LEB128 length, the event's payload), and the host decodes
them with the bytecode and format strings that the build put in its ELF file.

The library in `src/` is written in Verus: every function carries a contract.
The library's own functions are proved against theirs; six small wrappers
around the standard library and the `object` crate (`trim`, `str_from_utf8`,
`utf8_lossy`, `char_text`, `now_unix_secs`, `read_object_sections`) are
trusted, their contracts stating what those functions document.

- `leb128`, `text`, `hash`, `numfmt`: LEB128, little-endian integers, FNV-1a,
  digit strings.
- `write`, `format`, `fmtstr`, `textlog`: the text formatting engine and
  format-string parsing.
- `events`, `logger`, `output`: built-in events, the logger interface and the
  wire framing.
- `schema`, `derived`, `testfw`: event types described at run time (hash
  input, tag, bytecode, layout, payload, rendered text).
- `bytecode`, `interpret`, `display`, `decode`: the host side that reads a
  stream back into lines.
- `elf`, `db`, `export`: linker-section entries, the event database and its
  text export.
- `readback`, `laws`: properties that span several of the above, such as
  "interpreting an event type's bytecode over the payload its values
  serialize to gives those values back".

`app/` holds the command-line tool (argument parsing, files, SQLite, float
formatting); `tests/` exercises the library on concrete values.
