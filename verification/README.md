# semdump

Hexdumps with semantic information: named references mark byte ranges of a
dump, and formatters highlight them and list them in a legend.

```text
00000000| 0100 0000 2000 0000 1000 0000 DEAD BEEF |···· ···········|
        | └-----[1]-----┘    └--------[2]---------|                |
```

The library is written in Verus and verified: every public function states
what it does in its contract, and the laws of the library are proof
functions.

## Layout

- `src/lib.rs` — the dump: `SemanticDump` (parts and gaps laid end to end),
  `DataPart` (bytes with references, kept sorted by start), `Ref`, and
  rendering a dump through a formatter.
- `src/layout.rs` — what rendering does, as specifications: the lines of a
  part, the references drawn on each line, the legend, the calls a formatter
  receives, the stable sort of references; and the laws about them (every
  byte shown once and in order, each reference highlighted over exactly its
  bytes, a line draws exactly the references reaching into it).
- `src/formatter.rs` — the `Formatter` interface, described by a model of the
  formatter's state and how each call changes it; cutting a line into chunks
  by its references (`format_whole_line_inner`) and its laws.
- `src/formatter/color.rs` — `ColorFormatter`, highlighting with ANSI colors
  from a `Palette`; with colors turned off (`SemanticDump::set_color(false)`)
  it writes no escape code of its own (a reference name holding an escape
  character still reaches the output as it is), and without colors its text
  column starts at the same place on every line.
- `src/formatter/annotated.rs` — `AnnotateFormatter`, drawing the span of each
  reference under the line, and when its annotation lines up with the hex
  line.
- `src/text.rs` — numbers in decimal and hexadecimal, padding, printable bytes.
- `app/lib.rs` — writing rendered text to `std::io` writers.
- `tests/` — rendering scenarios and edge cases.

## Example

```rust
use semdump::{ColorFormatter, DataPart, SemanticDump};

let mut dump = SemanticDump::new(0);
dump.push_part(DataPart::from_bytes(vec![0x01, 0x02, 0x03, 0x04].into()))
    .add_global_ref(0..2, "first two bytes")
    .add_global_ref(2..4, "last two bytes");
dump.push_gap(16);

let mut formatter = ColorFormatter::new();
dump.render(&mut formatter).unwrap();
println!("{}", formatter.output());
```

## Not included

There is no formatter that builds text for terminal user interfaces such as
Ratatui: that would need the `ratatui` crate, which this library does not
depend on. Such a formatter can be written outside the library by
implementing `Formatter`.
