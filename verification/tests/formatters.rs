use semdump::formatter::{
    Formatter,
    format_whole_line_inner, no_color_palette, palette, AnnotateFormatter, DefaultPalette,
    NoColorPalette, Palette,
};
use semdump::{ColorFormatter, DataPart, Ref, SemanticDump};

fn one_part(part: DataPart<'static>) -> SemanticDump<'static> {
    let mut dump = SemanticDump::new(0);
    dump.push_part(part);
    dump
}

#[test]
fn default_palette_values() {
    assert_eq!(palette(0), (97, 41));
    assert_eq!(palette(1), (30, 42));
    assert_eq!(palette(12), (97, 105));
    // The palette repeats every 13 references.
    assert_eq!(palette(13), palette(0));
    assert_eq!(palette(14), (30, 42));
    // Neighbours differ, and no background is black.
    for i in 0..40 {
        assert_ne!(palette(i), palette(i + 1));
        assert_ne!(palette(i).1, 40);
    }
    assert_eq!(no_color_palette(1), None);
    assert_eq!(NoColorPalette.colors(3), None);
    assert_eq!(DefaultPalette.colors(3), Some((30, 43)));
    assert_eq!(ColorFormatter::new().palette(2), Some((97, 44)));
}

#[test]
fn color_formatter_highlights_references() {
    let mut part = DataPart::from_bytes(vec![0x41, 0x42, 0x00].into());
    part.push_ref(0..2, "ab");
    let dump = one_part(part);
    let mut formatter = ColorFormatter::new();
    dump.render(&mut formatter).unwrap();
    let pad = " ".repeat(32);
    let expected = format!(
        "00000000   \x1b[30;42m41\x1b[0m\x1b[30;42m42\x1b[0m 00{pad} |\x1b[30;42mA\x1b[0m\x1b[30;42mB\x1b[0m·|
  REFS (test): 1 reference
  [\x1b[30;42m 1\x1b[0m] ab   range=0x0000..0x0002 (2)
"
    );
    assert_eq!(formatter.output(), expected);
}

#[test]
fn whole_line_with_custom_line_size() {
    let mut formatter = ColorFormatter::with_palette(NoColorPalette);
    let refs: [Ref; 0] = [];
    format_whole_line_inner(&mut formatter, 0x20, 0, &[0xAB, 0xCD, 0xEF], 8, 1, &refs).unwrap();
    let pad = " ".repeat(12);
    assert_eq!(formatter.output(), format!("00000020   ABCD EF{pad} |···|\n"));
}

#[test]
fn annotate_joins_adjacent_spans() {
    let mut part = DataPart::from_bytes(vec![1, 2, 3, 4].into());
    part.push_ref(0..2, "a").push_ref(2..4, "b");
    let dump = one_part(part);
    let mut formatter = AnnotateFormatter::new();
    dump.render(&mut formatter).unwrap();
    let hex_pad = " ".repeat(30);
    let expected = format!(
        "00000000| 0102 0304{hex_pad} |····|
        | └[1]┴[2]-┘{hex_pad}|    |
  REFS (test): 2 references
  [ 1] a   range=0x0000..0x0002 (2)
  [ 2] b   range=0x0002..0x0004 (2)
"
    );
    assert_eq!(formatter.output(), expected);
}

#[test]
fn annotate_fills_a_span_too_short_for_its_label() {
    let mut part = DataPart::from_bytes(vec![0u8; 18].into());
    part.push_ref(15..17, "w");
    let dump = one_part(part);
    let mut formatter = AnnotateFormatter::new();
    dump.render(&mut formatter).unwrap();
    let dots16 = "·".repeat(16);
    let expected = format!(
        "00000000| 0000 0000 0000 0000 0000 0000 0000 0000 |{dots16}|
        | {}[1]|{}|
00000010| 0000{} |··|
        | =={}|  |
  REFS (test): 1 reference
  [ 1] w   range=0x000F..0x0011 (2)
",
        " ".repeat(37),
        " ".repeat(16),
        " ".repeat(35),
        " ".repeat(38),
    );
    assert_eq!(formatter.output(), expected);
}

#[test]
fn legend_counts() {
    let mut part = DataPart::from_bytes(vec![0u8; 2].into());
    part.push_ref(0..1, "x");
    let dump = one_part(part);
    let mut formatter = AnnotateFormatter::new();
    dump.render(&mut formatter).unwrap();
    assert!(formatter.output().contains("  REFS (test): 1 reference\n"));
    assert!(formatter.output().contains("  [ 1] x   range=0x0000..0x0001 (1)\n"));
    // A one-byte reference is labelled without brackets; in a two-column span
    // the label takes the place of the opening symbol.
    assert!(formatter.output().contains("        | 1┘"));
}

/// The bytes drawn in the colors of `colors` in the hex column of `output`.
fn highlighted_hex_bytes(output: &str, colors: (usize, usize)) -> Vec<u8> {
    let marker = format!("\x1b[{};{}m", colors.0, colors.1);
    let mut found = Vec::new();
    for line in output.lines().filter(|l| l.contains(" |")) {
        let hex_column = &line[..line.find(" |").unwrap()];
        let mut rest = hex_column;
        while let Some(at) = rest.find(&marker) {
            let digits = &rest[at + marker.len()..at + marker.len() + 2];
            found.push(u8::from_str_radix(digits, 16).unwrap());
            rest = &rest[at + marker.len() + 2..];
        }
    }
    found
}

#[test]
fn each_reference_is_highlighted_over_exactly_its_bytes() {
    let bytes: Vec<u8> = (0u8..40).collect();
    let mut part = DataPart::from_bytes(bytes.clone().into());
    part.push_ref(5..20, "across").push_ref(20..21, "one").push_ref(30..40, "tail");
    let dump = one_part(part);
    let mut formatter = ColorFormatter::new();
    dump.render(&mut formatter).unwrap();
    let output = formatter.output();
    assert_eq!(highlighted_hex_bytes(output, palette(1)), bytes[5..20].to_vec());
    assert_eq!(highlighted_hex_bytes(output, palette(2)), bytes[20..21].to_vec());
    assert_eq!(highlighted_hex_bytes(output, palette(3)), bytes[30..40].to_vec());
}

#[test]
fn text_column_starts_at_the_same_place_on_every_line() {
    for len in 1..=40u8 {
        let mut part = DataPart::from_bytes((0..len).collect::<Vec<u8>>().into());
        part.push_ref(0..1, "first");
        let dump = one_part(part);
        let mut formatter = ColorFormatter::with_palette(NoColorPalette);
        dump.render(&mut formatter).unwrap();
        for line in formatter.output().lines().filter(|l| l.ends_with('|')) {
            // Eight digits of offset, two spaces, forty columns of hex.
            assert_eq!(line.find(" |"), Some(50), "line {line:?}");
        }
    }
}

#[test]
fn annotation_separators_stand_under_the_hex_line_ones() {
    let mut part = DataPart::from_bytes(vec![0x5Au8; 28].into());
    part.push_ref(2..6, "a").push_ref(10..18, "b").push_ref(20..21, "c");
    let dump = one_part(part);
    let mut formatter = AnnotateFormatter::new();
    dump.render(&mut formatter).unwrap();
    let lines: Vec<&str> = formatter.output().lines().collect();
    for pair in [(0, 1), (2, 3)] {
        let bars = |line: &str| -> Vec<usize> {
            line.chars().enumerate().filter(|(_, c)| *c == '|').map(|(i, _)| i).collect()
        };
        assert_eq!(bars(lines[pair.0]), bars(lines[pair.1]), "{lines:?}");
    }
}

#[test]
fn turning_color_off_leaves_no_escape_codes() {
    let mut dump = SemanticDump::new(0);
    let mut part = DataPart::from_bytes(vec![0x41].into());
    part.push_ref(0..1, "a");
    dump.push_part(part);
    dump.set_color(false);
    let mut formatter = ColorFormatter::new();
    dump.render(&mut formatter).unwrap();
    assert!(!formatter.output().contains('\x1b'));
    let mut plain = ColorFormatter::with_palette(NoColorPalette);
    dump.render(&mut plain).unwrap();
    assert_eq!(formatter.output(), plain.output());
    // With colors on, the same dump is highlighted.
    dump.set_color(true);
    let mut colored = ColorFormatter::new();
    dump.render(&mut colored).unwrap();
    assert!(colored.output().contains("\x1b[30;42mA\x1b[0m"));
}

#[test]
fn legend_entry_of_a_reversed_range_counts_no_bytes() {
    let mut formatter = ColorFormatter::new();
    formatter.legend_entry(&Ref::new(5..2, "r"), 1).unwrap();
    assert_eq!(formatter.output(), "  [\x1b[30;42m 1\x1b[0m] r   range=0x0005..0x0002 (0)\n");
}
