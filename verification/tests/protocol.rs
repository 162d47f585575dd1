use semdump::formatter::{
    format_whole_line_inner, FormatCall, FormatRef, Formatter, LineFormatter, RefWrap,
};
use semdump::{DataPart, Ref, SemanticDump};

/// Records every call it receives, in a compact text form; fails the call
/// numbered `fail_on` (counted from 1), if set.
#[derive(Default)]
struct Recorder {
    calls: Vec<String>,
    fail_on: Option<usize>,
}

impl Recorder {
    fn record(&mut self, call: String) -> Result<(), ()> {
        self.calls.push(call);
        if self.fail_on == Some(self.calls.len()) {
            Err(())
        } else {
            Ok(())
        }
    }
}

fn wrap_name(w: RefWrap) -> &'static str {
    match w {
        RefWrap::Start => "start",
        RefWrap::End => "end",
        RefWrap::Single => "single",
    }
}

fn chunk_text(kind: &str, line_offset: usize, bytes: &[u8], reference: Option<FormatRef<'_>>) -> String {
    match reference {
        Some(r) => format!(
            "{kind}@{line_offset}x{}[{} #{} {}]",
            bytes.len(),
            r.reference.name,
            r.part_index,
            wrap_name(r.wrap_type)
        ),
        None => format!("{kind}@{line_offset}x{}", bytes.len()),
    }
}

impl Formatter for Recorder {
    type Error = ();
    type Model = ();

    // The model is what verified code reasons about; this formatter keeps none.
    fn model(&self) {}

    fn handled(_model: (), _call: FormatCall) {}

    fn failed(_before: (), _call: FormatCall, _after: (), _error: ()) -> bool {
        false
    }

    fn never_fails() -> bool {
        false
    }

    fn print_offset(&mut self, offset: usize) -> Result<(), ()> {
        self.record(format!("offset {offset:#x}"))
    }

    fn print_hex_chunk(&mut self, line_offset: usize, bytes: &[u8], reference: Option<FormatRef<'_>>) -> Result<(), ()> {
        self.record(chunk_text("hex", line_offset, bytes, reference))
    }

    fn add_hex_gap(&mut self, empty_bytes: usize) -> Result<(), ()> {
        self.record(format!("gap {empty_bytes}"))
    }

    fn print_ascii_chunk(&mut self, line_offset: usize, bytes: &[u8], reference: Option<FormatRef<'_>>) -> Result<(), ()> {
        self.record(chunk_text("text", line_offset, bytes, reference))
    }

    fn flush_line(&mut self) -> Result<(), ()> {
        self.record("flush".to_string())
    }

    fn use_color(&mut self, color: bool) -> Result<(), ()> {
        self.record(format!("color {color}"))
    }

    fn legend_header(&mut self, data_part: &str, refs_count: usize) -> Result<(), ()> {
        self.record(format!("legend {data_part} {refs_count}"))
    }

    fn legend_entry(&mut self, reference: &Ref, index: usize) -> Result<(), ()> {
        self.record(format!("entry {index} {}", reference.name))
    }
}

impl LineFormatter for Recorder {
    fn format_whole_line(
        &mut self,
        starting_offset: usize,
        part_offset: usize,
        bytes: &[u8],
        line_size: usize,
        references_starting_offset: usize,
        references: &[Ref],
    ) -> Result<(), ()> {
        self.record(format!("line {part_offset} refs {}", references.len()))?;
        format_whole_line_inner(self, starting_offset, part_offset, bytes, line_size, references_starting_offset, references)
    }
}

#[test]
fn a_reference_across_lines_is_drawn_on_both() {
    let mut part = DataPart::from_bytes((0u8..20).collect::<Vec<u8>>().into());
    part.push_ref(2..4, "head").push_ref(14..18, "across");
    let mut dump = SemanticDump::new(0x40);
    dump.push_part(part);
    let mut recorder = Recorder::default();
    dump.render(&mut recorder).unwrap();
    let expected = vec![
        "color true",
        "line 0 refs 2",
        "offset 0x40",
        "hex@0x2",
        "hex@2x2[head #1 single]",
        "hex@4x10",
        "hex@14x2[across #2 start]",
        "text@0x2",
        "text@2x2[head #1 single]",
        "text@4x10",
        "text@14x2[across #2 start]",
        "flush",
        "line 16 refs 1",
        "offset 0x50",
        "hex@0x2[across #2 end]",
        "hex@2x2",
        "gap 12",
        "text@0x2[across #2 end]",
        "text@2x2",
        "flush",
        "legend test 2",
        "entry 1 head",
        "entry 2 across",
    ];
    assert_eq!(recorder.calls, expected);
}

#[test]
fn a_reference_starting_at_the_line_end_is_announced_empty() {
    let mut part = DataPart::from_bytes(vec![0u8; 20].into());
    part.push_ref(16..18, "next");
    let mut dump = SemanticDump::new(0);
    dump.push_part(part);
    let mut recorder = Recorder::default();
    dump.render(&mut recorder).unwrap();
    assert_eq!(&recorder.calls[1..5], &["line 0 refs 1", "offset 0x0", "hex@0x16", "hex@16x0[next #1 start]"]);
    assert!(recorder.calls.contains(&"hex@0x2[next #1 single]".to_string()));
}

#[test]
fn a_failing_call_ends_rendering_with_its_error() {
    let mut part = DataPart::from_bytes((0u8..20).collect::<Vec<u8>>().into());
    part.push_ref(2..4, "head");
    let mut dump = SemanticDump::new(0);
    dump.push_part(part);
    dump.push_part(DataPart::from_bytes(vec![1, 2].into()));
    let mut full = Recorder::default();
    dump.render(&mut full).unwrap();
    for fail_on in 1..=full.calls.len() {
        let mut recorder = Recorder { calls: Vec::new(), fail_on: Some(fail_on) };
        assert_eq!(dump.render(&mut recorder), Err(()));
        // The calls up to the failing one were made, and none after it.
        assert_eq!(recorder.calls, full.calls[..fail_on].to_vec());
    }
}

#[test]
fn a_failing_line_call_is_the_last_call() {
    let mut recorder = Recorder { calls: Vec::new(), fail_on: Some(3) };
    let refs = [Ref::new(1..3, "r")];
    let result = format_whole_line_inner(&mut recorder, 0, 0, &[1, 2, 3, 4], 16, 1, &refs);
    assert_eq!(result, Err(()));
    assert_eq!(recorder.calls, vec!["offset 0x0", "hex@0x1", "hex@1x2[r #1 single]"]);
}

#[test]
fn a_dump_without_data_parts_makes_no_call() {
    let mut recorder = Recorder { calls: Vec::new(), fail_on: Some(1) };
    assert_eq!(SemanticDump::new(7).render(&mut recorder), Ok(()));
    let mut gaps = SemanticDump::new(0);
    gaps.push_gap(4).push_gap(8);
    assert_eq!(gaps.render(&mut recorder), Ok(()));
    assert!(recorder.calls.is_empty());
    // The colors are switched just before the first data part.
    gaps.push_part(DataPart::from_bytes(vec![1].into()));
    let mut full = Recorder::default();
    gaps.render(&mut full).unwrap();
    assert_eq!(&full.calls[..2], &["color true", "line 0 refs 0"]);
}
