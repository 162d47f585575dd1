use semdump::formatter::{AnnotateFormatter, NoColorPalette};
use semdump::{ColorFormatter, DataPart, Ref, SemanticDump};

fn render_plain(dump: &SemanticDump) -> String {
    let mut formatter = ColorFormatter::with_palette(NoColorPalette);
    dump.render(&mut formatter).unwrap();
    formatter.output().to_string()
}

#[test]
fn offset_counts_parts_and_gaps() {
    let mut dump = SemanticDump::new(0x100);
    assert_eq!(dump.offset(), 0x100);
    dump.push_part(DataPart::from_bytes(vec![1, 2, 3].into()))
        .push_gap(5);
    assert_eq!(dump.offset(), 0x108);
    dump.push_part(DataPart::from_bytes(vec![9; 0x20].into()));
    assert_eq!(dump.offset(), 0x128);
}

#[test]
fn push_ref_keeps_references_sorted() {
    let mut part = DataPart::from_bytes(vec![0u8; 10].into());
    part.push_ref(6..8, "c").push_ref(0..2, "a").push_ref(3..5, "b");
    let names: Vec<&str> = part.refs.iter().map(|r| r.name.as_str()).collect();
    assert_eq!(names, vec!["a", "b", "c"]);
    assert_eq!(part.refs[1].range, 3..5);
    assert!(part.is_well_formed());
}

#[test]
fn push_ref_after_equal_start() {
    let mut part = DataPart::from_bytes(vec![0u8; 4].into());
    part.push_ref(1..1, "first empty").push_ref(1..1, "second empty");
    assert_eq!(part.refs[0].name, "first empty");
    assert_eq!(part.refs[1].name, "second empty");
}

#[test]
fn push_ref_sorts_references_given_out_of_order() {
    let mut part = DataPart {
        bytes: vec![0u8; 12].into(),
        refs: vec![Ref::new(8..10, "late"), Ref::new(0..2, "early")],
    };
    assert!(!part.is_well_formed());
    part.push_ref(4..6, "middle");
    let names: Vec<&str> = part.refs.iter().map(|r| r.name.as_str()).collect();
    assert_eq!(names, vec!["early", "middle", "late"]);
    assert!(part.is_well_formed());
}

#[test]
fn ref_constructors() {
    let r = Ref::new(2..5, "name");
    assert_eq!(r.range, 2..5);
    assert_eq!(r.name, "name");
    assert_eq!(r.extra_info, 0);
    let raw = Ref::raw(0..1, "raw", 7);
    assert_eq!(raw.extra_info, 7);
    assert_eq!(raw.clone(), raw);
}

#[test]
fn well_formedness_checks() {
    let overlapping = DataPart {
        bytes: vec![0u8; 8].into(),
        refs: vec![Ref::new(0..4, "a"), Ref::new(3..6, "b")],
    };
    assert!(!overlapping.is_well_formed());
    let unsorted = DataPart {
        bytes: vec![0u8; 8].into(),
        refs: vec![Ref::new(4..6, "a"), Ref::new(0..2, "b")],
    };
    assert!(!unsorted.is_well_formed());
    let out_of_bounds = DataPart {
        bytes: vec![0u8; 8].into(),
        refs: vec![Ref::new(4..9, "a")],
    };
    assert!(!out_of_bounds.is_well_formed());
    let good = DataPart {
        bytes: vec![0u8; 8].into(),
        refs: vec![Ref::new(0..4, "a"), Ref::new(4..8, "b")],
    };
    assert!(good.is_well_formed());

    let mut dump = SemanticDump::new(0);
    dump.push_part(good);
    assert!(dump.parts_are_well_formed());
    dump.push_part(overlapping);
    assert!(!dump.parts_are_well_formed());
}

#[test]
fn global_refs_land_in_their_part_after_a_gap() {
    let mut dump = SemanticDump::new(0);
    dump.push_part(DataPart::from_bytes(vec![0x01, 0x02, 0x03, 0x04].into()))
        .add_global_ref(0..2, "first two bytes")
        .add_global_ref(2..4, "last two bytes");
    dump.push_gap(16);
    let dump_offset = dump.offset();
    assert_eq!(dump_offset, 20);
    dump.push_part(DataPart::from_bytes(vec![0xAA, 0xBB, 0xCC, 0xDD].into()))
        .add_global_ref(dump_offset..dump_offset + 4, "some other data");

    let pad = " ".repeat(30);
    let expected = format!(
        "00000000   0102 0304{pad} |····|
  REFS (test): 2 references
  [ 1] first two bytes   range=0x0000..0x0002 (2)
  [ 2] last two bytes   range=0x0002..0x0004 (2)
00000014   AABB CCDD{pad} |····|
  REFS (test): 1 reference
  [ 1] some other data   range=0x0000..0x0004 (4)
"
    );
    assert_eq!(render_plain(&dump), expected);
}

#[test]
fn empty_part_renders_only_its_legend() {
    let mut dump = SemanticDump::new(0);
    dump.push_part(DataPart::from_bytes(Vec::new().into()));
    assert_eq!(render_plain(&dump), "  REFS (test): none\n");
}

#[test]
fn gaps_are_not_rendered() {
    let mut dump = SemanticDump::new(0);
    dump.push_gap(64);
    assert_eq!(render_plain(&dump), "");
}

#[test]
fn borrowed_bytes_render_like_owned_ones() {
    let data = [0x48u8, 0x69];
    let mut borrowed = SemanticDump::new(0);
    borrowed.push_part(DataPart::from_bytes((&data[..]).into()));
    let mut owned = SemanticDump::new(0);
    owned.push_part(DataPart::from_bytes(data.to_vec().into()));
    assert_eq!(render_plain(&borrowed), render_plain(&owned));
    assert!(render_plain(&borrowed).starts_with("00000000   4869"));
}

#[test]
fn clone_and_default() {
    let mut dump = SemanticDump::default();
    dump.push_part(DataPart::from_bytes(vec![1, 2, 3, 4, 5].into()))
        .add_global_ref(1..3, "mid");
    dump.set_color(false);
    let copy = dump.clone();
    assert_eq!(copy, dump);
    assert_eq!(render_plain(&copy), render_plain(&dump));
    let mut annotated = AnnotateFormatter::new();
    copy.render(&mut annotated).unwrap();
    assert!(annotated.output().contains("[ 1] mid   range=0x0001..0x0003 (2)"));
}

#[test]
fn lines_start_every_sixteen_bytes_from_the_part_offset() {
    let mut dump = SemanticDump::new(0xFFF0);
    dump.push_part(DataPart::from_bytes((0u8..40).collect::<Vec<u8>>().into()));
    let output = render_plain(&dump);
    let offsets: Vec<&str> = output.lines().take(3).map(|l| &l[..8]).collect();
    assert_eq!(offsets, vec!["0000FFF0", "00010000", "00010010"]);
    // Every byte shows once in the hex column, in order.
    let hex: String = output
        .lines()
        .take(3)
        .map(|l| l[10..50].replace(' ', ""))
        .collect();
    let expected: String = (0u8..40).map(|b| format!("{b:02X}")).collect();
    assert_eq!(hex, expected);
}
