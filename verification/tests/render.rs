use semdump::formatter::{AnnotateFormatter, NoColorPalette};
use semdump::{ColorFormatter, DataPart, Ref, SemanticDump};

fn test_data() -> DataPart<'static> {
    DataPart {
        bytes: vec![
            0x01, 0x00, 0x00, 0x00, 0x20, 0x00, 0x00, 0x00, 0x10, 0x00, 0x00, 0x00, 0xDE, 0xAD,
            0xBE, 0xEF, 0x48, 0x65, 0x6C, 0x6C, 0x6F, 0x00, 0x00, 0x00, 0x34, 0x12, 0x00, 0x00,
            0x00, 0x00, 0x00, 0x00, 0xAA, 0xBB, 0xCC, 0xDD, 0xEE, 0xFF, 0x11, 0x22, 0x33, 0x44,
            0x55, 0x66, 0x77, 0x88, 0x99, 0x00, 0x00, 0x00, 0x00, 0x00, 0xAA, 0xBB, 0xCC, 0xDD,
            0xEE, 0xFF, 0x11, 0x22, 0x33, 0x44, 0x55, 0x66, 0x77, 0x88, 0x99, 0x00,
        ]
        .into(),
        refs: vec![
            Ref {
                range: 0..6,
                name: ".Lanon.faeb22a22ed4190fdf8d8c764500d80d.47".into(),
                extra_info: 0,
            },
            Ref {
                range: 8..21,
                name: "very_very_long_human_readable_field_name".into(),
                extra_info: 0,
            },
            Ref {
                range: 24..27,
                name: ".Lanon.a91b73428f0e239f7d2e4cbd3eaa0011.02".into(),
                extra_info: 0,
            },
            Ref {
                range: 46..47,
                name: "tiny".into(),
                extra_info: 0,
            },
        ],
    }
}

/// A dump holding only `part`, starting at offset 0.
fn single_part_dump(part: DataPart<'static>) -> SemanticDump<'static> {
    let mut dump = SemanticDump::new(0);
    dump.push_part(part);
    dump
}

#[test]
fn can_use_stdout() {
    let dump = single_part_dump(test_data());
    let mut formatter = ColorFormatter::new();
    dump.render(&mut formatter).unwrap();
    println!("{}", formatter.output());
}

/// The test part rendered without colors.
const NO_COLOR_RENDERING: &str = "00000000   0100 0000 2000 0000 1000 0000 DEAD BEEF |···· ···········|
00000010   4865 6C6C 6F00 0000 3412 0000 0000 0000 |Hello···4·······|
00000020   AABB CCDD EEFF 1122 3344 5566 7788 9900 |·······\"3DUfw···|
00000030   0000 0000 AABB CCDD EEFF 1122 3344 5566 |···········\"3DUf|
00000040   7788 9900                               |w···|
  REFS (test): 4 references
  [ 1] .Lanon.faeb22a22ed4190fdf8d8c764500d80d.47   range=0x0000..0x0006 (6)
  [ 2] very_very_long_human_readable_field_name   range=0x0008..0x0015 (13)
  [ 3] .Lanon.a91b73428f0e239f7d2e4cbd3eaa0011.02   range=0x0018..0x001B (3)
  [ 4] tiny   range=0x002E..0x002F (1)
";

/// The test part rendered with its references drawn under each line.
const ANNOTATED_RENDERING: &str = r#"00000000| 0100 0000 2000 0000 1000 0000 DEAD BEEF |···· ···········|
        | └-----[1]-----┘    └--------[2]---------|                |
00000010| 4865 6C6C 6F00 0000 3412 0000 0000 0000 |Hello···4·······|
        | ----[2]----┘       └-[3]--┘             |                |
00000020| AABB CCDD EEFF 1122 3344 5566 7788 9900 |·······"3DUfw···|
        |                                   └4┘   |                |
00000030| 0000 0000 AABB CCDD EEFF 1122 3344 5566 |···········"3DUf|
        |                                         |                |
00000040| 7788 9900                               |w···|
        |                                         |    |
  REFS (test): 4 references
  [ 1] .Lanon.faeb22a22ed4190fdf8d8c764500d80d.47   range=0x0000..0x0006 (6)
  [ 2] very_very_long_human_readable_field_name   range=0x0008..0x0015 (13)
  [ 3] .Lanon.a91b73428f0e239f7d2e4cbd3eaa0011.02   range=0x0018..0x001B (3)
  [ 4] tiny   range=0x002E..0x002F (1)
"#;

#[test]
fn snapshot_color_example() {
    let dump = single_part_dump(test_data());
    let mut no_color_formatter = ColorFormatter::with_palette(NoColorPalette);
    dump.render(&mut no_color_formatter).unwrap();
    let output = no_color_formatter.output().to_string();
    assert_eq!(output, NO_COLOR_RENDERING);
}

#[test]
fn snapshot_annotate() {
    let dump = single_part_dump(test_data());
    let mut annotate_formatter = AnnotateFormatter::new();
    dump.render(&mut annotate_formatter).unwrap();
    let output = annotate_formatter.output().to_string();
    assert_eq!(output, ANNOTATED_RENDERING);
}

#[test]
fn manual_compare_no_color() {
    let dump = single_part_dump(test_data());
    let mut no_color_formatter = ColorFormatter::with_palette(NoColorPalette);
    dump.render(&mut no_color_formatter).unwrap();
    let output = no_color_formatter.output().to_string();

    assert_eq!(
        output,
        "00000000   0100 0000 2000 0000 1000 0000 DEAD BEEF |···· ···········|
00000010   4865 6C6C 6F00 0000 3412 0000 0000 0000 |Hello···4·······|
00000020   AABB CCDD EEFF 1122 3344 5566 7788 9900 |·······\"3DUfw···|
00000030   0000 0000 AABB CCDD EEFF 1122 3344 5566 |···········\"3DUf|
00000040   7788 9900                               |w···|
  REFS (test): 4 references
  [ 1] .Lanon.faeb22a22ed4190fdf8d8c764500d80d.47   range=0x0000..0x0006 (6)
  [ 2] very_very_long_human_readable_field_name   range=0x0008..0x0015 (13)
  [ 3] .Lanon.a91b73428f0e239f7d2e4cbd3eaa0011.02   range=0x0018..0x001B (3)
  [ 4] tiny   range=0x002E..0x002F (1)
"
    );
}

#[test]
fn manual_compare_annotate() {
    let dump = single_part_dump(test_data());
    let mut annotate_formatter = AnnotateFormatter::new();
    dump.render(&mut annotate_formatter).unwrap();
    let output = annotate_formatter.output().to_string();

    println!("OUTPUT:\n{output}");
    assert_eq!(
        output,
        r#"00000000| 0100 0000 2000 0000 1000 0000 DEAD BEEF |···· ···········|
        | └-----[1]-----┘    └--------[2]---------|                |
00000010| 4865 6C6C 6F00 0000 3412 0000 0000 0000 |Hello···4·······|
        | ----[2]----┘       └-[3]--┘             |                |
00000020| AABB CCDD EEFF 1122 3344 5566 7788 9900 |·······"3DUfw···|
        |                                   └4┘   |                |
00000030| 0000 0000 AABB CCDD EEFF 1122 3344 5566 |···········"3DUf|
        |                                         |                |
00000040| 7788 9900                               |w···|
        |                                         |    |
  REFS (test): 4 references
  [ 1] .Lanon.faeb22a22ed4190fdf8d8c764500d80d.47   range=0x0000..0x0006 (6)
  [ 2] very_very_long_human_readable_field_name   range=0x0008..0x0015 (13)
  [ 3] .Lanon.a91b73428f0e239f7d2e4cbd3eaa0011.02   range=0x0018..0x001B (3)
  [ 4] tiny   range=0x002E..0x002F (1)
"#
    );
}

#[test]
fn test_multi_part() {
    let mut dump = SemanticDump::new(0);
    dump.push_part(DataPart::from_bytes(vec![0x01, 0x02, 0x03, 0x04].into()))
        .add_global_ref(0..2, "first two bytes")
        .add_global_ref(2..4, "last two bytes");
    dump.push_gap(16);

    let dump_offset = dump.offset();

    dump.push_part(DataPart::from_bytes(vec![0xAA, 0xBB, 0xCC, 0xDD].into()))
        .add_global_ref(dump_offset..dump_offset + 4, "some other data");

    let mut formatter = ColorFormatter::new();
    dump.render(&mut formatter).unwrap();
    println!("{}", formatter.output());
}
