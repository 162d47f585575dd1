//! Formatter that draws the span of each reference under the hexdump line.
use vstd::prelude::*;

use crate::text::{
    all_decimal, all_hex, decimal_text_reads_back, decimal_value, hex_text_reads_back, hex_value,
    pad_left, byte_char, byte_hex, dec_text, dec_text_right, hex_text, lemma_byte_hex_len, number_chars,
    push_char, push_chars, push_hex, push_number, push_repeat, push_str, printable, repeat_char,
};
use crate::Ref;

use super::color::{gap_width, legend_header_text, legend_tail_text, push_legend_header, push_legend_tail};
use super::{
    apply_calls, ascii_call, hex_call, lemma_apply_concat,
    lemma_apply_push, line_calls,
    line_chunks, line_chunks_tile_the_line, line_gap, line_inputs_ok, tiles, FormatCall,
    FormatRef, FormatRefView, Formatter, LineChunk, LineFormatter, RefWrap, RefenceIndex,
};

verus! {

/// Start of a span.
pub open spec fn span_start() -> char {
    '\u{2514}'
}

/// End of a span.
pub open spec fn span_end() -> char {
    '\u{2518}'
}

/// Start of a span that begins right where another ends.
pub open spec fn span_joint() -> char {
    '\u{2534}'
}

///
/// Formatter that add reference after hexdump line.
///
/// Reference is added in the form of ASCII art using characters like '└', '-', '┘', `┴`
/// to indicate the span of the reference.
/// The starting and ending symbols are either point to byte in range or a formatting gap between bytes.
///
/// Example:
/// ```text
/// 00000000|  1A2B 3C4D 5E6F 7A8B 9C0D E1F2 3456 7890
///         |  └[1]┘       └[2]┘        └[3]┴[4]┘└1┘
/// ```
/// The text it produces is collected in [`AnnotateFormatter::output`].
///
/// A label wider than its span is not written: the span is filled with `=`
/// instead. A span of no width (an empty reference standing between two bytes)
/// draws nothing. A legend entry of a range whose start lies after its end
/// counts no bytes. Annotations are never colored.
#[derive(Debug, Clone, PartialEq, Eq)]
pub struct AnnotateFormatter {
    output: String,
    annotation_line: Vec<char>,
}

/// The state of an [`AnnotateFormatter`]: the text produced so far, and the
/// annotation line being built for the current hexdump line.
pub struct AnnotateModel {
    pub output: Seq<char>,
    pub annotation: Seq<char>,
}

/// Whether a space separates the byte at `pos` of a line from the one before.
pub open spec fn gap_at(pos: int) -> bool {
    pos % 2 == 0 && pos != 0
}

/// Hex column text of `bytes` starting at `line_offset`.
pub open spec fn annotate_hex_text(line_offset: usize, bytes: Seq<u8>) -> Seq<char>
    decreases bytes.len(),
{
    if bytes.len() == 0 {
        seq![]
    } else {
        let i = bytes.len() - 1;
        annotate_hex_text(line_offset, bytes.drop_last()) + (if gap_at(line_offset + i) {
            seq![' ']
        } else {
            seq![]
        }) + byte_hex(bytes.last())
    }
}

/// Text column of `bytes`.
pub open spec fn plain_ascii_text(bytes: Seq<u8>) -> Seq<char> {
    Seq::new(bytes.len(), |i: int| byte_char(bytes[i]))
}

/// Width under a chunk of `len` bytes at `line_offset`: two columns per byte, one
/// per space between them, and the space after the chunk when one follows.
pub open spec fn chunk_span_len(line_offset: usize, len: nat) -> nat {
    let between = if len >= 1 {
        ((len - 1) / 2) as nat
    } else {
        0
    };
    2 * len + between + (if (line_offset + len) % 2 == 0 {
        1nat
    } else {
        0
    })
}

/// The label of a reference in its span: `[N]` for a reference of more than one
/// byte, `N` otherwise.
pub open spec fn ref_label(fr: FormatRefView) -> Seq<char> {
    if fr.reference.range.end - fr.reference.range.start > 1 {
        seq!['['] + dec_text(fr.part_index as nat) + seq![']']
    } else {
        dec_text(fr.part_index as nat)
    }
}

/// `t` written into `s` from position `pos`.
pub open spec fn splice(s: Seq<char>, pos: int, t: Seq<char>) -> Seq<char> {
    s.subrange(0, pos) + t + s.subrange(pos + t.len(), s.len() as int)
}

/// The span drawn under a reference: dashes, opened by `└` (or `┴` right after
/// a `┘`) if the reference starts here, closed by `┘` if it ends here, and the
/// label in the middle; all `=` when the label does not fit.
pub open spec fn span_text(len: nat, borrowed: Option<char>, fr: FormatRefView) -> Seq<char> {
    let dashes = repeat_char('-', len);
    let opened = if (fr.wrap_type == RefWrap::Start || fr.wrap_type == RefWrap::Single) && len > 0 {
        dashes.update(
            0,
            if borrowed == Some(span_end()) {
                span_joint()
            } else {
                span_start()
            },
        )
    } else {
        dashes
    };
    let closed = if (fr.wrap_type == RefWrap::End || fr.wrap_type == RefWrap::Single) && len > 0 {
        opened.update(len - 1, span_end())
    } else {
        opened
    };
    let label = ref_label(fr);
    if label.len() > len {
        repeat_char('=', len)
    } else {
        splice(closed, (len - label.len()) / 2, label)
    }
}

/// The annotation line after a hex chunk of `len` bytes at `line_offset`: blank
/// under a chunk without reference, otherwise the reference's span, which takes
/// over the space before the chunk when there is one.
pub open spec fn annotate_span(
    annotation: Seq<char>,
    line_offset: usize,
    len: nat,
    reference: Option<FormatRefView>,
) -> Seq<char> {
    let width = chunk_span_len(line_offset, len);
    match reference {
        None => annotation + repeat_char(' ', width),
        Some(fr) => if gap_at(line_offset as int) && annotation.len() > 0 {
            annotation.drop_last() + span_text(width + 1, Some(annotation.last()), fr)
        } else if gap_at(line_offset as int) {
            annotation + span_text(width + 1, None, fr)
        } else {
            annotation + span_text(width, None, fr)
        },
    }
}

/// The model of an annotate formatter after one call.
pub open spec fn annotate_handled(m: AnnotateModel, call: FormatCall) -> AnnotateModel {
    match call {
        FormatCall::Offset { offset } => AnnotateModel {
            output: m.output + hex_text(offset as nat, 8) + "| "@,
            annotation: m.annotation,
        },
        FormatCall::HexChunk { line_offset, bytes, reference } => AnnotateModel {
            output: m.output + annotate_hex_text(line_offset, bytes),
            annotation: annotate_span(m.annotation, line_offset, bytes.len(), reference),
        },
        FormatCall::HexGap { empty_bytes } => AnnotateModel {
            output: m.output + repeat_char(' ', gap_width(empty_bytes)),
            annotation: m.annotation + repeat_char(
                ' ',
                (2 * empty_bytes + empty_bytes / 2) as nat,
            ),
        },
        FormatCall::AsciiChunk { line_offset, bytes, reference } => AnnotateModel {
            output: m.output + (if line_offset == 0 {
                " |"@
            } else {
                seq![]
            }) + plain_ascii_text(bytes),
            annotation: m.annotation + (if line_offset == 0 {
                seq!['|']
            } else {
                seq![]
            }) + repeat_char(' ', bytes.len()),
        },
        FormatCall::FlushLine => AnnotateModel {
            output: m.output + "|\n"@ + "        | "@ + m.annotation + seq!['|'] + "\n"@,
            annotation: seq![],
        },
        FormatCall::LegendHeader { name, refs_count } => AnnotateModel {
            output: m.output + legend_header_text(name, refs_count),
            annotation: m.annotation,
        },
        FormatCall::LegendEntry { entry, index } => AnnotateModel {
            output: m.output + "  ["@ + dec_text_right(index as nat, 2) + legend_tail_text(entry),
            annotation: m.annotation,
        },
        FormatCall::UseColor { .. } => m,
    }
}

impl AnnotateFormatter {
    /// A formatter with no output yet.
    pub fn new() -> (f: Self)
        ensures
            f.model() == (AnnotateModel { output: Seq::<char>::empty(), annotation: Seq::<char>::empty() }),
    {
        AnnotateFormatter { output: String::new(), annotation_line: Vec::new() }
    }

    /// The text produced so far.
    pub fn output(&self) -> (s: &str)
        ensures
            s@ == self.model().output,
    {
        self.output.as_str()
    }

    /// Appends a span of `span_len` dashes to the annotation line (taking over
    /// its last character when there is a gap before the span), with its start
    /// and end symbols; returns where the span starts and its length.
    fn create_annotation_buffer(&mut self, gap_before: bool, span_len: usize, ref_wrap: RefWrap) -> (r: (usize, usize))
        requires
            span_len < usize::MAX,
        ensures
            ({
                let a = old(self).annotation_line@;
                let (base, borrowed, len) = if gap_before && a.len() > 0 {
                    (a.drop_last(), Some(a.last()), span_len + 1)
                } else if gap_before {
                    (a, None, span_len + 1)
                } else {
                    (a, None::<char>, span_len as int)
                };
                let dashes = repeat_char('-', len as nat);
                let opened = if (ref_wrap == RefWrap::Start || ref_wrap == RefWrap::Single) && len > 0 {
                    dashes.update(0, if borrowed == Some(span_end()) { span_joint() } else { span_start() })
                } else {
                    dashes
                };
                let closed = if (ref_wrap == RefWrap::End || ref_wrap == RefWrap::Single) && len > 0 {
                    opened.update(len - 1, span_end())
                } else {
                    opened
                };
                &&& r.0 == base.len()
                &&& r.1 == len
                &&& final(self).annotation_line@ == base + closed
            }),
            final(self).output@ == old(self).output@,
    {
        let mut len = span_len;
        let mut borrowed: Option<char> = None;
        if gap_before {
            len = span_len + 1;
            borrowed = self.annotation_line.pop();
        }
        let start = self.annotation_line.len();
        let ghost base = self.annotation_line@;
        let mut k: usize = 0;
        while k < len
            invariant
                k <= len,
                self.annotation_line@ == base + repeat_char('-', k as nat),
                self.output@ == old(self).output@,
            decreases len - k,
        {
            self.annotation_line.push('-');
            k = k + 1;
            assert(self.annotation_line@ =~= base + repeat_char('-', k as nat));
        }
        let opens = match ref_wrap {
            RefWrap::Start | RefWrap::Single => true,
            RefWrap::End => false,
        };
        let closes = match ref_wrap {
            RefWrap::End | RefWrap::Single => true,
            RefWrap::Start => false,
        };
        let ghost dashes = repeat_char('-', len as nat);
        if opens && len > 0 {
            let joined = match borrowed {
                Some(c) => c == '\u{2518}',
                None => false,
            };
            let symbol = if joined {
                '\u{2534}'
            } else {
                '\u{2514}'
            };
            self.annotation_line.set(start, symbol);
        }
        let ghost opened = if opens && len > 0 {
            dashes.update(0, if borrowed == Some(span_end()) { span_joint() } else { span_start() })
        } else {
            dashes
        };
        assert(self.annotation_line@ =~= base + opened);
        if closes && len > 0 {
            let last = self.annotation_line.len() - 1;
            self.annotation_line.set(last, '\u{2518}');
        }
        let ghost closed = if closes && len > 0 {
            opened.update(len - 1, span_end())
        } else {
            opened
        };
        assert(self.annotation_line@ =~= base + closed);
        (start, len)
    }
}

impl AnnotateFormatter {
    /// Writes `label` centered into the span at `start_pos` of length `len`, or
    /// fills the span with `=` when the label does not fit.
    fn write_label(
        &mut self,
        start_pos: usize,
        len: usize,
        label: &Vec<char>,
        Ghost(base): Ghost<Seq<char>>,
        Ghost(closed): Ghost<Seq<char>>,
    )
        requires
            old(self).annotation_line@ == base + closed,
            base.len() == start_pos,
            closed.len() == len,
        ensures
            final(self).annotation_line@ == base + if label@.len() > len {
                repeat_char('=', len as nat)
            } else {
                splice(closed, (len - label@.len()) / 2, label@)
            },
            final(self).output@ == old(self).output@,
    {
        let total = self.annotation_line.len();
        let id_len = label.len();
        if id_len > len {
            // Can't format id in the span, just fill it with '='
            let mut k: usize = 0;
            while k < len
                invariant
                    k <= len,
                    total == start_pos + len,
                    self.annotation_line@ == base + repeat_char('=', k as nat) + closed.subrange(k as int, len as int),
                    base.len() == start_pos,
                    closed.len() == len,
                    self.output@ == old(self).output@,
                decreases len - k,
            {
                self.annotation_line.set(start_pos + k, '=');
                k = k + 1;
                assert(self.annotation_line@ =~= base + repeat_char('=', k as nat) + closed.subrange(k as int, len as int));
            }
            assert(self.annotation_line@ =~= base + repeat_char('=', len as nat));
        } else {
            let idx_pos = (len - id_len) / 2;
            let mut k: usize = 0;
            assert(splice(closed, idx_pos as int, label@.subrange(0, 0)) =~= closed);
            while k < id_len
                invariant
                    k <= id_len,
                    id_len == label@.len(),
                    idx_pos + id_len <= len,
                    total == start_pos + len,
                    base.len() == start_pos,
                    closed.len() == len,
                    self.annotation_line@ == base + splice(closed, idx_pos as int, label@.subrange(0, k as int)),
                    self.output@ == old(self).output@,
                decreases id_len - k,
            {
                self.annotation_line.set(start_pos + idx_pos + k, label[k]);
                k = k + 1;
                assert(self.annotation_line@ =~= base + splice(closed, idx_pos as int, label@.subrange(0, k as int)));
            }
            assert(label@.subrange(0, id_len as int) =~= label@);
        }
    }
}

impl AnnotateFormatter {
    /// Writes the hex column text of `bytes` starting at `line_offset`.
    fn push_hex_bytes(&mut self, line_offset: usize, bytes: &[u8])
        ensures
            final(self).output@ == old(self).output@ + annotate_hex_text(line_offset, bytes@),
            final(self).annotation_line@ == old(self).annotation_line@,
    {
        let ghost start = self.output@;
        let n = bytes.len();
        let mut i: usize = 0;
        assert(bytes@.take(0) =~= Seq::<u8>::empty());
        while i < n
            invariant
                n == bytes@.len(),
                i <= n,
                self.output@ == start + annotate_hex_text(line_offset, bytes@.take(i as int)),
                self.annotation_line@ == old(self).annotation_line@,
            decreases n - i,
        {
            let byte = bytes[i];
            let gap_before = line_offset % 2 == i % 2 && !(line_offset == 0 && i == 0);
            if gap_before {
                push_char(&mut self.output, ' ');
            }
            push_hex(&mut self.output, byte as usize, 2);
            proof {
                let t = bytes@.take(i + 1);
                assert(t.drop_last() =~= bytes@.take(i as int));
                assert(t.last() == byte);
                assert(gap_at(line_offset + i) == gap_before);
                assert(self.output@ =~= start + annotate_hex_text(line_offset, t));
            }
            i = i + 1;
        }
        assert(bytes@.take(n as int) =~= bytes@);
    }
}

/// The label of a reference in its span.
fn index_label(fr: FormatRef<'_>) -> (label: Vec<char>)
    ensures
        label@ == ref_label(fr@),
{
    // idx is the 1-based index of the reference; ranges of more than one byte get brackets.
    let digits = number_chars(fr.part_index, 10);
    let mut label: Vec<char> = Vec::new();
    let wide = fr.reference.range.end > fr.reference.range.start
        && fr.reference.range.end - fr.reference.range.start > 1;
    if wide {
        label.push('[');
        let mut k: usize = 0;
        while k < digits.len()
            invariant
                k <= digits@.len(),
                label@ == seq!['['] + digits@.subrange(0, k as int),
            decreases digits@.len() - k,
        {
            label.push(digits[k]);
            k = k + 1;
            assert(label@ =~= seq!['['] + digits@.subrange(0, k as int));
        }
        label.push(']');
        assert(digits@.subrange(0, digits@.len() as int) =~= digits@);
        assert(label@ =~= ref_label(fr@));
    } else {
        label = digits;
    }
    label
}

impl AnnotateFormatter {
    /// Draws the span of a reference under a chunk whose blank would be `span_len` wide.
    #[verifier::rlimit(40)]
    fn annotate_reference(&mut self, gap_before: bool, span_len: usize, fr: FormatRef<'_>)
        requires
            span_len < usize::MAX,
        ensures
            ({
                let a = old(self).annotation_line@;
                final(self).annotation_line@ == if gap_before && a.len() > 0 {
                    a.drop_last() + span_text((span_len + 1) as nat, Some(a.last()), fr@)
                } else if gap_before {
                    a + span_text((span_len + 1) as nat, None, fr@)
                } else {
                    a + span_text(span_len as nat, None, fr@)
                }
            }),
            final(self).output@ == old(self).output@,
    {
        let label = index_label(fr);
        let (start_pos, len) = self.create_annotation_buffer(gap_before, span_len, fr.wrap_type);
        let ghost spanned = self.annotation_line@;
        let ghost base = spanned.subrange(0, start_pos as int);
        let ghost closed = spanned.subrange(start_pos as int, spanned.len() as int);
        assert(spanned =~= base + closed);
        self.write_label(start_pos, len, &label, Ghost(base), Ghost(closed));
        proof {
            let a = old(self).annotation_line@;
            if gap_before && a.len() > 0 {
                assert(base =~= a.drop_last());
                assert(self.annotation_line@ =~= a.drop_last() + span_text(
                    (span_len + 1) as nat,
                    Some(a.last()),
                    fr@,
                ));
            } else if gap_before {
                assert(base =~= a);
                assert(self.annotation_line@ =~= a + span_text((span_len + 1) as nat, None, fr@));
            } else {
                assert(base =~= a);
                assert(self.annotation_line@ =~= a + span_text(span_len as nat, None, fr@));
            }
        }
    }
}

impl Formatter for AnnotateFormatter {
    type Error = std::convert::Infallible;

    type Model = AnnotateModel;

    closed spec fn model(&self) -> AnnotateModel {
        AnnotateModel { output: self.output@, annotation: self.annotation_line@ }
    }

    open spec fn handled(model: AnnotateModel, call: FormatCall) -> AnnotateModel {
        annotate_handled(model, call)
    }

    open spec fn failed(
        before: AnnotateModel,
        call: FormatCall,
        after: AnnotateModel,
        error: Self::Error,
    ) -> bool {
        false
    }

    open spec fn never_fails() -> bool {
        true
    }

    fn print_offset(&mut self, offset: usize) -> (r: Result<(), Self::Error>) {
        let ghost start = self.output@;
        push_hex(&mut self.output, offset, 8);
        push_str(&mut self.output, "| ");
        Ok(())
    }

    fn print_hex_chunk(&mut self, line_offset: usize, bytes: &[u8], reference: Option<
        FormatRef<'_>,
    >) -> (r: Result<(), Self::Error>) {
        let ghost start = self.output@;
        let n = bytes.len();
        // Print hex as is
        self.push_hex_bytes(line_offset, bytes);
        let have_gap_before = line_offset % 2 == 0 && line_offset != 0;
        let have_gap_after = line_offset % 2 == n % 2;
        let num_gaps_between = if n >= 1 {
            (n - 1) / 2
        } else {
            0
        };
        let span_len = n * 2 + num_gaps_between + if have_gap_after {
            1
        } else {
            0
        };
        assert(span_len == chunk_span_len(line_offset, n as nat));
        match reference {
            Some(fr) => {
                self.annotate_reference(have_gap_before, span_len, fr);
                assert(gap_at(line_offset as int) == have_gap_before);
            },
            None => {
                // If no reference, just add spaces to keep annotation line aligned with hex output.
                let mut k: usize = 0;
                while k < span_len
                    invariant
                        k <= span_len,
                        self.annotation_line@ == old(self).annotation_line@ + repeat_char(' ', k as nat),
                        self.output@ == start + annotate_hex_text(line_offset, bytes@),
                    decreases span_len - k,
                {
                    self.annotation_line.push(' ');
                    k = k + 1;
                    assert(self.annotation_line@ =~= old(self).annotation_line@ + repeat_char(' ', k as nat));
                }
            },
        }
        Ok(())
    }

    fn add_hex_gap(&mut self, empty_bytes: usize) -> (r: Result<(), Self::Error>) {
        // 2 spaces for hex + 1 space for gap every 2 bytes
        let gap = (empty_bytes * 2) + (empty_bytes / 2);
        assert(gap as nat == gap_width(empty_bytes));
        push_repeat(&mut self.output, ' ', gap);
        let mut k: usize = 0;
        while k < gap
            invariant
                k <= gap,
                self.annotation_line@ == old(self).annotation_line@ + repeat_char(' ', k as nat),
                self.output@ == old(self).output@ + repeat_char(' ', gap_width(empty_bytes)),
            decreases gap - k,
        {
            self.annotation_line.push(' ');
            k = k + 1;
            assert(self.annotation_line@ =~= old(self).annotation_line@ + repeat_char(' ', k as nat));
        }
        Ok(())
    }

    fn print_ascii_chunk(&mut self, line_offset: usize, bytes: &[u8], reference: Option<
        FormatRef<'_>,
    >) -> (r: Result<(), Self::Error>) {
        let ghost start = self.output@;
        let ghost start_annotation = self.annotation_line@;
        if line_offset == 0 {
            push_str(&mut self.output, " |");
            self.annotation_line.push('|');
        }
        let ghost mid = self.output@;
        let ghost mid_annotation = self.annotation_line@;
        assert(mid =~= start + (if line_offset == 0 {
            " |"@
        } else {
            seq![]
        }));
        assert(mid_annotation =~= start_annotation + (if line_offset == 0 {
            seq!['|']
        } else {
            seq![]
        }));
        let mut i: usize = 0;
        while i < bytes.len()
            invariant
                i <= bytes@.len(),
                self.output@ == mid + plain_ascii_text(bytes@.take(i as int)),
                self.annotation_line@ == mid_annotation + repeat_char(' ', i as nat),
            decreases bytes@.len() - i,
        {
            push_char(&mut self.output, printable(bytes[i]));
            self.annotation_line.push(' ');
            i = i + 1;
            assert(self.output@ =~= mid + plain_ascii_text(bytes@.take(i as int)));
            assert(self.annotation_line@ =~= mid_annotation + repeat_char(' ', i as nat));
        }
        assert(bytes@.take(bytes@.len() as int) =~= bytes@);
        Ok(())
    }

    fn flush_line(&mut self) -> (r: Result<(), Self::Error>) {
        let ghost start = self.output@;
        push_str(&mut self.output, "|\n");
        self.annotation_line.push('|');
        push_str(&mut self.output, "        | ");
        push_chars(&mut self.output, &self.annotation_line);
        push_str(&mut self.output, "\n");
        self.annotation_line.clear();
        assert(self.output@ =~= start + "|\n"@ + "        | "@ + old(self).annotation_line@ + seq!['|']
            + "\n"@);
        assert(self.annotation_line@ =~= Seq::<char>::empty());
        Ok(())
    }

    /// Annotations are drawn without colors: nothing changes.
    fn use_color(&mut self, color: bool) -> (r: Result<(), Self::Error>) {
        Ok(())
    }

    fn legend_header(&mut self, data_part: &str, refs_count: usize) -> (r: Result<(), Self::Error>) {
        push_legend_header(&mut self.output, data_part, refs_count);
        Ok(())
    }

    fn legend_entry(&mut self, reference: &Ref, index: RefenceIndex) -> (r: Result<
        (),
        Self::Error,
    >) {
        let ghost start = self.output@;
        push_str(&mut self.output, "  [");
        push_number(&mut self.output, index, 10, 2, ' ');
        push_legend_tail(&mut self.output, reference);
        assert(self.output@ =~= start + "  ["@ + dec_text_right(index as nat, 2) + legend_tail_text(*reference));
        Ok(())
    }
}

impl LineFormatter for AnnotateFormatter {}

/// The hex text of bytes laid end to end is the hex text of each in turn.
#[verifier::rlimit(40)]
proof fn lemma_annotate_hex_text_split(line_offset: usize, a: Seq<u8>, b: Seq<u8>)
    requires
        line_offset + a.len() <= usize::MAX,
    ensures
        annotate_hex_text(line_offset, a + b) == annotate_hex_text(line_offset, a)
            + annotate_hex_text((line_offset + a.len()) as usize, b),
    decreases b.len(),
{
    if b.len() == 0 {
        assert(a + b =~= a);
        assert(annotate_hex_text(line_offset, a) + annotate_hex_text(
            (line_offset + a.len()) as usize,
            b,
        ) =~= annotate_hex_text(line_offset, a));
    } else {
        lemma_annotate_hex_text_split(line_offset, a, b.drop_last());
        assert((a + b).drop_last() =~= a + b.drop_last());
        assert((a + b).last() == b.last());
        assert(annotate_hex_text(line_offset, a + b) =~= annotate_hex_text(line_offset, a)
            + annotate_hex_text((line_offset + a.len()) as usize, b));
    }
}

/// `n` bytes from the start of a line take two columns each and one more
/// before every byte at an even position but the first.
proof fn lemma_annotate_hex_text_len(bytes: Seq<u8>)
    requires
        bytes.len() >= 1,
    ensures
        annotate_hex_text(0, bytes).len() == 2 * bytes.len() + (bytes.len() - 1) / 2,
    decreases bytes.len(),
{
    lemma_byte_hex_len(bytes.last());
    let i = bytes.len() - 1;
    if bytes.len() > 1 {
        lemma_annotate_hex_text_len(bytes.drop_last());
        assert(gap_at(i) == (i % 2 == 0));
    } else {
        assert(annotate_hex_text(0, bytes.drop_last()).len() == 0);
        assert(!gap_at(0));
    }
}

/// A span is as long as asked.
proof fn lemma_span_text_len(len: nat, borrowed: Option<char>, fr: FormatRefView)
    ensures
        span_text(len, borrowed, fr).len() == len,
{
}

/// A chunk whose blank in the annotation line is as wide as its hex text: it
/// holds bytes, and starts at an even offset or holds an odd number of them.
pub open spec fn chunk_lines_up(c: LineChunk) -> bool {
    c.bytes.len() > 0 && (c.line_offset % 2 == 0 || c.bytes.len() % 2 == 1)
}

#[verifier::rlimit(40)]
proof fn lemma_annotate_hex_chunks(
    step: spec_fn(AnnotateModel, FormatCall) -> AnnotateModel,
    model: AnnotateModel,
    chunks: Seq<LineChunk>,
    f: spec_fn(LineChunk) -> FormatCall,
    bytes: Seq<u8>,
    from: int,
)
    requires
        tiles(chunks, bytes, from),
        0 <= from,
        bytes.len() <= usize::MAX,
        forall|m: AnnotateModel, c: FormatCall| #[trigger] step(m, c) == annotate_handled(m, c),
        forall|c: LineChunk| #[trigger] f(c) == hex_call(c),
        forall|k: int| 0 <= k < chunks.len() ==> chunk_lines_up(#[trigger] chunks[k]),
        model.annotation.len() == 2 * from + from / 2,
    ensures
        apply_calls(step, model, chunks.map_values(f)).output == model.output + annotate_hex_text(
            from as usize,
            bytes.subrange(from, bytes.len() as int),
        ),
        apply_calls(step, model, chunks.map_values(f)).annotation.len() == 2 * bytes.len()
            + bytes.len() / 2,
    decreases chunks.len(),
{
    let calls = chunks.map_values(f);
    if chunks.len() == 0 {
        assert(calls =~= Seq::<FormatCall>::empty());
        assert(bytes.subrange(from, bytes.len() as int) =~= Seq::<u8>::empty());
        assert(model.output + annotate_hex_text(from as usize, Seq::<u8>::empty()) =~= model.output);
    } else {
        let c = chunks[0];
        let rest = chunks.drop_first();
        let n = c.bytes.len();
        let next = from + n;
        assert(chunk_lines_up(chunks[0]));
        let after = step(model, f(c));
        lemma_apply_push(step, model, Seq::<FormatCall>::empty(), f(c));
        assert(Seq::<FormatCall>::empty().push(f(c)) =~= seq![f(c)]);
        assert(apply_calls(step, model, seq![f(c)]) == after);
        let width = chunk_span_len(c.line_offset, n);
        let a = model.annotation;
        match c.reference {
            None => {},
            Some(fr) => {
                lemma_span_text_len(width + 1, Some(a.last()), fr);
                lemma_span_text_len(width + 1, None, fr);
                lemma_span_text_len(width, None, fr);
            },
        }
        assert(after.annotation.len() == a.len() + width);
        assert(after.annotation.len() == 2 * next + next / 2);
        assert forall|k: int| 0 <= k < rest.len() implies chunk_lines_up(#[trigger] rest[k]) by {
            assert(rest[k] == chunks[k + 1]);
        }
        lemma_annotate_hex_chunks(step, after, rest, f, bytes, next);
        assert(calls =~= seq![f(c)] + rest.map_values(f));
        lemma_apply_concat(step, model, seq![f(c)], rest.map_values(f));
        assert(bytes.subrange(from, bytes.len() as int) =~= c.bytes + bytes.subrange(
            next,
            bytes.len() as int,
        ));
        lemma_annotate_hex_text_split(from as usize, c.bytes, bytes.subrange(next, bytes.len() as int));
        assert(model.output + annotate_hex_text(from as usize, bytes.subrange(from, bytes.len() as int))
            =~= after.output + annotate_hex_text(next as usize, bytes.subrange(next, bytes.len() as int)));
    }
}

proof fn lemma_annotate_ascii_chunks(
    step: spec_fn(AnnotateModel, FormatCall) -> AnnotateModel,
    model: AnnotateModel,
    chunks: Seq<LineChunk>,
    f: spec_fn(LineChunk) -> FormatCall,
    bytes: Seq<u8>,
    from: int,
)
    requires
        tiles(chunks, bytes, from),
        0 < from,
        forall|m: AnnotateModel, c: FormatCall| #[trigger] step(m, c) == annotate_handled(m, c),
        forall|c: LineChunk| #[trigger] f(c) == ascii_call(c),
    ensures
        apply_calls(step, model, chunks.map_values(f)) == (AnnotateModel {
            output: model.output + plain_ascii_text(bytes.subrange(from, bytes.len() as int)),
            annotation: model.annotation + repeat_char(' ', (bytes.len() - from) as nat),
        }),
    decreases chunks.len(),
{
    let calls = chunks.map_values(f);
    if chunks.len() == 0 {
        assert(calls =~= Seq::<FormatCall>::empty());
        assert(model.output + plain_ascii_text(bytes.subrange(from, bytes.len() as int)) =~= model.output);
        assert(model.annotation + repeat_char(' ', (bytes.len() - from) as nat) =~= model.annotation);
    } else {
        let c = chunks[0];
        let rest = chunks.drop_first();
        let next = from + c.bytes.len();
        let after = step(model, f(c));
        lemma_apply_push(step, model, Seq::<FormatCall>::empty(), f(c));
        assert(Seq::<FormatCall>::empty().push(f(c)) =~= seq![f(c)]);
        assert(apply_calls(step, model, seq![f(c)]) == after);
        assert(after == AnnotateModel {
            output: model.output + plain_ascii_text(c.bytes),
            annotation: model.annotation + repeat_char(' ', c.bytes.len()),
        }) by {
            assert(model.output + seq![] + plain_ascii_text(c.bytes) =~= model.output
                + plain_ascii_text(c.bytes));
            assert(model.annotation + seq![] + repeat_char(' ', c.bytes.len()) =~= model.annotation
                + repeat_char(' ', c.bytes.len()));
        }
        lemma_annotate_ascii_chunks(step, after, rest, f, bytes, next);
        assert(calls =~= seq![f(c)] + rest.map_values(f));
        lemma_apply_concat(step, model, seq![f(c)], rest.map_values(f));
        assert(model.output + plain_ascii_text(bytes.subrange(from, bytes.len() as int)) =~= after.output
            + plain_ascii_text(bytes.subrange(next, bytes.len() as int)));
        assert(model.annotation + repeat_char(' ', (bytes.len() - from) as nat) =~= after.annotation
            + repeat_char(' ', (bytes.len() - next) as nat));
    }
}

/// The text column of a line: ` |` then the characters of its bytes; under it,
/// `|` then a blank per byte.
proof fn lemma_annotate_text_column(
    step: spec_fn(AnnotateModel, FormatCall) -> AnnotateModel,
    model: AnnotateModel,
    chunks: Seq<LineChunk>,
    f: spec_fn(LineChunk) -> FormatCall,
    bytes: Seq<u8>,
)
    requires
        tiles(chunks, bytes, 0),
        chunks.len() > 0,
        chunks[0].bytes.len() > 0,
        forall|m: AnnotateModel, c: FormatCall| #[trigger] step(m, c) == annotate_handled(m, c),
        forall|c: LineChunk| #[trigger] f(c) == ascii_call(c),
    ensures
        apply_calls(step, model, chunks.map_values(f)) == (AnnotateModel {
            output: model.output + " |"@ + plain_ascii_text(bytes),
            annotation: model.annotation + "|"@ + repeat_char(' ', bytes.len()),
        }),
{
    let n = bytes.len();
    let c0 = chunks[0];
    let rest = chunks.drop_first();
    let k = c0.bytes.len();
    assert(chunks.map_values(f) =~= seq![f(c0)] + rest.map_values(f));
    let m4 = step(model, f(c0));
    lemma_apply_push(step, model, Seq::<FormatCall>::empty(), f(c0));
    assert(Seq::<FormatCall>::empty().push(f(c0)) =~= seq![f(c0)]);
    lemma_annotate_ascii_chunks(step, m4, rest, f, bytes, k as int);
    lemma_apply_concat(step, model, seq![f(c0)], rest.map_values(f));
    reveal_strlit(" |");
    reveal_strlit("|");
    assert(c0.bytes =~= bytes.subrange(0, k as int));
    assert(plain_ascii_text(bytes) =~= plain_ascii_text(c0.bytes) + plain_ascii_text(
        bytes.subrange(k as int, n as int),
    ));
    assert(m4.output =~= model.output + " |"@ + plain_ascii_text(c0.bytes));
    assert(m4.annotation =~= model.annotation + "|"@ + repeat_char(' ', k));
    assert(model.output + " |"@ + plain_ascii_text(bytes) =~= m4.output + plain_ascii_text(
        bytes.subrange(k as int, n as int),
    ));
    assert(model.annotation + "|"@ + repeat_char(' ', n) =~= m4.annotation + repeat_char(
        ' ',
        (n - k) as nat,
    ));
}

proof fn lemma_line_text(
    o: Seq<char>,
    o1: Seq<char>,
    o2: Seq<char>,
    o3: Seq<char>,
    o5: Seq<char>,
    o6: Seq<char>,
    a5: Seq<char>,
    offset: Seq<char>,
    hex: Seq<char>,
    gap: Seq<char>,
    ascii: Seq<char>,
    annotation: Seq<char>,
    blanks: Seq<char>,
)
    requires
        o1 == o + offset + "| "@,
        o2 == o1 + hex,
        o3 == o2 + gap,
        o5 == o3 + " |"@ + ascii,
        a5 == annotation + "|"@ + blanks,
        o6 == o5 + "|\n"@ + "        | "@ + a5 + seq!['|'] + "\n"@,
        seq!['|'] + "\n"@ == "|\n"@,
    ensures
        o6 == o + offset + "| "@ + (hex + gap) + " |"@ + ascii + "|\n"@ + "        | "@ + annotation
            + "|"@ + blanks + "|\n"@,
{
    assert(o6 =~= o + offset + "| "@ + (hex + gap) + " |"@ + ascii + "|\n"@ + "        | "@
        + annotation + "|"@ + blanks + (seq!['|'] + "\n"@));
}

/// When every chunk of a line lines up (see [`chunk_lines_up`]) and the line
/// holds an even number of bytes, the annotation drawn under the hex column is
/// exactly one character wider than it, as wide as the hex column and the space
/// after it: each `|` of the annotation line then stands under the matching `|`
/// of the hex line (for offsets of eight digits).
#[verifier::rlimit(40)]
pub proof fn annotation_lines_up_with_the_hex_line(
    model: AnnotateModel,
    starting_offset: usize,
    part_offset: usize,
    bytes: Seq<u8>,
    line_size: usize,
    first: RefenceIndex,
    refs: Seq<Ref>,
)
    requires
        line_inputs_ok(part_offset, bytes, line_size, first, refs),
        bytes.len() % 2 == 0,
        bytes.len() > 0,
        model.annotation == Seq::<char>::empty(),
        forall|k: int|
            0 <= k < line_chunks(part_offset, bytes, first, refs).len() ==> chunk_lines_up(
                #[trigger] line_chunks(part_offset, bytes, first, refs)[k],
            ),
    ensures
        exists|annotation: Seq<char>|
            #![trigger annotation.len()]
            {
                let gap = line_gap(bytes.len(), line_size);
                let hex = annotate_hex_text(0, bytes) + if gap != 0 {
                    repeat_char(' ', gap_width(gap as usize))
                } else {
                    seq![]
                };
                &&& annotation.len() == hex.len() + 1
                &&& apply_calls(
                    |m: AnnotateModel, c: FormatCall| AnnotateFormatter::handled(m, c),
                    model,
                    line_calls(starting_offset, part_offset, bytes, line_size, first, refs),
                ) == (AnnotateModel {
                    output: model.output + hex_text(starting_offset as nat, 8) + "| "@ + hex + " |"@
                        + plain_ascii_text(bytes) + "|\n"@ + "        | "@ + annotation + "|"@
                        + repeat_char(' ', bytes.len()) + "|\n"@,
                    annotation: seq![],
                })
            },
{
    let step = |m: AnnotateModel, c: FormatCall| AnnotateFormatter::handled(m, c);
    let n = bytes.len();
    let chunks = line_chunks(part_offset, bytes, first, refs);
    line_chunks_tile_the_line(part_offset, bytes, first, refs);
    let hf = |c: LineChunk| hex_call(c);
    let af = |c: LineChunk| ascii_call(c);
    let hexes = chunks.map_values(hf);
    let asciis = chunks.map_values(af);
    let gap = line_gap(n, line_size);
    let gap_calls = if gap != 0 {
        seq![FormatCall::HexGap { empty_bytes: gap as usize }]
    } else {
        seq![]
    };
    let gap_text = if gap != 0 {
        repeat_char(' ', gap_width(gap as usize))
    } else {
        seq![]
    };
    let hex = annotate_hex_text(0, bytes) + gap_text;
    let head = seq![FormatCall::Offset { offset: starting_offset }];
    let tail = seq![FormatCall::FlushLine];
    let calls = line_calls(starting_offset, part_offset, bytes, line_size, first, refs);
    assert(calls == head + hexes + gap_calls + asciis + tail);
    // The offset.
    let m1 = step(model, FormatCall::Offset { offset: starting_offset });
    lemma_apply_push(step, model, Seq::<FormatCall>::empty(), FormatCall::Offset { offset: starting_offset });
    assert(Seq::<FormatCall>::empty().push(FormatCall::Offset { offset: starting_offset }) =~= head);
    // The hex chunks.
    lemma_annotate_hex_chunks(step, m1, chunks, hf, bytes, 0);
    assert(bytes.subrange(0, n as int) =~= bytes);
    let m2 = apply_calls(step, m1, hexes);
    lemma_annotate_hex_text_len(bytes);
    // The gap.
    let m3 = apply_calls(step, m2, gap_calls);
    if gap != 0 {
        lemma_apply_push(step, m2, Seq::<FormatCall>::empty(), FormatCall::HexGap { empty_bytes: gap as usize });
        assert(Seq::<FormatCall>::empty().push(FormatCall::HexGap { empty_bytes: gap as usize }) =~= gap_calls);
        assert(gap_width(gap as usize) == 2 * gap + gap / 2);
    } else {
        assert(gap_calls =~= Seq::<FormatCall>::empty());
    }
    assert(m3.output =~= m2.output + gap_text);
    let annotation = m3.annotation;
    assert(annotation.len() == hex.len() + 1);
    // The text column.
    lemma_annotate_text_column(step, m3, chunks, af, bytes);
    let m5 = apply_calls(step, m3, asciis);
    // The end of the line.
    let m6 = step(m5, FormatCall::FlushLine);
    lemma_apply_push(step, m5, Seq::<FormatCall>::empty(), FormatCall::FlushLine);
    assert(Seq::<FormatCall>::empty().push(FormatCall::FlushLine) =~= tail);
    lemma_apply_concat(step, model, head + hexes + gap_calls + asciis, tail);
    lemma_apply_concat(step, model, head + hexes + gap_calls, asciis);
    lemma_apply_concat(step, model, head + hexes, gap_calls);
    lemma_apply_concat(step, model, head, hexes);
    assert(apply_calls(step, model, calls) == m6);
    assert(seq!['|'] + "\n"@ == "|\n"@) by {
        reveal_strlit("|\n");
        reveal_strlit("\n");
        assert(seq!['|'] + "\n"@ =~= "|\n"@);
    }
    assert(m2.output == m1.output + annotate_hex_text(0, bytes));
    assert(m5.annotation == annotation + "|"@ + repeat_char(' ', n));
    lemma_line_text(
        model.output,
        m1.output,
        m2.output,
        m3.output,
        m5.output,
        m6.output,
        m5.annotation,
        hex_text(starting_offset as nat, 8),
        annotate_hex_text(0, bytes),
        gap_text,
        plain_ascii_text(bytes),
        annotation,
        repeat_char(' ', n),
    );
    assert(m6.annotation =~= Seq::<char>::empty());
    assert(annotation.len() == hex.len() + 1);
}

/// The label drawn in a reference's span names it by its whole 1-based index:
/// its digits are decimal and read back as the index; they stand in brackets
/// for a reference of more than one byte, bare otherwise; and they are the
/// digits of the number its legend entry shows.
pub proof fn span_label_names_its_reference(fr: FormatRefView)
    ensures
        ({
            let label = ref_label(fr);
            let wide = fr.reference.range.end - fr.reference.range.start > 1;
            let number = if wide {
                label.subrange(1, label.len() - 1)
            } else {
                label
            };
            &&& wide ==> label.len() >= 3 && label[0] == '[' && label[label.len() - 1] == ']'
            &&& number.len() >= 1
            &&& all_decimal(number)
            &&& decimal_value(number) == fr.part_index
            &&& dec_text_right(fr.part_index as nat, 2) == pad_left(number, 2, ' ')
        }),
{
    let d = dec_text(fr.part_index as nat);
    decimal_text_reads_back(fr.part_index as nat);
    let label = ref_label(fr);
    if fr.reference.range.end - fr.reference.range.start > 1 {
        assert(label.subrange(1, label.len() - 1) =~= d);
    }
}

/// An annotate formatter prints each line's offset in hexadecimal of at least
/// eight digits that reads back as the offset, and numbers each legend entry
/// with its index, whose digits read back as the index.
pub proof fn annotate_numbers_read_back(m: AnnotateModel, offset: usize, entry: Ref, index: RefenceIndex)
    ensures
        ({
            let shown = hex_text(offset as nat, 8);
            &&& annotate_handled(m, FormatCall::Offset { offset }).output == m.output + shown + "| "@
            &&& shown.len() >= 8 && all_hex(shown) && hex_value(shown) == offset
        }),
        ({
            let number = dec_text(index as nat);
            &&& annotate_handled(m, FormatCall::LegendEntry { entry, index }).output == m.output
                + "  ["@ + pad_left(number, 2, ' ') + legend_tail_text(entry)
            &&& all_decimal(number) && decimal_value(number) == index
        }),
{
    hex_text_reads_back(offset as nat, 8);
    decimal_text_reads_back(index as nat);
}

} // verus!
