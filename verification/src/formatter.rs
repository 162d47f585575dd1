//! The `Formatter` interface through which a dump is rendered, and the default
//! way a single hexdump line is cut into chunks and handed to a formatter.
use vstd::prelude::*;

use crate::{DataPart, Ref};

mod annotated;
mod color;

pub use annotated::{AnnotateFormatter, AnnotateModel};

pub use color::{
    no_color_palette, palette, palette_pair, ColorFormatter, ColorModel, DefaultPalette,
    NoColorPalette, Palette,
};

verus! {

/// Reference index: the 1-based position of a reference in its part, used in
/// highlighting and in the legend.
pub type RefenceIndex = usize;

/// Type of reference wrap
#[derive(Debug, Clone, Copy, PartialEq, Eq, Structural)]
pub enum RefWrap {
    /// Reference starts on the current line and continues on the next line(s).
    Start,
    /// Reference ends on the current line, but started on the previous line(s).
    End,
    /// Reference is fully contained within the current line.
    Single,
}

/// Reference information handed to a [`Formatter`] together with the bytes it covers.
#[derive(Debug, Clone, Copy, PartialEq, Eq)]
pub struct FormatRef<'a> {
    pub reference: &'a Ref,
    /// Index of reference in the part (1-based).
    pub part_index: RefenceIndex,
    /// How the reference relates to the current line.
    pub wrap_type: RefWrap,
}

/// The value of a [`FormatRef`]: the reference itself rather than a pointer to it.
pub struct FormatRefView {
    pub reference: Ref,
    pub part_index: RefenceIndex,
    pub wrap_type: RefWrap,
}

impl<'a> View for FormatRef<'a> {
    type V = FormatRefView;

    open spec fn view(&self) -> FormatRefView {
        FormatRefView {
            reference: *self.reference,
            part_index: self.part_index,
            wrap_type: self.wrap_type,
        }
    }
}

pub open spec fn opt_ref_view<'a>(r: Option<FormatRef<'a>>) -> Option<FormatRefView> {
    match r {
        Some(fr) => Some(fr@),
        None => None,
    }
}

/// One call that a renderer makes on a [`Formatter`], with the values it passes.
pub enum FormatCall {
    Offset { offset: usize },
    HexChunk { line_offset: usize, bytes: Seq<u8>, reference: Option<FormatRefView> },
    HexGap { empty_bytes: usize },
    AsciiChunk { line_offset: usize, bytes: Seq<u8>, reference: Option<FormatRefView> },
    FlushLine,
    LegendHeader { name: Seq<char>, refs_count: usize },
    LegendEntry { entry: Ref, index: RefenceIndex },
    UseColor { color: bool },
}

/// Implementation of custom formatter for hexdump output.
///
/// A formatter is described by a model of its state (`model`) and by how each
/// call changes that model (`handled`); every method, when it succeeds, moves
/// the model exactly as `handled` says, and when it fails, the model before and
/// after the call and the error it returns are related as `failed` says. A
/// formatter for which `never_fails` holds succeeds on every call.
pub trait Formatter: Sized {
    type Error;

    type Model;

    spec fn model(&self) -> Self::Model;

    spec fn handled(model: Self::Model, call: FormatCall) -> Self::Model;

    spec fn failed(
        before: Self::Model,
        call: FormatCall,
        after: Self::Model,
        error: Self::Error,
    ) -> bool;

    spec fn never_fails() -> bool;

    /// Hook for a header before a data part; does nothing unless a formatter overrides it.
    fn print_part_header(&mut self, data_part: &DataPart) -> (r: Result<(), Self::Error>)
        ensures
            Self::never_fails() ==> r is Ok,
        default_ensures
            r is Ok,
            final(self).model() == old(self).model(),
    {
        Ok(())
    }

    /// Format the offset of the current line in the hexdump.
    /// The offset should contain gap or any necessary padding to align the hex output.
    ///
    /// E.g. `00000000  `.
    fn print_offset(&mut self, offset: usize) -> (r: Result<(), Self::Error>)
        ensures
            Self::never_fails() ==> r is Ok,
            r is Ok ==> final(self).model() == Self::handled(
                old(self).model(),
                FormatCall::Offset { offset },
            ),
            r is Err ==> Self::failed(
                old(self).model(),
                FormatCall::Offset { offset },
                final(self).model(),
                r->Err_0,
            ),
    ;

    /// Format a chunk of line of the hexdump, given the bytes and their corresponding reference.
    /// `line_offset` is the offset within the current line of the first byte in the chunk.
    ///
    /// Note: the range of the reference is relative to the start of the part.
    fn print_hex_chunk(&mut self, line_offset: usize, bytes: &[u8], reference: Option<
        FormatRef<'_>,
    >) -> (r: Result<(), Self::Error>)
        requires
            bytes@.len() <= usize::MAX / 3,
            reference matches Some(fr) ==> fr.part_index >= 1,
        ensures
            Self::never_fails() ==> r is Ok,
            r is Ok ==> final(self).model() == Self::handled(
                old(self).model(),
                FormatCall::HexChunk {
                    line_offset,
                    bytes: bytes@,
                    reference: opt_ref_view(reference),
                },
            ),
            r is Err ==> Self::failed(
                old(self).model(),
                FormatCall::HexChunk {
                    line_offset,
                    bytes: bytes@,
                    reference: opt_ref_view(reference),
                },
                final(self).model(),
                r->Err_0,
            ),
    ;

    /// Add gap after hex chunk if needed.
    fn add_hex_gap(&mut self, empty_bytes: usize) -> (r: Result<(), Self::Error>)
        requires
            1 <= empty_bytes <= usize::MAX / 3,
        ensures
            Self::never_fails() ==> r is Ok,
            r is Ok ==> final(self).model() == Self::handled(
                old(self).model(),
                FormatCall::HexGap { empty_bytes },
            ),
            r is Err ==> Self::failed(
                old(self).model(),
                FormatCall::HexGap { empty_bytes },
                final(self).model(),
                r->Err_0,
            ),
    ;

    /// Print the ASCII representation of the bytes chunk.
    fn print_ascii_chunk(&mut self, line_offset: usize, bytes: &[u8], reference: Option<
        FormatRef<'_>,
    >) -> (r: Result<(), Self::Error>)
        requires
            bytes@.len() <= usize::MAX / 3,
            reference matches Some(fr) ==> fr.part_index >= 1,
        ensures
            Self::never_fails() ==> r is Ok,
            r is Ok ==> final(self).model() == Self::handled(
                old(self).model(),
                FormatCall::AsciiChunk {
                    line_offset,
                    bytes: bytes@,
                    reference: opt_ref_view(reference),
                },
            ),
            r is Err ==> Self::failed(
                old(self).model(),
                FormatCall::AsciiChunk {
                    line_offset,
                    bytes: bytes@,
                    reference: opt_ref_view(reference),
                },
                final(self).model(),
                r->Err_0,
            ),
    ;

    /// Move to the next line in the hexdump output.
    fn flush_line(&mut self) -> (r: Result<(), Self::Error>)
        ensures
            Self::never_fails() ==> r is Ok,
            r is Ok ==> final(self).model() == Self::handled(
                old(self).model(),
                FormatCall::FlushLine,
            ),
            r is Err ==> Self::failed(
                old(self).model(),
                FormatCall::FlushLine,
                final(self).model(),
                r->Err_0,
            ),
    ;

    /// Turns highlighting with colors on or off; a formatter that draws no
    /// colors has nothing to change.
    fn use_color(&mut self, color: bool) -> (r: Result<(), Self::Error>)
        ensures
            Self::never_fails() ==> r is Ok,
            r is Ok ==> final(self).model() == Self::handled(
                old(self).model(),
                FormatCall::UseColor { color },
            ),
            r is Err ==> Self::failed(
                old(self).model(),
                FormatCall::UseColor { color },
                final(self).model(),
                r->Err_0,
            ),
    ;

    /// Format the header of the legend section, which describes the references used in the hexdump.
    fn legend_header(&mut self, data_part: &str, refs_count: usize) -> (r: Result<(), Self::Error>)
        ensures
            Self::never_fails() ==> r is Ok,
            r is Ok ==> final(self).model() == Self::handled(
                old(self).model(),
                FormatCall::LegendHeader { name: data_part@, refs_count },
            ),
            r is Err ==> Self::failed(
                old(self).model(),
                FormatCall::LegendHeader { name: data_part@, refs_count },
                final(self).model(),
                r->Err_0,
            ),
    ;

    /// Format a single entry in the legend, given a reference.
    ///
    /// The `index` parameter indicates the position of the reference in the legend, starting from 1.
    fn legend_entry(&mut self, reference: &Ref, index: RefenceIndex) -> (r: Result<
        (),
        Self::Error,
    >)
        requires
            index >= 1,
        ensures
            Self::never_fails() ==> r is Ok,
            r is Ok ==> final(self).model() == Self::handled(
                old(self).model(),
                FormatCall::LegendEntry { entry: *reference, index },
            ),
            r is Err ==> Self::failed(
                old(self).model(),
                FormatCall::LegendEntry { entry: *reference, index },
                final(self).model(),
                r->Err_0,
            ),
    ;
}

/// The calls before call `k` succeeded, and call `k` failed, leaving the model
/// `after` and returning `error`.
pub open spec fn failed_at<F: Formatter>(
    model: F::Model,
    calls: Seq<FormatCall>,
    k: int,
    after: F::Model,
    error: F::Error,
) -> bool {
    F::failed(
        apply_calls(|m: F::Model, c: FormatCall| F::handled(m, c), model, calls.take(k)),
        calls[k],
        after,
        error,
    )
}

/// Handling `calls` from `model` failed at one of them, leaving the model
/// `after` and returning `error`; no call after it was made.
pub open spec fn fails_within<F: Formatter>(
    model: F::Model,
    calls: Seq<FormatCall>,
    after: F::Model,
    error: F::Error,
) -> bool {
    exists|k: int| 0 <= k < calls.len() && #[trigger] failed_at::<F>(model, calls, k, after, error)
}

/// A failure among the first calls is a failure among all of them.
pub proof fn lemma_fails_extend<F: Formatter>(
    model: F::Model,
    a: Seq<FormatCall>,
    b: Seq<FormatCall>,
    after: F::Model,
    error: F::Error,
)
    requires
        fails_within::<F>(model, a, after, error),
    ensures
        fails_within::<F>(model, a + b, after, error),
{
    let k = choose|k: int| 0 <= k < a.len() && #[trigger] failed_at::<F>(model, a, k, after, error);
    assert((a + b).take(k) =~= a.take(k));
    assert((a + b)[k] == a[k]);
    assert(failed_at::<F>(model, a + b, k, after, error));
}

/// A failure among the calls that follow `a` is a failure among all of them.
pub proof fn lemma_fails_after<F: Formatter>(
    model: F::Model,
    a: Seq<FormatCall>,
    b: Seq<FormatCall>,
    after: F::Model,
    error: F::Error,
)
    requires
        fails_within::<F>(
            apply_calls(|m: F::Model, c: FormatCall| F::handled(m, c), model, a),
            b,
            after,
            error,
        ),
    ensures
        fails_within::<F>(model, a + b, after, error),
{
    let step = |m: F::Model, c: FormatCall| F::handled(m, c);
    let mid = apply_calls(step, model, a);
    let k = choose|k: int| 0 <= k < b.len() && #[trigger] failed_at::<F>(mid, b, k, after, error);
    let j = a.len() + k;
    assert((a + b).take(j) =~= a + b.take(k));
    assert((a + b)[j] == b[k]);
    lemma_apply_concat(step, model, a, b.take(k));
    assert(failed_at::<F>(model, a + b, j, after, error));
}

/// The call at the end of `done` failed: handling `done` failed.
pub proof fn lemma_fails_last<F: Formatter>(
    model: F::Model,
    done: Seq<FormatCall>,
    call: FormatCall,
    after: F::Model,
    error: F::Error,
)
    requires
        F::failed(
            apply_calls(|m: F::Model, c: FormatCall| F::handled(m, c), model, done),
            call,
            after,
            error,
        ),
    ensures
        fails_within::<F>(model, done.push(call), after, error),
{
    let k = done.len() as int;
    assert(done.push(call).take(k) =~= done);
    assert(done.push(call)[k] == call);
    assert(failed_at::<F>(model, done.push(call), k, after, error));
}

/// A failure among the first calls of `calls` is a failure among all of them.
pub proof fn lemma_fails_prefix<F: Formatter>(
    model: F::Model,
    first: Seq<FormatCall>,
    calls: Seq<FormatCall>,
    after: F::Model,
    error: F::Error,
)
    requires
        fails_within::<F>(model, first, after, error),
        first.len() <= calls.len(),
        first == calls.take(first.len() as int),
    ensures
        fails_within::<F>(model, calls, after, error),
{
    lemma_fails_extend::<F>(model, first, calls.skip(first.len() as int), after, error);
    assert(first + calls.skip(first.len() as int) =~= calls);
}

/// What formatting one line does to a formatter whose model goes from `before`
/// to `after`, `r` being the result: a formatter that never fails succeeds; on
/// success the line's calls (see [`line_calls`]) were all handled, in order; on
/// failure the calls before one of them succeeded, that one failed with the
/// error returned, and no call followed. Both [`format_whole_line_inner`] and
/// [`LineFormatter::format_whole_line`] format a line so; the latter's default
/// is a call of the former.
pub open spec fn formats_line<F: Formatter>(
    before: F::Model,
    after: F::Model,
    r: Result<(), F::Error>,
    starting_offset: usize,
    part_offset: usize,
    bytes: Seq<u8>,
    line_size: usize,
    first: RefenceIndex,
    refs: Seq<Ref>,
) -> bool {
    let calls = line_calls(starting_offset, part_offset, bytes, line_size, first, refs);
    &&& F::never_fails() ==> r is Ok
    &&& r is Ok ==> after == apply_calls(|m: F::Model, c: FormatCall| F::handled(m, c), before, calls)
    &&& r is Err ==> fails_within::<F>(before, calls, after, r->Err_0)
}

/// The whole-line routine of a formatter.
///
/// A formatter that needs to peek on the whole line before formatting it
/// implements `format_whole_line` itself; otherwise the default calls
/// [`format_whole_line_inner`], and so makes exactly the calls it makes and
/// returns what it returns.
pub trait LineFormatter: Formatter {
    /// Formats one line: its offset, the hex chunks, the gap, the text chunks, the end of line.
    fn format_whole_line(
        &mut self,
        starting_offset: usize,
        part_offset: usize,
        bytes: &[u8],
        line_size: usize,
        references_starting_offset: RefenceIndex,
        references: &[Ref],
    ) -> (r: Result<(), Self::Error>)
        requires
            line_inputs_ok(
                part_offset,
                bytes@,
                line_size,
                references_starting_offset,
                references@,
            ),
        ensures
            formats_line::<Self>(
                old(self).model(),
                final(self).model(),
                r,
                starting_offset,
                part_offset,
                bytes@,
                line_size,
                references_starting_offset,
                references@,
            ),
    {
        format_whole_line_inner(
            self,
            starting_offset,
            part_offset,
            bytes,
            line_size,
            references_starting_offset,
            references,
        )
    }
}

/// The model after `step` has handled `calls`, in order.
pub open spec fn apply_calls<M>(
    step: spec_fn(M, FormatCall) -> M,
    model: M,
    calls: Seq<FormatCall>,
) -> M
    decreases calls.len(),
{
    if calls.len() == 0 {
        model
    } else {
        step(apply_calls(step, model, calls.drop_last()), calls.last())
    }
}

pub proof fn lemma_apply_push<M>(
    step: spec_fn(M, FormatCall) -> M,
    model: M,
    calls: Seq<FormatCall>,
    call: FormatCall,
)
    ensures
        apply_calls(step, model, calls.push(call)) == step(apply_calls(step, model, calls), call),
{
    assert(calls.push(call).drop_last() =~= calls);
}

/// Handling `a + b` is handling `a`, then `b`.
pub proof fn lemma_apply_concat<M>(
    step: spec_fn(M, FormatCall) -> M,
    model: M,
    a: Seq<FormatCall>,
    b: Seq<FormatCall>,
)
    ensures
        apply_calls(step, model, a + b) == apply_calls(step, apply_calls(step, model, a), b),
    decreases b.len(),
{
    if b.len() == 0 {
        assert(a + b =~= a);
    } else {
        lemma_apply_concat(step, model, a, b.drop_last());
        assert((a + b).drop_last() =~= a + b.drop_last());
    }
}

/// A chunk of a line: its offset in the line, its bytes, and the reference over it, if any.
pub struct LineChunk {
    pub line_offset: usize,
    pub bytes: Seq<u8>,
    pub reference: Option<FormatRefView>,
}

/// `a - b`, or 0 when `b > a`.
pub open spec fn sat_sub(a: usize, b: usize) -> usize {
    if a >= b {
        (a - b) as usize
    } else {
        0
    }
}

/// `a + b`, or `usize::MAX` when that overflows.
pub open spec fn sat_add(a: usize, b: usize) -> usize {
    if a + b <= usize::MAX {
        (a + b) as usize
    } else {
        usize::MAX
    }
}

/// How a reference lies on the line `[part_offset, part_offset + line_len)`.
pub open spec fn wrap_of(r: Ref, part_offset: usize, line_len: nat) -> RefWrap {
    if r.range.start < part_offset {
        RefWrap::End
    } else if r.range.end > part_offset + line_len {
        RefWrap::Start
    } else {
        RefWrap::Single
    }
}

/// What a line needs from the references passed with it: each is a valid range,
/// does not end before the line starts nor start after it ends, and each starts
/// no earlier than the previous one ends.
pub open spec fn refs_fit_line(part_offset: usize, line_len: nat, refs: Seq<Ref>) -> bool {
    &&& forall|i: int|
        #![trigger refs[i]]
        0 <= i < refs.len() ==> {
            &&& refs[i].range.start <= refs[i].range.end
            &&& part_offset <= refs[i].range.end
            &&& refs[i].range.start <= part_offset + line_len
        }
    &&& forall|i: int|
        0 <= i < refs.len() - 1 ==> #[trigger] refs[i].range.end <= refs[i + 1].range.start
}

/// The inputs on which formatting a line is defined.
pub open spec fn line_inputs_ok(
    part_offset: usize,
    bytes: Seq<u8>,
    line_size: usize,
    references_starting_offset: RefenceIndex,
    refs: Seq<Ref>,
) -> bool {
    &&& 1 <= line_size <= usize::MAX / 3
    &&& references_starting_offset >= 1
    &&& part_offset + bytes.len() <= usize::MAX
    &&& bytes.len() <= usize::MAX / 3
    &&& refs_fit_line(part_offset, bytes.len(), refs)
}

/// The chunks of a line from reference `i` on, the cursor standing at `cursor`:
/// the bytes before the reference (if any) without a reference, then the bytes
/// of the reference that lie on the line, then the rest; after the last reference,
/// the remaining bytes without a reference.
pub open spec fn chunks_from(
    part_offset: usize,
    bytes: Seq<u8>,
    first: RefenceIndex,
    refs: Seq<Ref>,
    i: int,
    cursor: int,
) -> Seq<LineChunk>
    decreases refs.len() - i,
{
    if i < 0 || i >= refs.len() {
        if cursor < bytes.len() {
            seq![
                LineChunk {
                    line_offset: cursor as usize,
                    bytes: bytes.subrange(cursor, bytes.len() as int),
                    reference: None,
                },
            ]
        } else {
            seq![]
        }
    } else {
        let r = refs[i];
        let start = sat_sub(r.range.start, part_offset) as int;
        let end = r.range.end - part_offset;
        let shown_end = if end < bytes.len() {
            end
        } else {
            bytes.len() as int
        };
        let marker = FormatRefView {
            reference: r,
            part_index: sat_add(first, i as usize),
            wrap_type: wrap_of(r, part_offset, bytes.len()),
        };
        let before = if cursor < start {
            seq![
                LineChunk {
                    line_offset: cursor as usize,
                    bytes: bytes.subrange(cursor, start),
                    reference: None,
                },
            ]
        } else {
            seq![]
        };
        let at = if cursor < start {
            start
        } else {
            cursor
        };
        before + seq![
            LineChunk {
                line_offset: at as usize,
                bytes: bytes.subrange(at, shown_end),
                reference: Some(marker),
            },
        ] + chunks_from(part_offset, bytes, first, refs, i + 1, end)
    }
}

/// The chunks a line of `bytes` (starting at `part_offset` in its part) is cut into.
pub open spec fn line_chunks(
    part_offset: usize,
    bytes: Seq<u8>,
    first: RefenceIndex,
    refs: Seq<Ref>,
) -> Seq<LineChunk> {
    chunks_from(part_offset, bytes, first, refs, 0, 0)
}

pub open spec fn hex_call(c: LineChunk) -> FormatCall {
    FormatCall::HexChunk { line_offset: c.line_offset, bytes: c.bytes, reference: c.reference }
}

pub open spec fn ascii_call(c: LineChunk) -> FormatCall {
    FormatCall::AsciiChunk { line_offset: c.line_offset, bytes: c.bytes, reference: c.reference }
}

/// Number of bytes missing from a line of `len` bytes to fill `line_size` columns.
pub open spec fn line_gap(len: nat, line_size: usize) -> int {
    (line_size - (len % (line_size as nat))) % (line_size as int)
}

/// The calls that format one line: the offset, the hex chunks, a gap for the
/// missing columns (if any), the text chunks, and the end of the line.
pub open spec fn line_calls(
    starting_offset: usize,
    part_offset: usize,
    bytes: Seq<u8>,
    line_size: usize,
    first: RefenceIndex,
    refs: Seq<Ref>,
) -> Seq<FormatCall> {
    let chunks = line_chunks(part_offset, bytes, first, refs);
    let gap = line_gap(bytes.len(), line_size);
    seq![FormatCall::Offset { offset: starting_offset }] + chunks.map_values(|c: LineChunk| hex_call(c))
        + (if gap != 0 {
        seq![FormatCall::HexGap { empty_bytes: gap as usize }]
    } else {
        seq![]
    }) + chunks.map_values(|c: LineChunk| ascii_call(c)) + seq![FormatCall::FlushLine]
}

/// A planned chunk: offset in the line, bytes, reference.
type Item<'a> = (usize, &'a [u8], Option<FormatRef<'a>>);

spec fn item_view<'a>(it: Item<'a>) -> LineChunk {
    LineChunk { line_offset: it.0, bytes: it.1@, reference: opt_ref_view(it.2) }
}

spec fn items_view<'a>(items: Seq<Item<'a>>) -> Seq<LineChunk> {
    items.map_values(|it: Item<'a>| item_view(it))
}

proof fn lemma_items_view_push<'a>(items: Seq<Item<'a>>, it: Item<'a>)
    ensures
        items_view(items.push(it)) == items_view(items).push(item_view(it)),
{
    assert(items_view(items.push(it)) =~= items_view(items).push(item_view(it)));
}

/// Cuts a line into chunks by its references.
fn inner_chunker<'a>(
    part_offset: usize,
    bytes: &'a [u8],
    references_starting_offset: RefenceIndex,
    references: &'a [Ref],
) -> (items: Vec<Item<'a>>)
    requires
        part_offset + bytes@.len() <= usize::MAX,
        refs_fit_line(part_offset, bytes@.len(), references@),
    ensures
        items_view(items@) == line_chunks(
            part_offset,
            bytes@,
            references_starting_offset,
            references@,
        ),
        forall|k: int|
            #![trigger items@[k]]
            0 <= k < items@.len() ==> (items@[k].2 matches Some(fr) ==> fr.part_index
                >= references_starting_offset),
        forall|k: int| #![trigger items@[k]] 0 <= k < items@.len() ==> items@[k].1@.len() <= bytes@.len(),
{
    let ghost po = part_offset;
    let ghost all = line_chunks(part_offset, bytes@, references_starting_offset, references@);
    let mut items: Vec<Item<'a>> = Vec::new();
    let mut cursor: usize = 0;
    let mut i: usize = 0;
    assert(items_view(items@) =~= Seq::<LineChunk>::empty());
    assert(all =~= items_view(items@) + chunks_from(
        part_offset,
        bytes@,
        references_starting_offset,
        references@,
        0,
        0,
    ));
    while i < references.len()
        invariant
            part_offset + bytes@.len() <= usize::MAX,
            refs_fit_line(part_offset, bytes@.len(), references@),
            i <= references@.len(),
            all == line_chunks(part_offset, bytes@, references_starting_offset, references@),
            all == items_view(items@) + chunks_from(
                part_offset,
                bytes@,
                references_starting_offset,
                references@,
                i as int,
                cursor as int,
            ),
            i == 0 ==> cursor == 0,
            i > 0 ==> cursor == references@[i - 1].range.end - part_offset,
            forall|k: int|
                #![trigger items@[k]]
                0 <= k < items@.len() ==> (items@[k].2 matches Some(fr) ==> fr.part_index
                    >= references_starting_offset),
            forall|k: int| #![trigger items@[k]] 0 <= k < items@.len() ==> items@[k].1@.len() <= bytes@.len(),
        decreases references@.len() - i,
    {
        let reference = &references[i];
        let index = references_starting_offset.saturating_add(i);
        let reference_start = reference.range.start.saturating_sub(part_offset);
        let wrap_type = if reference.range.start < part_offset {
            RefWrap::End
        } else if reference.range.end > part_offset + bytes.len() {
            RefWrap::Start
        } else {
            RefWrap::Single
        };
        let reference_end = reference.range.end - part_offset;
        assert(reference_start >= cursor) by {
            if i > 0 {
                assert(references@[i - 1].range.end <= references@[i as int].range.start);
            }
        }
        let ghost old_items = items@;
        let ghost old_cursor = cursor;
        if cursor < reference_start {
            let chunk = vstd::slice::slice_subrange(bytes, cursor, reference_start);
            proof {
                lemma_items_view_push(items@, (cursor, chunk, None));
            }
            items.push((cursor, chunk, None));
            cursor = reference_start;
        }
        let end = if reference_end < bytes.len() {
            reference_end
        } else {
            bytes.len()
        };
        let chunk = vstd::slice::slice_subrange(bytes, cursor, end);
        let fr = FormatRef { reference, part_index: index, wrap_type };
        proof {
            lemma_items_view_push(items@, (cursor, chunk, Some(fr)));
        }
        items.push((cursor, chunk, Some(fr)));
        proof {
            let rest = chunks_from(
                part_offset,
                bytes@,
                references_starting_offset,
                references@,
                i + 1,
                reference_end as int,
            );
            assert(fr@.wrap_type == wrap_of(references@[i as int], part_offset, bytes@.len()));
            assert(items_view(items@) + rest =~= items_view(old_items) + chunks_from(
                part_offset,
                bytes@,
                references_starting_offset,
                references@,
                i as int,
                old_cursor as int,
            ));
        }
        cursor = reference_end;
        i = i + 1;
    }
    if cursor < bytes.len() {
        let chunk = vstd::slice::slice_subrange(bytes, cursor, bytes.len());
        proof {
            lemma_items_view_push(items@, (cursor, chunk, None));
        }
        items.push((cursor, chunk, None));
        assert(all =~= items_view(items@));
    } else {
        assert(all =~= items_view(items@));
    }
    items
}

/// Default implementation of the whole line formatting routine, which can be used by implementors of `Formatter`.
///
/// The references must be sorted and non-overlapping, and each must reach into the line.
pub fn format_whole_line_inner<F: Formatter>(
    formatter: &mut F,
    starting_offset: usize,
    part_offset: usize,
    bytes: &[u8],
    line_size: usize,
    references_starting_offset: RefenceIndex,
    references: &[Ref],
) -> (r: Result<(), F::Error>)
    requires
        line_inputs_ok(part_offset, bytes@, line_size, references_starting_offset, references@),
    ensures
        formats_line::<F>(
            old(formatter).model(),
            final(formatter).model(),
            r,
            starting_offset,
            part_offset,
            bytes@,
            line_size,
            references_starting_offset,
            references@,
        ),
{
    let ghost m0 = formatter.model();
    let ghost all = line_calls(
        starting_offset,
        part_offset,
        bytes@,
        line_size,
        references_starting_offset,
        references@,
    );
    let ghost chunks = line_chunks(part_offset, bytes@, references_starting_offset, references@);
    let ghost hex = chunks.map_values(|c: LineChunk| hex_call(c));
    let ghost ascii = chunks.map_values(|c: LineChunk| ascii_call(c));
    let ghost gap_calls = if line_gap(bytes@.len(), line_size) != 0 {
        seq![FormatCall::HexGap { empty_bytes: line_gap(bytes@.len(), line_size) as usize }]
    } else {
        seq![]
    };
    assert(all == seq![FormatCall::Offset { offset: starting_offset }] + hex + gap_calls + ascii
        + seq![FormatCall::FlushLine]);
    match formatter.print_offset(starting_offset) {
        Ok(()) => {},
        Err(e) => {
            proof {
                let call = FormatCall::Offset { offset: starting_offset };
                lemma_fails_last::<F>(m0, Seq::<FormatCall>::empty(), call, formatter.model(), e);
                assert(Seq::<FormatCall>::empty().push(call) =~= all.take(1));
                lemma_fails_prefix::<F>(m0, Seq::<FormatCall>::empty().push(call), all, formatter.model(), e);
            }
            return Err(e);
        },
    }
    let ghost mut done: Seq<FormatCall> = seq![FormatCall::Offset { offset: starting_offset }];
    proof {
        lemma_apply_push(
            |m: F::Model, c: FormatCall| F::handled(m, c),
            m0,
            Seq::empty(),
            FormatCall::Offset { offset: starting_offset },
        );
        assert(Seq::<FormatCall>::empty().push(FormatCall::Offset { offset: starting_offset })
            =~= done);
    }
    let items = inner_chunker(part_offset, bytes, references_starting_offset, references);
    let n = items.len();
    let mut k: usize = 0;
    while k < n
        invariant
            n == items@.len(),
            k <= n,
            items_view(items@) == chunks,
            chunks.len() == n,
            hex == chunks.map_values(|c: LineChunk| hex_call(c)),
            done == seq![FormatCall::Offset { offset: starting_offset }] + hex.take(k as int),
            all == seq![FormatCall::Offset { offset: starting_offset }] + hex + gap_calls + ascii
                + seq![FormatCall::FlushLine],
            all == line_calls(
                starting_offset,
                part_offset,
                bytes@,
                line_size,
                references_starting_offset,
                references@,
            ),
            m0 == old(formatter).model(),
            formatter.model() == apply_calls(|m: F::Model, c: FormatCall| F::handled(m, c), m0, done),
            references_starting_offset >= 1,
            forall|j: int|
                #![trigger items@[j]]
                0 <= j < items@.len() ==> (items@[j].2 matches Some(fr) ==> fr.part_index
                    >= references_starting_offset),
            forall|j: int| #![trigger items@[j]] 0 <= j < items@.len() ==> items@[j].1@.len() <= bytes@.len(),
            bytes@.len() <= usize::MAX / 3,
        decreases n - k,
    {
        let (line_offset, chunk, reference) = items[k];
        assert(item_view(items@[k as int]) == chunks[k as int]);
        match formatter.print_hex_chunk(line_offset, chunk, reference) {
            Ok(()) => {},
            Err(e) => {
                proof {
                    let call = hex_call(chunks[k as int]);
                    lemma_fails_last::<F>(m0, done, call, formatter.model(), e);
                    assert(done.push(call) =~= all.take((done.len() + 1) as int));
                    lemma_fails_prefix::<F>(m0, done.push(call), all, formatter.model(), e);
                }
                return Err(e);
            },
        }
        proof {
            let call = hex_call(chunks[k as int]);
            lemma_apply_push(|m: F::Model, c: FormatCall| F::handled(m, c), m0, done, call);
            assert(done.push(call) =~= seq![FormatCall::Offset { offset: starting_offset }]
                + hex.take(k + 1));
            done = done.push(call);
        }
        k = k + 1;
    }
    assert(hex.take(n as int) =~= hex);
    let gap = (line_size - (bytes.len() % line_size)) % line_size;
    if gap != 0 {
        match formatter.add_hex_gap(gap) {
            Ok(()) => {},
            Err(e) => {
                proof {
                    let call = FormatCall::HexGap { empty_bytes: gap };
                    lemma_fails_last::<F>(m0, done, call, formatter.model(), e);
                    assert(done.push(call) =~= all.take((done.len() + 1) as int));
                    lemma_fails_prefix::<F>(m0, done.push(call), all, formatter.model(), e);
                }
                return Err(e);
            },
        }
        proof {
            let call = FormatCall::HexGap { empty_bytes: gap };
            lemma_apply_push(|m: F::Model, c: FormatCall| F::handled(m, c), m0, done, call);
            done = done.push(call);
        }
    }
    let ghost before_ascii = done;
    assert(before_ascii =~= seq![FormatCall::Offset { offset: starting_offset }] + hex + (if line_gap(
        bytes@.len(),
        line_size,
    ) != 0 {
        seq![FormatCall::HexGap { empty_bytes: line_gap(bytes@.len(), line_size) as usize }]
    } else {
        seq![]
    }));
    let mut k: usize = 0;
    while k < n
        invariant
            n == items@.len(),
            k <= n,
            items_view(items@) == chunks,
            chunks.len() == n,
            ascii == chunks.map_values(|c: LineChunk| ascii_call(c)),
            done == before_ascii + ascii.take(k as int),
            before_ascii == seq![FormatCall::Offset { offset: starting_offset }] + hex + gap_calls,
            all == seq![FormatCall::Offset { offset: starting_offset }] + hex + gap_calls + ascii
                + seq![FormatCall::FlushLine],
            all == line_calls(
                starting_offset,
                part_offset,
                bytes@,
                line_size,
                references_starting_offset,
                references@,
            ),
            m0 == old(formatter).model(),
            formatter.model() == apply_calls(|m: F::Model, c: FormatCall| F::handled(m, c), m0, done),
            references_starting_offset >= 1,
            forall|j: int|
                #![trigger items@[j]]
                0 <= j < items@.len() ==> (items@[j].2 matches Some(fr) ==> fr.part_index
                    >= references_starting_offset),
            forall|j: int| #![trigger items@[j]] 0 <= j < items@.len() ==> items@[j].1@.len() <= bytes@.len(),
            bytes@.len() <= usize::MAX / 3,
        decreases n - k,
    {
        let (line_offset, chunk, reference) = items[k];
        assert(item_view(items@[k as int]) == chunks[k as int]);
        match formatter.print_ascii_chunk(line_offset, chunk, reference) {
            Ok(()) => {},
            Err(e) => {
                proof {
                    let call = ascii_call(chunks[k as int]);
                    lemma_fails_last::<F>(m0, done, call, formatter.model(), e);
                    assert(done.push(call) =~= all.take((done.len() + 1) as int));
                    lemma_fails_prefix::<F>(m0, done.push(call), all, formatter.model(), e);
                }
                return Err(e);
            },
        }
        proof {
            let call = ascii_call(chunks[k as int]);
            lemma_apply_push(|m: F::Model, c: FormatCall| F::handled(m, c), m0, done, call);
            assert(done.push(call) =~= before_ascii + ascii.take(k + 1));
            done = done.push(call);
        }
        k = k + 1;
    }
    assert(ascii.take(n as int) =~= ascii);
    match formatter.flush_line() {
        Ok(()) => {},
        Err(e) => {
            proof {
                let call = FormatCall::FlushLine;
                lemma_fails_last::<F>(m0, done, call, formatter.model(), e);
                assert(done.push(call) =~= all.take((done.len() + 1) as int));
                lemma_fails_prefix::<F>(m0, done.push(call), all, formatter.model(), e);
            }
            return Err(e);
        },
    }
    proof {
        lemma_apply_push(|m: F::Model, c: FormatCall| F::handled(m, c), m0, done, FormatCall::FlushLine);
        done = done.push(FormatCall::FlushLine);
        assert(done =~= line_calls(
            starting_offset,
            part_offset,
            bytes@,
            line_size,
            references_starting_offset,
            references@,
        ));
    }
    Ok(())
}

/// The chunks lie end to end from offset `from`, each holding exactly the
/// bytes of `bytes` at its offset, and the last one ends where `bytes` ends.
pub open spec fn tiles(chunks: Seq<LineChunk>, bytes: Seq<u8>, from: int) -> bool
    decreases chunks.len(),
{
    if chunks.len() == 0 {
        from == bytes.len()
    } else {
        let c = chunks[0];
        &&& c.line_offset == from
        &&& from + c.bytes.len() <= bytes.len()
        &&& c.bytes == bytes.subrange(from, from + c.bytes.len())
        &&& tiles(chunks.drop_first(), bytes, from + c.bytes.len())
    }
}

/// The references the chunks carry, in order.
pub open spec fn chunk_refs(chunks: Seq<LineChunk>) -> Seq<FormatRefView>
    decreases chunks.len(),
{
    if chunks.len() == 0 {
        seq![]
    } else {
        (match chunks[0].reference {
            Some(r) => seq![r],
            None => seq![],
        }) + chunk_refs(chunks.drop_first())
    }
}

/// How reference `i` of a line is handed to the formatter.
pub open spec fn line_marker(
    part_offset: usize,
    len: nat,
    first: RefenceIndex,
    refs: Seq<Ref>,
    i: int,
) -> FormatRefView {
    FormatRefView {
        reference: refs[i],
        part_index: sat_add(first, i as usize),
        wrap_type: wrap_of(refs[i], part_offset, len),
    }
}

proof fn lemma_cons_unfold(c: LineChunk, rest: Seq<LineChunk>, bytes: Seq<u8>, from: int)
    ensures
        tiles(seq![c] + rest, bytes, from) == ({
            &&& c.line_offset == from
            &&& from + c.bytes.len() <= bytes.len()
            &&& c.bytes == bytes.subrange(from, from + c.bytes.len())
            &&& tiles(rest, bytes, from + c.bytes.len())
        }),
        chunk_refs(seq![c] + rest) == (match c.reference {
            Some(r) => seq![r],
            None => seq![],
        }) + chunk_refs(rest),
{
    assert((seq![c] + rest).drop_first() =~= rest);
    assert((seq![c] + rest)[0] == c);
}

proof fn lemma_chunks_from_tile(
    part_offset: usize,
    bytes: Seq<u8>,
    first: RefenceIndex,
    refs: Seq<Ref>,
    i: int,
    cursor: int,
)
    requires
        refs_fit_line(part_offset, bytes.len(), refs),
        bytes.len() <= usize::MAX,
        0 <= i <= refs.len(),
        0 <= cursor,
        i < refs.len() ==> cursor <= sat_sub(refs[i].range.start, part_offset),
    ensures
        tiles(
            chunks_from(part_offset, bytes, first, refs, i, cursor),
            bytes,
            if cursor < bytes.len() {
                cursor
            } else {
                bytes.len() as int
            },
        ),
        chunk_refs(chunks_from(part_offset, bytes, first, refs, i, cursor)) == Seq::new(
            (refs.len() - i) as nat,
            |j: int| line_marker(part_offset, bytes.len(), first, refs, i + j),
        ),
    decreases refs.len() - i,
{
    let chunks = chunks_from(part_offset, bytes, first, refs, i, cursor);
    let markers = Seq::new(
        (refs.len() - i) as nat,
        |j: int| line_marker(part_offset, bytes.len(), first, refs, i + j),
    );
    if i >= refs.len() {
        if cursor < bytes.len() {
            let c = LineChunk {
                line_offset: cursor as usize,
                bytes: bytes.subrange(cursor, bytes.len() as int),
                reference: None,
            };
            lemma_cons_unfold(c, seq![], bytes, cursor);
            assert(chunks =~= seq![c] + Seq::<LineChunk>::empty());
            assert(tiles(Seq::<LineChunk>::empty(), bytes, bytes.len() as int));
            assert(chunk_refs(Seq::<LineChunk>::empty()) =~= Seq::<FormatRefView>::empty());
        }
        assert(markers =~= Seq::<FormatRefView>::empty());
    } else {
        let r = refs[i];
        let start = sat_sub(r.range.start, part_offset) as int;
        let end = r.range.end - part_offset;
        let shown_end = if end < bytes.len() {
            end
        } else {
            bytes.len() as int
        };
        let marker = line_marker(part_offset, bytes.len(), first, refs, i);
        let m = LineChunk {
            line_offset: start as usize,
            bytes: bytes.subrange(start, shown_end),
            reference: Some(marker),
        };
        let rest = chunks_from(part_offset, bytes, first, refs, i + 1, end);
        if i + 1 < refs.len() {
            assert(refs[i].range.end <= refs[i + 1].range.start);
        }
        lemma_chunks_from_tile(part_offset, bytes, first, refs, i + 1, end);
        lemma_cons_unfold(m, rest, bytes, start);
        if cursor < start {
            let b = LineChunk {
                line_offset: cursor as usize,
                bytes: bytes.subrange(cursor, start),
                reference: None,
            };
            assert(chunks =~= seq![b] + (seq![m] + rest));
            lemma_cons_unfold(b, seq![m] + rest, bytes, cursor);
        } else {
            assert(chunks =~= seq![m] + rest);
        }
        assert(chunk_refs(chunks) =~= markers);
    }
}

/// A line's chunks lie end to end from its first byte to its last, each
/// holding exactly the bytes at its offset; and they carry the line's
/// references, each once and in order, numbered on from `first`.
pub proof fn line_chunks_tile_the_line(
    part_offset: usize,
    bytes: Seq<u8>,
    first: RefenceIndex,
    refs: Seq<Ref>,
)
    requires
        refs_fit_line(part_offset, bytes.len(), refs),
        part_offset + bytes.len() <= usize::MAX,
    ensures
        tiles(line_chunks(part_offset, bytes, first, refs), bytes, 0),
        chunk_refs(line_chunks(part_offset, bytes, first, refs)) == Seq::new(
            refs.len(),
            |i: int| line_marker(part_offset, bytes.len(), first, refs, i),
        ),
{
    lemma_chunks_from_tile(part_offset, bytes, first, refs, 0, 0);
    assert(Seq::new((refs.len() - 0) as nat, |j: int| line_marker(part_offset, bytes.len(), first, refs, 0 + j))
        =~= Seq::new(refs.len(), |i: int| line_marker(part_offset, bytes.len(), first, refs, i)));
}

/// How each reference of a line is handed to the formatter, by where it lies:
/// as `End` exactly when it started before the line; as `Start` exactly when it
/// starts on the line and goes on past the line's last byte; as `Single`
/// exactly when it starts on the line and ends at or before its last byte.
pub proof fn line_wraps_say_where_references_lie(
    part_offset: usize,
    bytes: Seq<u8>,
    first: RefenceIndex,
    refs: Seq<Ref>,
    i: int,
)
    requires
        refs_fit_line(part_offset, bytes.len(), refs),
        part_offset + bytes.len() <= usize::MAX,
        0 <= i < refs.len(),
    ensures
        ({
            let handed = chunk_refs(line_chunks(part_offset, bytes, first, refs))[i];
            let r = refs[i];
            &&& handed.reference == r
            &&& (handed.wrap_type == RefWrap::End) <==> r.range.start < part_offset
            &&& (handed.wrap_type == RefWrap::Start) <==> (part_offset <= r.range.start
                && r.range.end > part_offset + bytes.len())
            &&& (handed.wrap_type == RefWrap::Single) <==> (part_offset <= r.range.start
                && r.range.end <= part_offset + bytes.len())
        }),
{
    line_chunks_tile_the_line(part_offset, bytes, first, refs);
}

/// The bytes a call shows in the hex column (`text_column` false) or in the
/// text column (`text_column` true).
pub open spec fn call_bytes(call: FormatCall, text_column: bool) -> Seq<u8> {
    match call {
        FormatCall::HexChunk { bytes, .. } => if text_column {
            seq![]
        } else {
            bytes
        },
        FormatCall::AsciiChunk { bytes, .. } => if text_column {
            bytes
        } else {
            seq![]
        },
        _ => seq![],
    }
}

/// The bytes `pick` takes from each of `calls`, in order.
pub open spec fn collect_bytes(calls: Seq<FormatCall>, pick: spec_fn(FormatCall) -> Seq<u8>) -> Seq<
    u8,
>
    decreases calls.len(),
{
    if calls.len() == 0 {
        seq![]
    } else {
        collect_bytes(calls.drop_last(), pick) + pick(calls.last())
    }
}

pub open spec fn column_pick(text_column: bool) -> spec_fn(FormatCall) -> Seq<u8> {
    |c: FormatCall| call_bytes(c, text_column)
}

/// The bytes `calls` show in a column, in order.
pub open spec fn column_bytes(calls: Seq<FormatCall>, text_column: bool) -> Seq<u8> {
    collect_bytes(calls, column_pick(text_column))
}

pub proof fn lemma_collect_concat(
    a: Seq<FormatCall>,
    b: Seq<FormatCall>,
    pick: spec_fn(FormatCall) -> Seq<u8>,
)
    ensures
        collect_bytes(a + b, pick) == collect_bytes(a, pick) + collect_bytes(b, pick),
    decreases b.len(),
{
    if b.len() == 0 {
        assert(a + b =~= a);
        assert(collect_bytes(a, pick) + collect_bytes(b, pick) =~= collect_bytes(a, pick));
    } else {
        lemma_collect_concat(a, b.drop_last(), pick);
        assert((a + b).drop_last() =~= a + b.drop_last());
        assert(collect_bytes(a + b, pick) =~= collect_bytes(a, pick) + collect_bytes(b, pick));
    }
}

pub proof fn lemma_collect_single(c: FormatCall, pick: spec_fn(FormatCall) -> Seq<u8>)
    ensures
        collect_bytes(seq![c], pick) == pick(c),
{
    let e = seq![c].drop_last();
    assert(e =~= Seq::<FormatCall>::empty());
    assert(collect_bytes(e, pick) =~= Seq::<u8>::empty());
    assert(collect_bytes(seq![c], pick) == collect_bytes(e, pick) + pick(c));
    assert(collect_bytes(seq![c], pick) =~= pick(c));
}

/// Calls from which `pick` takes nothing give nothing together.
pub proof fn lemma_collect_none(calls: Seq<FormatCall>, pick: spec_fn(FormatCall) -> Seq<u8>)
    requires
        forall|k: int| 0 <= k < calls.len() ==> pick(#[trigger] calls[k]) == Seq::<u8>::empty(),
    ensures
        collect_bytes(calls, pick) == Seq::<u8>::empty(),
    decreases calls.len(),
{
    if calls.len() > 0 {
        let shorter = calls.drop_last();
        assert forall|k: int| 0 <= k < shorter.len() implies pick(#[trigger] shorter[k])
            == Seq::<u8>::empty() by {
            assert(shorter[k] == calls[k]);
        }
        lemma_collect_none(shorter, pick);
        assert(pick(calls.last()) == Seq::<u8>::empty());
        assert(collect_bytes(calls, pick) =~= Seq::<u8>::empty());
    }
}

pub proof fn lemma_column_bytes_concat(a: Seq<FormatCall>, b: Seq<FormatCall>, text_column: bool)
    ensures
        column_bytes(a + b, text_column) == column_bytes(a, text_column) + column_bytes(
            b,
            text_column,
        ),
{
    lemma_collect_concat(a, b, column_pick(text_column));
}

/// Calls that are not chunks of a column show nothing in it.
pub proof fn lemma_no_column_bytes(calls: Seq<FormatCall>, text_column: bool)
    requires
        forall|k: int| 0 <= k < calls.len() ==> call_bytes(#[trigger] calls[k], text_column)
            == Seq::<u8>::empty(),
    ensures
        column_bytes(calls, text_column) == Seq::<u8>::empty(),
{
    assert forall|k: int| 0 <= k < calls.len() implies column_pick(text_column)(#[trigger] calls[k])
        == Seq::<u8>::empty() by {
        assert(call_bytes(calls[k], text_column) == Seq::<u8>::empty());
    }
    lemma_collect_none(calls, column_pick(text_column));
}

proof fn lemma_tiled_chunk_bytes(
    chunks: Seq<LineChunk>,
    bytes: Seq<u8>,
    from: int,
    f: spec_fn(LineChunk) -> FormatCall,
    text_column: bool,
)
    requires
        tiles(chunks, bytes, from),
        0 <= from,
        forall|c: LineChunk| #[trigger] call_bytes(f(c), text_column) == c.bytes,
    ensures
        column_bytes(chunks.map_values(f), text_column) == bytes.subrange(from, bytes.len() as int),
    decreases chunks.len(),
{
    if chunks.len() == 0 {
        assert(chunks.map_values(f) =~= Seq::<FormatCall>::empty());
        assert(bytes.subrange(from, bytes.len() as int) =~= Seq::<u8>::empty());
    } else {
        let c = chunks[0];
        let rest = chunks.drop_first();
        lemma_tiled_chunk_bytes(rest, bytes, from + c.bytes.len(), f, text_column);
        assert(chunks.map_values(f) =~= seq![f(c)] + rest.map_values(f));
        lemma_column_bytes_concat(seq![f(c)], rest.map_values(f), text_column);
        lemma_collect_single(f(c), column_pick(text_column));
        assert(call_bytes(f(c), text_column) == c.bytes);
        assert(bytes.subrange(from, bytes.len() as int) =~= c.bytes + bytes.subrange(
            from + c.bytes.len(),
            bytes.len() as int,
        ));
    }
}

/// Formatting a line shows each of its bytes once, in order, in the hex
/// column, and likewise in the text column.
pub proof fn line_shows_every_byte_once(
    starting_offset: usize,
    part_offset: usize,
    bytes: Seq<u8>,
    line_size: usize,
    first: RefenceIndex,
    refs: Seq<Ref>,
)
    requires
        line_inputs_ok(part_offset, bytes, line_size, first, refs),
    ensures
        column_bytes(line_calls(starting_offset, part_offset, bytes, line_size, first, refs), false)
            == bytes,
        column_bytes(line_calls(starting_offset, part_offset, bytes, line_size, first, refs), true)
            == bytes,
{
    let chunks = line_chunks(part_offset, bytes, first, refs);
    line_chunks_tile_the_line(part_offset, bytes, first, refs);
    let hex = chunks.map_values(|c: LineChunk| hex_call(c));
    let ascii = chunks.map_values(|c: LineChunk| ascii_call(c));
    let gap = line_gap(bytes.len(), line_size);
    let gap_calls = if gap != 0 {
        seq![FormatCall::HexGap { empty_bytes: gap as usize }]
    } else {
        seq![]
    };
    let head = seq![FormatCall::Offset { offset: starting_offset }];
    let tail = seq![FormatCall::FlushLine];
    assert forall|text_column: bool| #[trigger] column_bytes(head, text_column) == Seq::<u8>::empty()
        && column_bytes(tail, text_column) == Seq::<u8>::empty() && column_bytes(gap_calls, text_column)
        == Seq::<u8>::empty() by {
        lemma_collect_single(FormatCall::Offset { offset: starting_offset }, column_pick(text_column));
        lemma_collect_single(FormatCall::FlushLine, column_pick(text_column));
        if gap != 0 {
            lemma_collect_single(
                FormatCall::HexGap { empty_bytes: gap as usize },
                column_pick(text_column),
            );
        }
    }
    let hf = |c: LineChunk| hex_call(c);
    let af = |c: LineChunk| ascii_call(c);
    assert(hex == chunks.map_values(hf));
    assert(ascii == chunks.map_values(af));
    lemma_tiled_chunk_bytes(chunks, bytes, 0, hf, false);
    lemma_tiled_chunk_bytes(chunks, bytes, 0, af, true);
    lemma_no_column_bytes(hex, true);
    lemma_no_column_bytes(ascii, false);
    assert(bytes.subrange(0, bytes.len() as int) =~= bytes);
    let calls = line_calls(starting_offset, part_offset, bytes, line_size, first, refs);
    assert(calls == head + hex + gap_calls + ascii + tail);
    assert forall|text_column: bool| #[trigger] column_bytes(calls, text_column) == bytes by {
        lemma_column_bytes_concat(head + hex + gap_calls + ascii, tail, text_column);
        lemma_column_bytes_concat(head + hex + gap_calls, ascii, text_column);
        lemma_column_bytes_concat(head + hex, gap_calls, text_column);
        lemma_column_bytes_concat(head, hex, text_column);
        assert(column_bytes(calls, text_column) =~= bytes);
    }
    assert(column_bytes(calls, false) == bytes);
    assert(column_bytes(calls, true) == bytes);
}

/// The bytes a call shows highlighted as reference number `index`, in the hex
/// column (`text_column` false) or in the text column.
pub open spec fn marked_call_bytes(call: FormatCall, index: RefenceIndex, text_column: bool) -> Seq<
    u8,
> {
    match call {
        FormatCall::HexChunk { bytes, reference, .. } => if !text_column && (reference matches Some(
            r,
        ) && r.part_index == index) {
            bytes
        } else {
            seq![]
        },
        FormatCall::AsciiChunk { bytes, reference, .. } => if text_column && (reference matches Some(
            r,
        ) && r.part_index == index) {
            bytes
        } else {
            seq![]
        },
        _ => seq![],
    }
}

pub open spec fn marked_pick(index: RefenceIndex, text_column: bool) -> spec_fn(FormatCall) -> Seq<
    u8,
> {
    |c: FormatCall| marked_call_bytes(c, index, text_column)
}

/// The bytes of the chunks carrying reference number `index`, in order.
pub open spec fn chunk_marked(chunks: Seq<LineChunk>, index: RefenceIndex) -> Seq<u8>
    decreases chunks.len(),
{
    if chunks.len() == 0 {
        seq![]
    } else {
        (if chunks[0].reference matches Some(r) && r.part_index == index {
            chunks[0].bytes
        } else {
            seq![]
        }) + chunk_marked(chunks.drop_first(), index)
    }
}

/// Where a reference starts on a line starting at `part_offset`.
pub open spec fn start_on_line(r: Ref, part_offset: usize) -> int {
    sat_sub(r.range.start, part_offset) as int
}

/// Where a reference ends on a line of `len` bytes starting at `part_offset`.
pub open spec fn end_on_line(r: Ref, part_offset: usize, len: nat) -> int {
    if r.range.end - part_offset < len {
        r.range.end - part_offset
    } else {
        len as int
    }
}

proof fn lemma_chunk_marked_cons(c: LineChunk, rest: Seq<LineChunk>, index: RefenceIndex)
    ensures
        chunk_marked(seq![c] + rest, index) == (if c.reference matches Some(r) && r.part_index
            == index {
            c.bytes
        } else {
            seq![]
        }) + chunk_marked(rest, index),
{
    assert((seq![c] + rest).drop_first() =~= rest);
    assert((seq![c] + rest)[0] == c);
}

proof fn lemma_chunks_from_marks(
    part_offset: usize,
    bytes: Seq<u8>,
    first: RefenceIndex,
    refs: Seq<Ref>,
    i: int,
    cursor: int,
    index: RefenceIndex,
)
    requires
        refs_fit_line(part_offset, bytes.len(), refs),
        first + refs.len() <= usize::MAX,
        0 <= i <= refs.len(),
        0 <= cursor,
        i < refs.len() ==> cursor <= sat_sub(refs[i].range.start, part_offset),
    ensures
        chunk_marked(chunks_from(part_offset, bytes, first, refs, i, cursor), index) == if first
            + i <= index < first + refs.len() {
            bytes.subrange(
                start_on_line(refs[index - first], part_offset),
                end_on_line(refs[index - first], part_offset, bytes.len()),
            )
        } else {
            seq![]
        },
    decreases refs.len() - i,
{
    let chunks = chunks_from(part_offset, bytes, first, refs, i, cursor);
    if i >= refs.len() {
        if cursor < bytes.len() {
            let c = LineChunk {
                line_offset: cursor as usize,
                bytes: bytes.subrange(cursor, bytes.len() as int),
                reference: None,
            };
            lemma_chunk_marked_cons(c, seq![], index);
            assert(chunks =~= seq![c] + Seq::<LineChunk>::empty());
        }
        assert(chunk_marked(chunks, index) =~= Seq::<u8>::empty());
    } else {
        let r = refs[i];
        let start = sat_sub(r.range.start, part_offset) as int;
        let end = r.range.end - part_offset;
        let shown_end = if end < bytes.len() {
            end
        } else {
            bytes.len() as int
        };
        let marker = line_marker(part_offset, bytes.len(), first, refs, i);
        let m = LineChunk {
            line_offset: start as usize,
            bytes: bytes.subrange(start, shown_end),
            reference: Some(marker),
        };
        let rest = chunks_from(part_offset, bytes, first, refs, i + 1, end);
        if i + 1 < refs.len() {
            assert(refs[i].range.end <= refs[i + 1].range.start);
        }
        lemma_chunks_from_marks(part_offset, bytes, first, refs, i + 1, end, index);
        lemma_chunk_marked_cons(m, rest, index);
        if cursor < start {
            let b = LineChunk {
                line_offset: cursor as usize,
                bytes: bytes.subrange(cursor, start),
                reference: None,
            };
            assert(chunks =~= seq![b] + (seq![m] + rest));
            lemma_chunk_marked_cons(b, seq![m] + rest, index);
        } else {
            assert(chunks =~= seq![m] + rest);
        }
        assert(marker.part_index == first + i);
        assert(chunk_marked(chunks, index) =~= if first + i <= index < first + refs.len() {
            bytes.subrange(
                start_on_line(refs[index - first], part_offset),
                end_on_line(refs[index - first], part_offset, bytes.len()),
            )
        } else {
            seq![]
        });
    }
}

proof fn lemma_collect_marked(
    chunks: Seq<LineChunk>,
    f: spec_fn(LineChunk) -> FormatCall,
    index: RefenceIndex,
    text_column: bool,
)
    requires
        forall|c: LineChunk|
            #[trigger] marked_call_bytes(f(c), index, text_column) == (if c.reference matches Some(
                r,
            ) && r.part_index == index {
                c.bytes
            } else {
                seq![]
            }),
    ensures
        collect_bytes(chunks.map_values(f), marked_pick(index, text_column)) == chunk_marked(
            chunks,
            index,
        ),
    decreases chunks.len(),
{
    let pick = marked_pick(index, text_column);
    if chunks.len() == 0 {
        assert(chunks.map_values(f) =~= Seq::<FormatCall>::empty());
    } else {
        let c = chunks[0];
        let rest = chunks.drop_first();
        lemma_collect_marked(rest, f, index, text_column);
        assert(chunks.map_values(f) =~= seq![f(c)] + rest.map_values(f));
        lemma_collect_concat(seq![f(c)], rest.map_values(f), pick);
        lemma_collect_single(f(c), pick);
        assert(marked_call_bytes(f(c), index, text_column) == (if c.reference matches Some(r)
            && r.part_index == index {
            c.bytes
        } else {
            seq![]
        }));
    }
}

/// Formatting a line highlights exactly the bytes of each of its references:
/// the chunks numbered as reference `j` of the line hold the part of its range
/// that lies on the line, in the hex column and in the text column; no other
/// number is highlighted.
pub proof fn line_marks_each_reference(
    starting_offset: usize,
    part_offset: usize,
    bytes: Seq<u8>,
    line_size: usize,
    first: RefenceIndex,
    refs: Seq<Ref>,
    index: RefenceIndex,
    text_column: bool,
)
    requires
        line_inputs_ok(part_offset, bytes, line_size, first, refs),
        first + refs.len() <= usize::MAX,
    ensures
        collect_bytes(
            line_calls(starting_offset, part_offset, bytes, line_size, first, refs),
            marked_pick(index, text_column),
        ) == if first <= index < first + refs.len() {
            bytes.subrange(
                start_on_line(refs[index - first], part_offset),
                end_on_line(refs[index - first], part_offset, bytes.len()),
            )
        } else {
            seq![]
        },
{
    let pick = marked_pick(index, text_column);
    let chunks = line_chunks(part_offset, bytes, first, refs);
    lemma_chunks_from_marks(part_offset, bytes, first, refs, 0, 0, index);
    let hex = chunks.map_values(|c: LineChunk| hex_call(c));
    let ascii = chunks.map_values(|c: LineChunk| ascii_call(c));
    let hf = |c: LineChunk| hex_call(c);
    let af = |c: LineChunk| ascii_call(c);
    assert(hex == chunks.map_values(hf));
    assert(ascii == chunks.map_values(af));
    let gap = line_gap(bytes.len(), line_size);
    let gap_calls = if gap != 0 {
        seq![FormatCall::HexGap { empty_bytes: gap as usize }]
    } else {
        seq![]
    };
    let head = seq![FormatCall::Offset { offset: starting_offset }];
    let tail = seq![FormatCall::FlushLine];
    lemma_collect_single(FormatCall::Offset { offset: starting_offset }, pick);
    lemma_collect_single(FormatCall::FlushLine, pick);
    if gap != 0 {
        lemma_collect_single(FormatCall::HexGap { empty_bytes: gap as usize }, pick);
    } else {
        assert(collect_bytes(gap_calls, pick) =~= Seq::<u8>::empty());
    }
    if text_column {
        lemma_collect_marked(chunks, af, index, text_column);
        assert forall|k: int| 0 <= k < hex.len() implies pick(#[trigger] hex[k]) == Seq::<u8>::empty() by {
            assert(hex[k] == hex_call(chunks[k]));
        }
        lemma_collect_none(hex, pick);
    } else {
        lemma_collect_marked(chunks, hf, index, text_column);
        assert forall|k: int| 0 <= k < ascii.len() implies pick(#[trigger] ascii[k]) == Seq::<u8>::empty() by {
            assert(ascii[k] == ascii_call(chunks[k]));
        }
        lemma_collect_none(ascii, pick);
    }
    let calls = line_calls(starting_offset, part_offset, bytes, line_size, first, refs);
    assert(calls == head + hex + gap_calls + ascii + tail);
    lemma_collect_concat(head + hex + gap_calls + ascii, tail, pick);
    lemma_collect_concat(head + hex + gap_calls, ascii, pick);
    lemma_collect_concat(head + hex, gap_calls, pick);
    lemma_collect_concat(head, hex, pick);
    assert(collect_bytes(calls, pick) =~= chunk_marked(chunks, index));
}

} // verus!
