//!
//! Library for rendering hexdump with additional semantic information.
//! - Add spans to hexdump in order to visualize range of bytes corresponding to a specific reference;
//! - Zero copy: a part can borrow its bytes;
//! - Allow customization of output formats (e.g. enhance with colors, split dump into smaller ranges etc.);
//!
use std::borrow::Cow;
use std::ops::Range;
use vstd::prelude::*;

pub mod formatter;
pub mod layout;
mod text;

pub use crate::formatter::ColorFormatter;
use crate::formatter::{
    apply_calls, fails_within, lemma_apply_concat, lemma_apply_push, lemma_fails_after,
    lemma_fails_extend, lemma_fails_last, lemma_fails_prefix, FormatCall, LineFormatter,
};
use crate::layout::{
    chained, dump_calls, ends_by, insert_position, legend_calls, lemma_chained_disjoint,
    lemma_insert_position_sorted, lemma_leading_count, lemma_leading_count_unique,
    lemma_dump_calls_prefix, lemma_lines_calls_prefix, lemma_next_window, lemma_sorted_by_start,
    lemma_sorted_by_start_members, lemma_window_fits, line_count, lines_calls, part_calls,
    part_line_calls, has_part, render_calls, sorted_by_start, starts_by, starts_sorted, window_start,
};

verus! {

/// Format settings of a dump.
#[derive(Debug, PartialEq, Eq, Structural)]
pub struct FormatConfig {
    color: bool,
}

impl View for FormatConfig {
    /// Whether references are highlighted with colors.
    type V = bool;

    closed spec fn view(&self) -> bool {
        self.color
    }
}

impl FormatConfig {
    pub fn new() -> (c: Self)
        ensures
            c@,
    {
        FormatConfig { color: true }
    }

    fn set_color(&mut self, color: bool)
        ensures
            final(self)@ == color,
    {
        self.color = color;
    }
}

impl Default for FormatConfig {
    fn default() -> (c: Self)
        ensures
            c@,
    {
        Self::new()
    }
}

/// Offset of the first byte of a part or gap in the dump.
pub type StartingOffset = usize;

/// An entry of a dump: a gap of some bytes, which is not rendered, or a part of data.
#[derive(Debug, PartialEq, Eq)]
pub enum GapOrPart<'a> {
    Gap(usize),
    Part(DataPart<'a>),
}

/// Number of bytes an entry takes up in the dump.
pub open spec fn entry_len<'a>(entry: GapOrPart<'a>) -> nat {
    match entry {
        GapOrPart::Gap(n) => n as nat,
        GapOrPart::Part(p) => p.bytes@.len(),
    }
}

/// The content of a [`SemanticDump`].
pub struct DumpView<'src> {
    /// The entries, each with the offset of its first byte.
    pub parts: Seq<(StartingOffset, GapOrPart<'src>)>,
    /// The offset of the first byte of the dump.
    pub start: StartingOffset,
    /// Whether colors are enabled.
    pub color: bool,
}

impl<'src> DumpView<'src> {
    /// The offset of the next byte to be added.
    pub open spec fn end_offset(self) -> int {
        if self.parts.len() == 0 {
            self.start as int
        } else {
            self.parts.last().0 + entry_len(self.parts.last().1)
        }
    }

    /// Entries follow each other without holes, starting at `start`, and all
    /// offsets fit in `usize`.
    pub open spec fn wf(self) -> bool {
        &&& forall|i: int|
            #![trigger self.parts[i]]
            0 <= i < self.parts.len() ==> self.parts[i].0 + entry_len(self.parts[i].1)
                <= usize::MAX
        &&& self.parts.len() > 0 ==> self.parts[0].0 == self.start
        &&& forall|i: int|
            #![trigger self.parts[i]]
            1 <= i < self.parts.len() ==> self.parts[i].0 == self.parts[i - 1].0 + entry_len(
                self.parts[i - 1].1,
            )
    }

    /// Every data part has well formed references.
    pub open spec fn parts_wf(self) -> bool {
        forall|i: int|
            #![trigger self.parts[i]]
            0 <= i < self.parts.len() ==> (self.parts[i].1 matches GapOrPart::Part(p) ==> p.wf())
    }
}

/// Total number of bytes of the entries.
pub open spec fn total_len<'a>(parts: Seq<(StartingOffset, GapOrPart<'a>)>) -> nat
    decreases parts.len(),
{
    if parts.len() == 0 {
        0
    } else {
        total_len(parts.drop_last()) + entry_len(parts.last().1)
    }
}

///
/// Main entrypoint of semantic dump.
///
/// 1. It provides interface for building the dump by pushing parts of data and references to them.
/// 2. It provides interface for rendering the dump using custom `Formatter` implementation.
///
#[derive(Debug, PartialEq, Eq)]
pub struct SemanticDump<'src> {
    parts: Vec<(StartingOffset, GapOrPart<'src>)>,
    va_start: StartingOffset,
    config: FormatConfig,
}

impl<'src> View for SemanticDump<'src> {
    type V = DumpView<'src>;

    closed spec fn view(&self) -> DumpView<'src> {
        DumpView { parts: self.parts@, start: self.va_start, color: self.config@ }
    }
}

impl<'src> SemanticDump<'src> {
    /// Every dump is well formed: its entries lie end to end.
    #[verifier::type_invariant]
    spec fn entries_lie_end_to_end(&self) -> bool {
        self@.wf()
    }
}

/// The offset of the next byte is the starting offset plus the sizes of all
/// parts and gaps pushed so far.
pub proof fn offset_is_start_plus_sizes<'src>(dump: DumpView<'src>)
    requires
        dump.wf(),
    ensures
        dump.end_offset() == dump.start + total_len(dump.parts),
    decreases dump.parts.len(),
{
    if dump.parts.len() > 0 {
        let shorter = DumpView { parts: dump.parts.drop_last(), ..dump };
        offset_is_start_plus_sizes(shorter);
    }
}

/// The index of the first data part whose bytes contain `range`.
pub open spec fn first_containing<'a>(
    parts: Seq<(StartingOffset, GapOrPart<'a>)>,
    range: Range<usize>,
) -> Option<int>
    decreases parts.len(),
{
    if parts.len() == 0 {
        None
    } else if contains_range(parts[0], range) {
        Some(0)
    } else {
        match first_containing(parts.drop_first(), range) {
            Some(k) => Some(k + 1),
            None => None,
        }
    }
}

/// Whether `entry` is a data part whose bytes contain `range`.
pub open spec fn contains_range<'a>(entry: (StartingOffset, GapOrPart<'a>), range: Range<usize>) -> bool {
    &&& entry.1 is Part
    &&& range.start >= entry.0
    &&& range.end <= entry.0 + entry_len(entry.1)
}

proof fn lemma_first_containing<'a>(
    parts: Seq<(StartingOffset, GapOrPart<'a>)>,
    range: Range<usize>,
    k: int,
)
    requires
        0 <= k < parts.len(),
        contains_range(parts[k], range),
        forall|j: int| 0 <= j < k ==> !contains_range(#[trigger] parts[j], range),
    ensures
        first_containing(parts, range) == Some(k),
    decreases k,
{
    if k > 0 {
        let rest = parts.drop_first();
        assert forall|j: int| 0 <= j < k - 1 implies !contains_range(#[trigger] rest[j], range) by {
            assert(rest[j] == parts[j + 1]);
        }
        lemma_first_containing(rest, range, k - 1);
    }
}

proof fn lemma_first_containing_is_first<'a>(
    parts: Seq<(StartingOffset, GapOrPart<'a>)>,
    range: Range<usize>,
)
    ensures
        first_containing(parts, range) matches Some(k) ==> 0 <= k < parts.len() && contains_range(
            parts[k],
            range,
        ),
    decreases parts.len(),
{
    if parts.len() > 0 && !contains_range(parts[0], range) {
        lemma_first_containing_is_first(parts.drop_first(), range);
    }
}

impl<'src> SemanticDump<'src> {
    ///
    /// Creates a new empty [`SemanticDump`].
    ///
    /// `starting_offset` is the initial offset for the first byte in the dump.
    pub fn new(starting_offset: usize) -> (d: Self)
        ensures
            d@.parts == Seq::<(StartingOffset, GapOrPart<'src>)>::empty(),
            d@.start == starting_offset,
            d@.color,
            d@.wf(),
    {
        SemanticDump { parts: Vec::new(), va_start: starting_offset, config: FormatConfig::default() }
    }

    fn push_inner(&mut self, part: GapOrPart<'src>)
        requires
            old(self)@.end_offset() + entry_len(part) <= usize::MAX,
        ensures
            final(self)@ == (DumpView {
                parts: old(self)@.parts.push((old(self)@.end_offset() as usize, part)),
                ..old(self)@
            }),
            final(self)@.wf(),
    {
        proof {
            use_type_invariant(&*self);
        }
        let offset = self.offset();
        let mut parts: Vec<(StartingOffset, GapOrPart<'src>)> = Vec::new();
        std::mem::swap(&mut parts, &mut self.parts);
        parts.push((offset, part));
        proof {
            let v = DumpView { parts: parts@, ..old(self)@ };
            assert forall|i: int| 1 <= i < v.parts.len() implies #[trigger] v.parts[i].0 == v.parts[i
                - 1].0 + entry_len(v.parts[i - 1].1) by {
                if i < v.parts.len() - 1 {
                    assert(v.parts[i] == old(self)@.parts[i]);
                }
            }
            assert(v.wf());
        }
        self.parts = parts;
    }

    /// Sets whether to use ANSI color code for highlighting references in the hexdump.
    ///
    /// Rendering hands the setting to the formatter first (see
    /// [`Formatter::use_color`](crate::formatter::Formatter::use_color)); a
    /// [`ColorFormatter`] then draws no colors when it is off.
    pub fn set_color(&mut self, color: bool) -> (r: &mut Self)
        ensures
            r@ == (DumpView { color, ..old(self)@ }),
            *final(self) == *final(r),
    {
        proof {
            use_type_invariant(&*self);
        }
        let mut config = FormatConfig::new();
        std::mem::swap(&mut config, &mut self.config);
        config.set_color(color);
        self.config = config;
        self
    }

    ///
    /// Pushes a new section of data with its associated references.
    /// Checkout [`DataPart`] for details.
    ///
    /// ## Note: all parts are rendered sequentially,
    /// so the offset of each part is started right after the previous one.
    pub fn push_part(&mut self, part: DataPart<'src>) -> (r: &mut Self)
        requires
            old(self)@.end_offset() + part.bytes@.len() <= usize::MAX,
        ensures
            r@ == (DumpView {
                parts: old(self)@.parts.push((old(self)@.end_offset() as usize, GapOrPart::Part(part))),
                ..old(self)@
            }),
            r@.wf(),
            old(self)@.parts_wf() && part.wf() ==> r@.parts_wf(),
            *final(self) == *final(r),
    {
        self.push_inner(GapOrPart::Part(part));
        self
    }

    /// Returns the current offset in the dump, which is the offset of the next byte to be added.
    pub fn offset(&self) -> (r: usize)
        ensures
            r == self@.end_offset(),
    {
        proof {
            use_type_invariant(self);
        }
        if self.parts.len() == 0 {
            self.va_start
        } else {
            let last = &self.parts[self.parts.len() - 1];
            match &last.1 {
                GapOrPart::Gap(gap_size) => last.0 + *gap_size,
                GapOrPart::Part(data_part) => last.0 + data_part.byte_slice().len(),
            }
        }
    }

    ///
    /// Add a gap of `num_bytes` zero bytes to the dump.
    /// Useful for visual separation of different sections.
    ///
    /// This gap will not be rendered in the hexdump.
    /// References to this gap are not allowed.
    ///
    /// ## Note: all parts are rendered sequentially,
    /// so the offset of each part is started right after the previous one.
    pub fn push_gap(&mut self, num_bytes: usize) -> (r: &mut Self)
        requires
            old(self)@.end_offset() + num_bytes <= usize::MAX,
        ensures
            r@ == (DumpView {
                parts: old(self)@.parts.push((old(self)@.end_offset() as usize, GapOrPart::Gap(num_bytes))),
                ..old(self)@
            }),
            r@.wf(),
            old(self)@.parts_wf() ==> r@.parts_wf(),
            *final(self) == *final(r),
    {
        self.push_inner(GapOrPart::Gap(num_bytes));
        self
    }
}

/// `range` made relative to a part starting at `base`.
pub open spec fn local_range(range: Range<usize>, base: usize) -> Range<usize> {
    Range { start: (range.start - base) as usize, end: (range.end - base) as usize }
}

impl<'src> DumpView<'src> {
    /// A reference over `range` can be added to the first data part containing it.
    pub open spec fn can_add_global_ref(self, range: Range<usize>) -> bool {
        range.start <= range.end && match first_containing(self.parts, range) {
            Some(k) => match self.parts[k].1 {
                GapOrPart::Part(p) => p.can_push_ref(local_range(range, self.parts[k].0)),
                GapOrPart::Gap(_) => false,
            },
            None => false,
        }
    }

    /// `after` is `before` with a reference named `name` over `range` added to the
    /// first data part containing `range`, in that part's coordinates.
    pub open spec fn global_ref_added(
        before: DumpView<'src>,
        after: DumpView<'src>,
        range: Range<usize>,
        name: Seq<char>,
    ) -> bool {
        let k = first_containing(before.parts, range).unwrap();
        &&& after.start == before.start
        &&& after.color == before.color
        &&& after.parts.len() == before.parts.len()
        &&& forall|j: int|
            #![trigger after.parts[j]]
            0 <= j < after.parts.len() && j != k ==> after.parts[j] == before.parts[j]
        &&& after.parts[k].0 == before.parts[k].0
        &&& match (before.parts[k].1, after.parts[k].1) {
            (GapOrPart::Part(p), GapOrPart::Part(q)) => DataPart::ref_pushed(
                p,
                q,
                local_range(range, before.parts[k].0),
                name,
            ),
            _ => false,
        }
    }
}

/// Whether `entry` is a data part whose bytes contain `range`.
fn entry_contains(entry: &(StartingOffset, GapOrPart), range: &Range<usize>) -> (b: bool)
    requires
        entry.0 + entry_len(entry.1) <= usize::MAX,
    ensures
        b == contains_range(*entry, *range),
{
    match &entry.1 {
        GapOrPart::Gap(_) => false,
        GapOrPart::Part(data_part) => {
            let part_end = entry.0 + data_part.byte_slice().len();
            range.start >= entry.0 && range.end <= part_end
        },
    }
}

impl<'src> SemanticDump<'src> {
    ///
    /// Add a reference to a specific range of bytes in the dump.
    /// This will effectively find corresponding [`DataPart`] containing this range and add reference to it.
    ///
    /// `range` should be valid within some specific already inserted `DataPart`.
    pub fn add_global_ref(&mut self, range: Range<usize>, name: &str) -> (r: &mut Self)
        requires
            old(self)@.can_add_global_ref(range),
        ensures
            DumpView::global_ref_added(old(self)@, r@, range, name@),
            r@.wf(),
            old(self)@.parts_wf() ==> r@.parts_wf(),
            *final(self) == *final(r),
    {
        proof {
            use_type_invariant(&*self);
        }
        let ghost k = first_containing(self@.parts, range).unwrap();
        proof {
            lemma_first_containing_is_first(self@.parts, range);
        }
        let mut parts: Vec<(StartingOffset, GapOrPart<'src>)> = Vec::new();
        std::mem::swap(&mut parts, &mut self.parts);
        let mut i: usize = 0;
        while i < parts.len() && !entry_contains(&parts[i], &range)
            invariant
                old(self)@.wf(),
                parts@ == old(self)@.parts,
                i <= parts@.len(),
                forall|j: int| 0 <= j < i ==> !contains_range(#[trigger] parts@[j], range),
            decreases parts@.len() - i,
        {
            i = i + 1;
        }
        proof {
            if i == parts@.len() {
                assert(!contains_range(parts@[k], range));
            }
            lemma_first_containing(parts@, range, i as int);
        }
        let mut entry: (StartingOffset, GapOrPart<'src>) = (0, GapOrPart::Gap(0));
        parts.set_and_swap(i, &mut entry);
        let base = entry.0;
        let local = Range { start: range.start - base, end: range.end - base };
        match &mut entry.1 {
            GapOrPart::Part(data_part) => {
                data_part.push_ref(local, name);
            },
            GapOrPart::Gap(_) => {},
        }
        parts.set(i, entry);
        proof {
            let v = DumpView { parts: parts@, ..old(self)@ };
            let o = old(self)@;
            assert forall|j: int| 0 <= j < v.parts.len() implies #[trigger] v.parts[j].0 + entry_len(
                v.parts[j].1,
            ) <= usize::MAX by {
                assert(o.parts[j].0 + entry_len(o.parts[j].1) <= usize::MAX);
            }
            assert forall|j: int| 1 <= j < v.parts.len() implies #[trigger] v.parts[j].0 == v.parts[j
                - 1].0 + entry_len(v.parts[j - 1].1) by {
                assert(o.parts[j].0 == o.parts[j - 1].0 + entry_len(o.parts[j - 1].1));
            }
            assert(v.wf());
        }
        self.parts = parts;
        self
    }
}

///
/// Represents a contiguous section of bytes with associated references to external entities.
///
#[derive(Debug, PartialEq, Eq)]
pub struct DataPart<'a> {
    pub bytes: Cow<'a, [u8]>,
    pub refs: Vec<Ref>,
}

/// References are valid ranges of a part of `len` bytes, sorted and pairwise
/// non-overlapping (each ends no later than any later one starts).
pub open spec fn refs_well_formed(refs: Seq<Ref>, len: nat) -> bool {
    &&& refs.len() < usize::MAX
    &&& forall|i: int|
        #![trigger refs[i]]
        0 <= i < refs.len() ==> refs[i].range.start <= refs[i].range.end <= len
    &&& forall|i: int, j: int|
        #![trigger refs[i], refs[j]]
        0 <= i < j < refs.len() ==> refs[i].range.end <= refs[j].range.start
}

/// Sorts `refs` by the start of their ranges, keeping the order of references
/// with equal starts.
fn sort_refs_by_start(refs: &mut Vec<Ref>)
    ensures
        final(refs)@ == sorted_by_start(old(refs)@),
{
    let ghost orig = refs@;
    let mut i: usize = 0;
    while i < refs.len()
        invariant
            i <= refs@.len(),
            refs@.len() == orig.len(),
            refs@.take(i as int) == sorted_by_start(orig.take(i as int)),
            refs@.skip(i as int) == orig.skip(i as int),
        decreases refs@.len() - i,
    {
        let ghost prefix = refs@.take(i as int);
        let x = refs[i].range.start;
        proof {
            lemma_sorted_by_start(orig.take(i as int));
            assert(refs@[i as int] == orig[i as int]) by {
                assert(refs@.skip(i as int)[0] == orig.skip(i as int)[0]);
            }
        }
        let mut j: usize = i;
        while j > 0 && refs[j - 1].range.start > x
            invariant
                j <= i < refs@.len(),
                refs@.take(i as int) == prefix,
                starts_sorted(prefix),
                forall|k: int| j <= k < i ==> #[trigger] prefix[k].range.start > x,
            decreases j,
        {
            j = j - 1;
        }
        proof {
            if j > 0 {
                assert(prefix[j - 1] == refs@[j - 1]);
            }
            lemma_insert_position_sorted(prefix, x, j as int);
            assert(orig.take(i + 1).drop_last() =~= orig.take(i as int));
            assert(orig.take(i + 1).last() == orig[i as int]);
        }
        let ghost unsorted = refs@;
        if j < i {
            let r = refs.remove(i);
            refs.insert(j, r);
        }
        proof {
            assert(refs@.take(i + 1) =~= prefix.insert(j as int, orig[i as int]));
            assert forall|k: int| 0 <= k < refs@.len() - (i + 1) implies #[trigger] refs@.skip(i + 1)[k]
                == orig.skip(i + 1)[k] by {
                assert(refs@[i + 1 + k] == unsorted[i + 1 + k]);
                assert(unsorted.skip(i as int)[k + 1] == orig.skip(i as int)[k + 1]);
            }
            assert(refs@.skip(i + 1) =~= orig.skip(i + 1));
        }
        i = i + 1;
    }
    assert(refs@ =~= refs@.take(i as int));
    assert(orig =~= orig.take(i as int));
}

impl<'a> DataPart<'a> {
    /// The references of the part are well formed for its bytes.
    pub open spec fn wf(&self) -> bool {
        refs_well_formed(self.refs@, self.bytes@.len())
    }

    /// Every reference is a valid range of the bytes.
    pub open spec fn refs_in_bounds(&self) -> bool {
        forall|i: int|
            #![trigger self.refs@[i]]
            0 <= i < self.refs@.len() ==> self.refs@[i].range.start <= self.refs@[i].range.end
                <= self.bytes@.len()
    }

    /// A reference over `range` can be added: the range lies within the bytes,
    /// and once sorted by start, each reference (the new one among them) ends
    /// no later than the next one starts.
    pub open spec fn can_push_ref(&self, range: Range<usize>) -> bool {
        let sorted = sorted_by_start(self.refs@);
        let pos = insert_position(sorted, range.start);
        &&& range.start <= range.end <= self.bytes@.len()
        &&& self.refs@.len() + 1 < usize::MAX
        &&& chained(sorted)
        &&& 0 < pos ==> sorted[pos - 1].range.end <= range.start
        &&& pos < sorted.len() ==> range.end <= sorted[pos].range.start
    }

    /// `after` is `before` with a reference named `name` over `range` added, and
    /// the references stably sorted by start: the new one goes after every
    /// reference starting at or before it.
    pub open spec fn ref_pushed(before: DataPart<'a>, after: DataPart<'a>, range: Range<usize>, name: Seq<char>) -> bool {
        let sorted = sorted_by_start(before.refs@);
        let pos = insert_position(sorted, range.start);
        &&& after.bytes == before.bytes
        &&& 0 <= pos < after.refs@.len()
        &&& after.refs@ == sorted_by_start(before.refs@.push(after.refs@[pos]))
        &&& after.refs@ == sorted.insert(pos, after.refs@[pos])
        &&& after.refs@[pos].range == range
        &&& after.refs@[pos].name@ == name
        &&& after.refs@[pos].extra_info == 0
    }

    /// Creates a new [`DataPart`] from the given bytes, with empty list of references.
    pub fn from_bytes(bytes: Cow<'a, [u8]>) -> (d: Self)
        ensures
            d.bytes == bytes,
            d.refs@ == Seq::<Ref>::empty(),
            d.wf(),
    {
        DataPart { bytes, refs: Vec::new() }
    }

    /// The bytes of the part.
    fn byte_slice(&self) -> (s: &[u8])
        ensures
            s@ == self.bytes@,
    {
        match &self.bytes {
            Cow::Borrowed(b) => b,
            Cow::Owned(v) => v.as_slice(),
        }
    }

    ///
    /// Mark specific region of bytes as a reference.
    ///
    /// `range` should be valid within the `bytes` of this part. The references
    /// are then sorted by start, and must not overlap.
    #[verifier::rlimit(40)]
    pub fn push_ref(&mut self, range: Range<usize>, name: &str) -> (r: &mut Self)
        requires
            old(self).can_push_ref(range),
        ensures
            DataPart::ref_pushed(*old(self), *r, range, name@),
            old(self).refs_in_bounds() ==> r.wf(),
            *final(self) == *final(r),
    {
        let ghost before = self.refs@;
        let new_ref = Ref::new(range, name);
        let ghost added = new_ref;
        self.refs.push(new_ref);
        sort_refs_by_start(&mut self.refs);
        proof {
            let sorted = sorted_by_start(before);
            let pos = insert_position(sorted, range.start);
            let refs = self.refs@;
            lemma_sorted_by_start(before);
            lemma_leading_count(sorted, starts_by(range.start as int));
            assert(before.push(added).drop_last() =~= before);
            assert(refs == sorted.insert(pos, added));
            assert(refs[pos] == added);
            if old(self).refs_in_bounds() {
                assert forall|i: int| 0 <= i < refs.len() implies #[trigger] refs[i].range.start
                    <= refs[i].range.end <= self.bytes@.len() by {
                    if i < pos {
                        assert(refs[i] == sorted[i]);
                        lemma_sorted_by_start_members(before, i);
                    } else if i > pos {
                        assert(refs[i] == sorted[i - 1]);
                        lemma_sorted_by_start_members(before, i - 1);
                    }
                }
                assert forall|i: int| 0 <= i < refs.len() - 1 implies #[trigger] refs[i].range.end
                    <= refs[i + 1].range.start by {
                    if i + 1 < pos {
                        assert(refs[i] == sorted[i] && refs[i + 1] == sorted[i + 1]);
                    } else if i > pos {
                        assert(refs[i] == sorted[i - 1] && refs[i + 1] == sorted[i]);
                    }
                }
                lemma_chained_disjoint(refs);
            }
        }
        self
    }
}

/// A non-empty range within the bytes that overlaps no reference of a well
/// formed part can be pushed onto it; `push_ref` then keeps the references
/// sorted and non-overlapping (see its contract).
pub proof fn disjoint_reference_can_be_pushed<'a>(part: DataPart<'a>, range: Range<usize>)
    requires
        part.wf(),
        range.start < range.end <= part.bytes@.len(),
        part.refs@.len() + 1 < usize::MAX,
        forall|i: int|
            0 <= i < part.refs@.len() ==> #[trigger] part.refs@[i].range.end <= range.start
                || range.end <= part.refs@[i].range.start,
    ensures
        part.can_push_ref(range),
{
    let refs = part.refs@;
    assert(starts_sorted(refs)) by {
        assert forall|i: int, j: int|
            #![trigger refs[i], refs[j]]
            0 <= i <= j < refs.len() implies refs[i].range.start <= refs[j].range.start by {
            if i < j {
                assert(refs[i].range.start <= refs[i].range.end);
            }
        }
    }
    crate::layout::sorted_references_stay_as_they_are(refs);
    assert(chained(refs)) by {
        assert forall|i: int| 0 <= i < refs.len() - 1 implies #[trigger] refs[i].range.end
            <= refs[i + 1].range.start by {
            assert(refs[i].range.end <= refs[i + 1].range.start);
        }
    }
    let pos = insert_position(refs, range.start);
    lemma_leading_count(refs, starts_by(range.start as int));
    if pos > 0 {
        assert(starts_by(range.start as int)(refs[pos - 1]));
    }
    if pos < refs.len() {
        assert(!starts_by(range.start as int)(refs[pos]));
        assert(refs[pos].range.start <= refs[pos].range.end);
    }
}

/// Span of bytes in the `DataPart` with specific label and optional extra information index.
#[derive(Debug, PartialEq, Eq)]
pub struct Ref {
    /// Range of bytes in the `DataPart` that this reference corresponds to.
    pub range: Range<usize>,
    /// Human readable name of the reference, used in legends and custom `Formatter` implementations.
    pub name: String,
    /// Index to external information about this reference, used in custom `Formatter` implementations.
    /// 0 by default.
    pub extra_info: usize,
}

impl Ref {
    /// Creates a new reference with the given byte range and name.
    pub fn new(range: Range<usize>, name: &str) -> (r: Self)
        ensures
            r.range == range,
            r.name@ == name@,
            r.extra_info == 0,
    {
        Self::raw(range, name, 0)
    }

    /// Creates a new reference with the given byte range, name, and extra information index.
    pub fn raw(range: Range<usize>, name: &str, extra_info: usize) -> (r: Self)
        ensures
            r.range == range,
            r.name@ == name@,
            r.extra_info == extra_info,
    {
        Ref { range, name: String::from_str(name), extra_info }
    }
}

/// Renders a hexdump of a `DataPart` with its references highlighted.
/// `part_base` - initial offset of the part in the overall data segment.
#[verifier::rlimit(40)]
fn render_part<F: LineFormatter>(out: &mut F, part_base: usize, part: &DataPart) -> (r: Result<
    (),
    F::Error,
>)
    requires
        part.wf(),
        part_base + part.bytes@.len() <= usize::MAX,
    ensures
        F::never_fails() ==> r is Ok,
        r is Ok ==> final(out).model() == apply_calls(
            |m: F::Model, c: FormatCall| F::handled(m, c),
            old(out).model(),
            part_calls(part_base, *part),
        ),
        r is Err ==> fails_within::<F>(
            old(out).model(),
            part_calls(part_base, *part),
            final(out).model(),
            r->Err_0,
        ),
{
    let ghost m0 = out.model();
    let ghost all = part_calls(part_base, *part);
    let bytes = part.byte_slice();
    let refs = part.refs.as_slice();
    let n = bytes.len();
    let cols: usize = 16;
    let mut start_index: usize = 0;
    let mut part_offset: usize = 0;
    let ghost mut line: int = 0;
    while part_offset < n
        invariant
            n == bytes@.len(),
            bytes@ == part.bytes@,
            refs@ == part.refs@,
            part.wf(),
            part_base + n <= usize::MAX,
            cols == 16,
            part_offset == if 16 * line <= n {
                16 * line
            } else {
                n as int
            },
            line >= 0,
            line == 0 || 16 * (line - 1) < n,
            part_offset < n ==> start_index == window_start(refs@, line),
            out.model() == apply_calls(
                |m: F::Model, c: FormatCall| F::handled(m, c),
                m0,
                lines_calls(part_base, bytes@, refs@, line as nat),
            ),
            m0 == old(out).model(),
            all == part_calls(part_base, *part),
        decreases n - part_offset,
    {
        let end = if n - part_offset <= cols {
            n
        } else {
            part_offset + cols
        };
        let chunk = vstd::slice::slice_subrange(bytes, part_offset, end);
        let line_end = part_offset + chunk.len();
        proof {
            lemma_leading_count(refs@, starts_by(line_end as int));
            if line > 0 {
                lemma_leading_count(refs@, ends_by(16 * line));
            }
        }
        let mut next_index = start_index;
        while next_index < refs.len() && refs[next_index].range.start <= line_end
            invariant
                start_index <= next_index <= refs@.len(),
                part.wf(),
                refs@ == part.refs@,
                start_index == window_start(refs@, line),
                part_offset == 16 * line,
                line_end <= part_offset + 16,
                forall|j: int| 0 <= j < next_index ==> #[trigger] refs@[j].range.start <= line_end,
            decreases refs@.len() - next_index,
        {
            next_index = next_index + 1;
        }
        proof {
            lemma_leading_count_unique(refs@, starts_by(line_end as int), next_index as int);
        }
        let references = vstd::slice::slice_subrange(refs, start_index, next_index);
        proof {
            lemma_window_fits(refs@, n as nat, line);
        }
        match out.format_whole_line(
            part_base + part_offset,
            part_offset,
            chunk,
            cols,
            1 + start_index,
            references,
        ) {
            Ok(()) => {},
            Err(e) => {
                proof {
                    let lines = lines_calls(part_base, bytes@, refs@, line as nat);
                    let here = part_line_calls(part_base, bytes@, refs@, line);
                    lemma_fails_after::<F>(m0, lines, here, out.model(), e);
                    assert(lines + here == lines_calls(part_base, bytes@, refs@, (line + 1) as nat));
                    assert(line + 1 <= line_count(n as nat));
                    lemma_lines_calls_prefix(
                        part_base,
                        bytes@,
                        refs@,
                        (line + 1) as nat,
                        line_count(n as nat),
                    );
                    lemma_fails_prefix::<F>(
                        m0,
                        lines_calls(part_base, bytes@, refs@, (line + 1) as nat),
                        lines_calls(part_base, bytes@, refs@, line_count(n as nat)),
                        out.model(),
                        e,
                    );
                    lemma_fails_extend::<F>(
                        m0,
                        lines_calls(part_base, bytes@, refs@, line_count(n as nat)),
                        legend_calls(refs@),
                        out.model(),
                        e,
                    );
                }
                return Err(e);
            },
        }
        proof {
            lemma_apply_concat(
                |m: F::Model, c: FormatCall| F::handled(m, c),
                m0,
                lines_calls(part_base, bytes@, refs@, line as nat),
                part_line_calls(part_base, bytes@, refs@, line),
            );
        }
        let last_index_wrap = next_index > 0 && refs[next_index - 1].range.end > line_end;
        if last_index_wrap {
            start_index = next_index - 1;
        } else {
            start_index = next_index;
        }
        proof {
            if end < n {
                lemma_next_window(refs@, n as nat, line, next_index as int);
            }
        }
        part_offset = end;
        proof {
            line = line + 1;
        }
    }
    proof {
        assert(line == line_count(n as nat));
    }
    let ghost lines_done = lines_calls(part_base, bytes@, refs@, line as nat);
    let ghost header = FormatCall::LegendHeader { name: "test"@, refs_count: refs@.len() as usize };
    match out.legend_header("test", refs.len()) {
        Ok(()) => {},
        Err(e) => {
            proof {
                lemma_fails_last::<F>(m0, lines_done, header, out.model(), e);
                assert(lines_done.push(header) =~= all.take((lines_done.len() + 1) as int));
                lemma_fails_prefix::<F>(m0, lines_done.push(header), all, out.model(), e);
            }
            return Err(e);
        },
    }
    let ghost mut done = lines_done.push(
        FormatCall::LegendHeader { name: "test"@, refs_count: refs@.len() as usize },
    );
    proof {
        lemma_apply_push(
            |m: F::Model, c: FormatCall| F::handled(m, c),
            m0,
            lines_done,
            FormatCall::LegendHeader { name: "test"@, refs_count: refs@.len() as usize },
        );
    }
    let mut index: usize = 0;
    while index < refs.len()
        invariant
            index <= refs@.len(),
            part.wf(),
            refs@ == part.refs@,
            done == lines_done + legend_calls(refs@).take(index + 1),
            out.model() == apply_calls(|m: F::Model, c: FormatCall| F::handled(m, c), m0, done),
            m0 == old(out).model(),
            all == part_calls(part_base, *part),
            lines_done == lines_calls(part_base, bytes@, refs@, line_count(bytes@.len())),
            bytes@ == part.bytes@,
        decreases refs@.len() - index,
    {
        match out.legend_entry(&refs[index], 1 + index) {
            Ok(()) => {},
            Err(e) => {
                proof {
                    let call = FormatCall::LegendEntry {
                        entry: refs@[index as int],
                        index: (index + 1) as usize,
                    };
                    lemma_fails_last::<F>(m0, done, call, out.model(), e);
                    assert(legend_calls(refs@)[index + 1] == call);
                    assert(all == lines_done + legend_calls(refs@));
                    assert(done.push(call) =~= all.take((done.len() + 1) as int));
                    lemma_fails_prefix::<F>(m0, done.push(call), all, out.model(), e);
                }
                return Err(e);
            },
        }
        proof {
            let call = FormatCall::LegendEntry { entry: refs@[index as int], index: (index + 1) as usize };
            lemma_apply_push(|m: F::Model, c: FormatCall| F::handled(m, c), m0, done, call);
            assert(legend_calls(refs@).take(index + 2) =~= legend_calls(refs@).take(index + 1).push(call));
            done = done.push(call);
        }
        index = index + 1;
    }
    assert(legend_calls(refs@).take(refs@.len() + 1 as int) =~= legend_calls(refs@));
    Ok(())
}

impl SemanticDump<'_> {
    /// Renders the hexdump with references using the provided `Formatter`.
    ///
    /// The `Formatter` defines how the hexdump is formatted, including how references
    /// are highlighted and how legends are displayed. It is first told whether to
    /// use colors, as set by [`SemanticDump::set_color`].
    ///
    /// A dump without data parts makes no call on the formatter.
    ///
    /// Every data part must be well formed (see [`DataPart::is_well_formed`]):
    /// its references sorted, non-overlapping, and within its bytes. References
    /// reaching past a part's bytes, which only the public fields can build, are
    /// not accepted.
    ///
    /// # Errors
    /// Returns the error of the first `Formatter` call that fails; no call is made
    /// after it.
    #[verifier::rlimit(40)]
    pub fn render<F: LineFormatter>(&self, formatter: &mut F) -> (r: Result<(), F::Error>)
        requires
            self@.parts_wf(),
        ensures
            F::never_fails() ==> r is Ok,
            r is Ok ==> final(formatter).model() == apply_calls(
                |m: F::Model, c: FormatCall| F::handled(m, c),
                old(formatter).model(),
                render_calls(self@),
            ),
            r is Err ==> fails_within::<F>(
                old(formatter).model(),
                render_calls(self@),
                final(formatter).model(),
                r->Err_0,
            ),
            !has_part(self@.parts) ==> r is Ok && final(formatter).model() == old(
                formatter,
            ).model(),
    {
        proof {
            use_type_invariant(self);
        }
        let ghost m0 = formatter.model();
        let ghost all = render_calls(self@);
        let ghost switch = seq![FormatCall::UseColor { color: self@.color }];
        let mut switched = false;
        let mut i: usize = 0;
        assert(self@.parts.take(0) =~= Seq::<(StartingOffset, GapOrPart)>::empty());
        assert(formatter.model() == apply_calls(
            |m: F::Model, c: FormatCall| F::handled(m, c),
            m0,
            Seq::<FormatCall>::empty(),
        ));
        while i < self.parts.len()
            invariant
                i <= self@.parts.len(),
                self@.wf(),
                self@.parts_wf(),
                switched == has_part(self@.parts.take(i as int)),
                switched ==> formatter.model() == apply_calls(
                    |m: F::Model, c: FormatCall| F::handled(m, c),
                    m0,
                    switch + dump_calls(self@.parts.take(i as int)),
                ),
                !switched ==> formatter.model() == m0,
                !switched ==> dump_calls(self@.parts.take(i as int)) == Seq::<FormatCall>::empty(),
                m0 == old(formatter).model(),
                all == render_calls(self@),
                switch == seq![FormatCall::UseColor { color: self@.color }],
            decreases self@.parts.len() - i,
        {
            let entry = &self.parts[i];
            let ghost prefix = self@.parts.take(i as int);
            let ghost next = self@.parts.take(i + 1);
            assert(next.drop_last() =~= prefix);
            assert(next.last() == self@.parts[i as int]);
            assert(next[i as int] == self@.parts[i as int]);
            assert forall|j: int| 0 <= j < i implies #[trigger] next[j] == prefix[j] by {}
            match &entry.1 {
                GapOrPart::Gap(_) => {
                    // Gaps are not rendered, so we can skip them.
                    assert(dump_calls(next) =~= dump_calls(prefix));
                    proof {
                        if has_part(next) {
                            let j = choose|j: int| 0 <= j < next.len() && #[trigger] next[j].1 is Part;
                            assert(prefix[j].1 is Part);
                        }
                        if has_part(prefix) {
                            let j = choose|j: int| 0 <= j < prefix.len() && #[trigger] prefix[j].1 is Part;
                            assert(next[j].1 is Part);
                        }
                    }
                },
                GapOrPart::Part(data_part) => {
                    assert(next[i as int].1 is Part);
                    assert(has_part(self@.parts)) by {
                        assert(self@.parts[i as int].1 is Part);
                    }
                    if !switched {
                        match formatter.use_color(self.config.color) {
                            Ok(()) => {},
                            Err(e) => {
                                proof {
                                    lemma_fails_last::<F>(m0, Seq::empty(), switch[0], formatter.model(), e);
                                    assert(Seq::<FormatCall>::empty().push(switch[0]) =~= all.take(1));
                                    lemma_fails_prefix::<F>(m0, all.take(1), all, formatter.model(), e);
                                }
                                return Err(e);
                            },
                        }
                        proof {
                            lemma_apply_push(
                                |m: F::Model, c: FormatCall| F::handled(m, c),
                                m0,
                                Seq::empty(),
                                switch[0],
                            );
                            assert(Seq::<FormatCall>::empty().push(switch[0]) =~= switch);
                            assert(switch + dump_calls(prefix) =~= switch);
                        }
                        switched = true;
                    }
                    let ghost done = switch + dump_calls(prefix);
                    let ghost here = part_calls(entry.0, *data_part);
                    match render_part(formatter, entry.0, data_part) {
                        Ok(()) => {},
                        Err(e) => {
                            proof {
                                lemma_fails_after::<F>(m0, done, here, formatter.model(), e);
                                assert(done + here =~= switch + dump_calls(next));
                                lemma_dump_calls_prefix(self@.parts, i + 1);
                                let first = dump_calls(next);
                                assert(switch + first =~= all.take((1 + first.len()) as int));
                                lemma_fails_prefix::<F>(m0, switch + first, all, formatter.model(), e);
                            }
                            return Err(e);
                        },
                    }
                    proof {
                        lemma_apply_concat(
                            |m: F::Model, c: FormatCall| F::handled(m, c),
                            m0,
                            done,
                            here,
                        );
                        assert(done + here =~= switch + dump_calls(next));
                    }
                },
            }
            i = i + 1;
        }
        assert(self@.parts.take(self@.parts.len() as int) =~= self@.parts);
        Ok(())
    }
}

impl Clone for FormatConfig {
    fn clone(&self) -> (c: Self)
        ensures
            c == *self,
    {
        FormatConfig { color: self.color }
    }
}

impl Clone for Ref {
    fn clone(&self) -> (r: Self)
        ensures
            r == *self,
    {
        Ref {
            range: Range { start: self.range.start, end: self.range.end },
            name: self.name.clone(),
            extra_info: self.extra_info,
        }
    }
}

/// Two parts hold the same bytes and the same references.
pub open spec fn same_part<'a, 'b>(a: DataPart<'a>, b: DataPart<'b>) -> bool {
    a.bytes@ == b.bytes@ && a.refs@ == b.refs@
}

/// Two entries are the same gap, or parts with the same content.
pub open spec fn same_entry<'a, 'b>(a: GapOrPart<'a>, b: GapOrPart<'b>) -> bool {
    match (a, b) {
        (GapOrPart::Gap(n), GapOrPart::Gap(m)) => n == m,
        (GapOrPart::Part(p), GapOrPart::Part(q)) => same_part(p, q),
        _ => false,
    }
}

impl<'a> Clone for DataPart<'a> {
    fn clone(&self) -> (d: Self)
        ensures
            same_part(d, *self),
    {
        let bytes: Cow<'a, [u8]> = match &self.bytes {
            Cow::Borrowed(b) => Cow::Borrowed(*b),
            Cow::Owned(v) => {
                let copy = v.clone();
                assert(copy@ =~= v@);
                Cow::Owned(copy)
            },
        };
        let refs = self.refs.clone();
        assert(refs@ =~= self.refs@);
        DataPart { bytes, refs }
    }
}

impl<'a> Clone for GapOrPart<'a> {
    fn clone(&self) -> (e: Self)
        ensures
            same_entry(e, *self),
    {
        match self {
            GapOrPart::Gap(n) => GapOrPart::Gap(*n),
            GapOrPart::Part(p) => GapOrPart::Part(p.clone()),
        }
    }
}

impl<'src> Clone for SemanticDump<'src> {
    /// A dump with the same start, settings and entries (parts with the same content).
    fn clone(&self) -> (d: Self)
        ensures
            d@.start == self@.start,
            d@.color == self@.color,
            d@.parts.len() == self@.parts.len(),
            forall|i: int|
                #![trigger d@.parts[i]]
                0 <= i < d@.parts.len() ==> d@.parts[i].0 == self@.parts[i].0 && same_entry(
                    d@.parts[i].1,
                    self@.parts[i].1,
                ),
    {
        let mut parts: Vec<(StartingOffset, GapOrPart<'src>)> = Vec::new();
        let mut i: usize = 0;
        while i < self.parts.len()
            invariant
                i <= self.parts@.len(),
                parts@.len() == i,
                forall|j: int|
                    #![trigger parts@[j]]
                    0 <= j < i ==> parts@[j].0 == self.parts@[j].0 && same_entry(
                        parts@[j].1,
                        self.parts@[j].1,
                    ),
            decreases self.parts@.len() - i,
        {
            let entry = &self.parts[i];
            parts.push((entry.0, entry.1.clone()));
            i = i + 1;
        }
        proof {
            use_type_invariant(self);
            let v = DumpView { parts: parts@, ..self@ };
            assert forall|j: int| 0 <= j < parts@.len() implies #[trigger] entry_len(parts@[j].1)
                == entry_len(self.parts@[j].1) by {
                assert(same_entry(parts@[j].1, self.parts@[j].1));
            }
            assert forall|j: int| 0 <= j < v.parts.len() implies #[trigger] v.parts[j].0 + entry_len(
                v.parts[j].1,
            ) <= usize::MAX by {
                assert(self@.parts[j] == self.parts@[j]);
                assert(entry_len(parts@[j].1) == entry_len(self.parts@[j].1));
            }
            assert forall|j: int| 1 <= j < v.parts.len() implies #[trigger] v.parts[j].0 == v.parts[j
                - 1].0 + entry_len(v.parts[j - 1].1) by {
                assert(self@.parts[j] == self.parts@[j]);
                assert(self@.parts[j - 1] == self.parts@[j - 1]);
                assert(entry_len(parts@[j - 1].1) == entry_len(self.parts@[j - 1].1));
            }
            assert(v.wf());
        }
        SemanticDump { parts, va_start: self.va_start, config: self.config.clone() }
    }
}

impl<'src> Default for SemanticDump<'src> {
    /// An empty dump starting at offset 0.
    fn default() -> (d: Self)
        ensures
            d@.parts == Seq::<(StartingOffset, GapOrPart<'src>)>::empty(),
            d@.start == 0,
            d@.color,
            d@.wf(),
    {
        Self::new(0)
    }
}

impl<'a> DataPart<'a> {
    /// Whether the references are valid ranges of the bytes, sorted and
    /// non-overlapping, as rendering needs.
    pub fn is_well_formed(&self) -> (b: bool)
        ensures
            b == self.wf(),
    {
        let len = self.byte_slice().len();
        let refs = &self.refs;
        if refs.len() == usize::MAX {
            return false;
        }
        let mut k: usize = 0;
        while k < refs.len()
            invariant
                k <= refs@.len(),
                refs@.len() < usize::MAX,
                len == self.bytes@.len(),
                refs@ == self.refs@,
                forall|i: int|
                    #![trigger refs@[i]]
                    0 <= i < k ==> refs@[i].range.start <= refs@[i].range.end <= len,
                forall|i: int, j: int|
                    #![trigger refs@[i], refs@[j]]
                    0 <= i < j < k ==> refs@[i].range.end <= refs@[j].range.start,
            decreases refs@.len() - k,
        {
            let r = &refs[k];
            if !(r.range.start <= r.range.end && r.range.end <= len) {
                return false;
            }
            if k > 0 && refs[k - 1].range.end > r.range.start {
                return false;
            }
            proof {
                assert forall|i: int| 0 <= i < k implies #[trigger] refs@[i].range.end
                    <= refs@[k as int].range.start by {
                    if i < k - 1 {
                        assert(refs@[i].range.end <= refs@[k - 1].range.start);
                    }
                }
            }
            k = k + 1;
        }
        true
    }
}

impl<'src> SemanticDump<'src> {
    /// Whether every data part is well formed, as rendering needs.
    pub fn parts_are_well_formed(&self) -> (b: bool)
        ensures
            b == self@.parts_wf(),
    {
        let mut i: usize = 0;
        while i < self.parts.len()
            invariant
                i <= self@.parts.len(),
                forall|j: int|
                    #![trigger self@.parts[j]]
                    0 <= j < i ==> (self@.parts[j].1 matches GapOrPart::Part(p) ==> p.wf()),
            decreases self@.parts.len() - i,
        {
            match &self.parts[i].1 {
                GapOrPart::Gap(_) => {},
                GapOrPart::Part(p) => {
                    if !p.is_well_formed() {
                        return false;
                    }
                },
            }
            i = i + 1;
        }
        true
    }
}

} // verus!
