//! How a part is laid out when rendered: its lines, the references drawn on
//! each line, its legend, and the calls a formatter receives for all of it.
use vstd::prelude::*;

use crate::formatter::{
    call_bytes, collect_bytes, column_bytes, end_on_line, lemma_collect_concat, lemma_collect_none,
    lemma_column_bytes_concat, lemma_no_column_bytes, line_calls, line_marks_each_reference,
    line_shows_every_byte_once, marked_pick, refs_fit_line, start_on_line, FormatCall,
    RefenceIndex,
};
use crate::{refs_well_formed, DataPart, GapOrPart, Ref, StartingOffset};

verus! {

/// Number of leading references that satisfy `pred`.
pub open spec fn leading_count(refs: Seq<Ref>, pred: spec_fn(Ref) -> bool) -> nat
    decreases refs.len(),
{
    if refs.len() == 0 || !pred(refs[0]) {
        0
    } else {
        1 + leading_count(refs.drop_first(), pred)
    }
}

pub proof fn lemma_leading_count(refs: Seq<Ref>, pred: spec_fn(Ref) -> bool)
    ensures
        leading_count(refs, pred) <= refs.len(),
        forall|j: int| 0 <= j < leading_count(refs, pred) ==> pred(#[trigger] refs[j]),
        leading_count(refs, pred) < refs.len() ==> !pred(refs[leading_count(refs, pred) as int]),
    decreases refs.len(),
{
    if refs.len() > 0 && pred(refs[0]) {
        let rest = refs.drop_first();
        lemma_leading_count(rest, pred);
        assert forall|j: int| 0 <= j < leading_count(refs, pred) implies pred(#[trigger] refs[j]) by {
            if j > 0 {
                assert(refs[j] == rest[j - 1]);
            }
        }
    }
}

/// A count with the characteristic properties is the leading count.
pub proof fn lemma_leading_count_unique(refs: Seq<Ref>, pred: spec_fn(Ref) -> bool, k: int)
    requires
        0 <= k <= refs.len(),
        forall|j: int| 0 <= j < k ==> pred(#[trigger] refs[j]),
        k < refs.len() ==> !pred(refs[k]),
    ensures
        leading_count(refs, pred) == k,
{
    lemma_leading_count(refs, pred);
    let c = leading_count(refs, pred) as int;
    if c < k {
        assert(pred(refs[c]));
    }
    if k < c {
        assert(pred(refs[k]));
    }
}

/// References that start at or before `x`.
pub open spec fn starts_by(x: int) -> spec_fn(Ref) -> bool {
    |r: Ref| r.range.start <= x
}

/// References that end at or before `x`.
pub open spec fn ends_by(x: int) -> spec_fn(Ref) -> bool {
    |r: Ref| r.range.end <= x
}

/// Where a reference starting at `start` goes among sorted references: after
/// every reference that starts at or before it.
pub open spec fn insert_position(refs: Seq<Ref>, start: usize) -> int {
    leading_count(refs, starts_by(start as int)) as int
}

/// `refs` stably sorted by the start of their ranges: references with equal
/// starts keep their order.
pub open spec fn sorted_by_start(refs: Seq<Ref>) -> Seq<Ref>
    decreases refs.len(),
{
    if refs.len() == 0 {
        refs
    } else {
        let sorted = sorted_by_start(refs.drop_last());
        sorted.insert(insert_position(sorted, refs.last().range.start), refs.last())
    }
}

/// The starts of the references never decrease.
pub open spec fn starts_sorted(refs: Seq<Ref>) -> bool {
    forall|i: int, j: int|
        #![trigger refs[i], refs[j]]
        0 <= i <= j < refs.len() ==> refs[i].range.start <= refs[j].range.start
}

/// Each reference ends no later than the next one starts.
pub open spec fn chained(refs: Seq<Ref>) -> bool {
    forall|i: int| 0 <= i < refs.len() - 1 ==> #[trigger] refs[i].range.end <= refs[i + 1].range.start
}

/// In references sorted by start, a reference starting at `x` goes after
/// those starting at or before `x`, that is before the first one starting
/// after `x`.
pub proof fn lemma_insert_position_sorted(refs: Seq<Ref>, x: usize, j: int)
    requires
        starts_sorted(refs),
        0 <= j <= refs.len(),
        j > 0 ==> refs[j - 1].range.start <= x,
        j < refs.len() ==> refs[j].range.start > x,
    ensures
        insert_position(refs, x) == j,
{
    assert forall|k: int| 0 <= k < j implies starts_by(x as int)(#[trigger] refs[k]) by {
        assert(refs[k].range.start <= refs[j - 1].range.start);
    }
    lemma_leading_count_unique(refs, starts_by(x as int), j);
}

/// Sorting keeps the number of references and puts them in order of start.
pub proof fn lemma_sorted_by_start(refs: Seq<Ref>)
    ensures
        sorted_by_start(refs).len() == refs.len(),
        starts_sorted(sorted_by_start(refs)),
    decreases refs.len(),
{
    if refs.len() > 0 {
        let init = refs.drop_last();
        let x = refs.last().range.start;
        let sorted = sorted_by_start(init);
        lemma_sorted_by_start(init);
        let pos = insert_position(sorted, x);
        lemma_leading_count(sorted, starts_by(x as int));
        let result = sorted.insert(pos, refs.last());
        assert forall|i: int, j: int|
            #![trigger result[i], result[j]]
            0 <= i <= j < result.len() implies result[i].range.start <= result[j].range.start by {
            if i < pos {
                assert(result[i] == sorted[i]);
                assert(starts_by(x as int)(sorted[i]));
                if j < pos {
                    assert(result[j] == sorted[j]);
                } else if j > pos {
                    assert(result[j] == sorted[j - 1]);
                }
            } else if i == pos {
                if j > pos {
                    assert(result[j] == sorted[j - 1]);
                    assert(!starts_by(x as int)(sorted[pos]));
                    assert(sorted[pos].range.start <= sorted[j - 1].range.start);
                }
            } else {
                assert(result[i] == sorted[i - 1] && result[j] == sorted[j - 1]);
            }
        }
    }
}

/// Every reference of the sorted references is one of the references.
pub proof fn lemma_sorted_by_start_members(refs: Seq<Ref>, i: int)
    requires
        0 <= i < refs.len(),
    ensures
        exists|k: int| 0 <= k < refs.len() && sorted_by_start(refs)[i] == #[trigger] refs[k],
    decreases refs.len(),
{
    let init = refs.drop_last();
    let x = refs.last().range.start;
    let sorted = sorted_by_start(init);
    lemma_sorted_by_start(init);
    let pos = insert_position(sorted, x);
    lemma_leading_count(sorted, starts_by(x as int));
    let result = sorted.insert(pos, refs.last());
    if i < pos {
        lemma_sorted_by_start_members(init, i);
        let k = choose|k: int| 0 <= k < init.len() && sorted[i] == #[trigger] init[k];
        assert(result[i] == refs[k]);
    } else if i > pos {
        lemma_sorted_by_start_members(init, i - 1);
        let k = choose|k: int| 0 <= k < init.len() && sorted[i - 1] == #[trigger] init[k];
        assert(result[i] == refs[k]);
    } else {
        assert(result[i] == refs[refs.len() - 1]);
    }
}

/// Sorting leaves references already in order of start as they are; so
/// pushing a reference onto such references inserts it in its place.
pub proof fn sorted_references_stay_as_they_are(refs: Seq<Ref>)
    requires
        starts_sorted(refs),
    ensures
        sorted_by_start(refs) == refs,
    decreases refs.len(),
{
    if refs.len() > 0 {
        let init = refs.drop_last();
        let x = refs.last().range.start;
        assert forall|i: int, j: int|
            #![trigger init[i], init[j]]
            0 <= i <= j < init.len() implies init[i].range.start <= init[j].range.start by {
            assert(init[i] == refs[i] && init[j] == refs[j]);
        }
        sorted_references_stay_as_they_are(init);
        assert forall|k: int| 0 <= k < init.len() implies starts_by(x as int)(#[trigger] init[k]) by {
            assert(init[k] == refs[k]);
            assert(refs[k].range.start <= refs[refs.len() - 1].range.start);
        }
        lemma_leading_count_unique(init, starts_by(x as int), init.len() as int);
        assert(init.insert(init.len() as int, refs.last()) =~= refs);
    }
}

/// References in a chain, each a valid range, do not overlap.
pub proof fn lemma_chained_disjoint(refs: Seq<Ref>)
    requires
        chained(refs),
        forall|i: int| 0 <= i < refs.len() ==> #[trigger] refs[i].range.start <= refs[i].range.end,
    ensures
        forall|i: int, j: int|
            #![trigger refs[i], refs[j]]
            0 <= i < j < refs.len() ==> refs[i].range.end <= refs[j].range.start,
{
    assert forall|i: int, j: int|
        #![trigger refs[i], refs[j]]
        0 <= i < j < refs.len() implies refs[i].range.end <= refs[j].range.start by {
        lemma_chain_step(refs, i, j);
    }
}

proof fn lemma_chain_step(refs: Seq<Ref>, i: int, j: int)
    requires
        chained(refs),
        forall|k: int| 0 <= k < refs.len() ==> #[trigger] refs[k].range.start <= refs[k].range.end,
        0 <= i < j < refs.len(),
    ensures
        refs[i].range.end <= refs[j].range.start,
    decreases j - i,
{
    if j > i + 1 {
        lemma_chain_step(refs, i, j - 1);
        assert(refs[j - 1].range.start <= refs[j - 1].range.end);
        assert(refs[j - 1].range.end <= refs[j].range.start);
    }
}

/// Number of lines a part of `len` bytes takes.
pub open spec fn line_count(len: nat) -> nat {
    (len + 15) / 16
}

/// End (exclusive) of line `line` of a part of `len` bytes.
pub open spec fn line_end(len: nat, line: int) -> int {
    if 16 * line + 16 <= len {
        16 * line + 16
    } else {
        len as int
    }
}

/// Index of the first reference drawn on line `line`: the references that ended
/// by the start of the line were done with on earlier lines.
pub open spec fn window_start(refs: Seq<Ref>, line: int) -> nat {
    if line <= 0 {
        0
    } else {
        leading_count(refs, ends_by(16 * line))
    }
}

/// End (exclusive) of the references drawn on a line ending at `line_end`: those
/// that start no later than the end of the line.
pub open spec fn window_end(refs: Seq<Ref>, line_end: int) -> nat {
    leading_count(refs, starts_by(line_end))
}

/// The calls that render line `line` of a part starting at `base`.
pub open spec fn part_line_calls(base: usize, bytes: Seq<u8>, refs: Seq<Ref>, line: int) -> Seq<FormatCall> {
    let part_offset = 16 * line;
    let end = line_end(bytes.len(), line);
    let chunk = bytes.subrange(part_offset as int, end);
    let first = window_start(refs, line);
    let last = window_end(refs, end);
    line_calls(
        (base + part_offset) as usize,
        part_offset as usize,
        chunk,
        16,
        (1 + first) as usize,
        refs.subrange(first as int, last as int),
    )
}

/// The calls that render the first `lines` lines of a part.
pub open spec fn lines_calls(base: usize, bytes: Seq<u8>, refs: Seq<Ref>, lines: nat) -> Seq<FormatCall>
    decreases lines,
{
    if lines == 0 {
        seq![]
    } else {
        lines_calls(base, bytes, refs, (lines - 1) as nat) + part_line_calls(
            base,
            bytes,
            refs,
            lines - 1,
        )
    }
}

/// The legend of a part: a header with the number of references, then one entry
/// per reference, numbered from 1.
pub open spec fn legend_calls(refs: Seq<Ref>) -> Seq<FormatCall> {
    seq![FormatCall::LegendHeader { name: "test"@, refs_count: refs.len() as usize }] + Seq::new(
        refs.len(),
        |i: int| FormatCall::LegendEntry { entry: refs[i], index: (i + 1) as usize },
    )
}

/// The calls that render a part starting at `base`: its lines, then its legend.
pub open spec fn part_calls<'a>(base: usize, part: DataPart<'a>) -> Seq<FormatCall> {
    lines_calls(base, part.bytes@, part.refs@, line_count(part.bytes@.len())) + legend_calls(
        part.refs@,
    )
}

/// The calls that render a dump: its parts in order; gaps are not rendered.
pub open spec fn dump_calls<'a>(parts: Seq<(StartingOffset, GapOrPart<'a>)>) -> Seq<FormatCall>
    decreases parts.len(),
{
    if parts.len() == 0 {
        seq![]
    } else {
        dump_calls(parts.drop_last()) + match parts.last().1 {
            GapOrPart::Gap(_) => seq![],
            GapOrPart::Part(p) => part_calls(parts.last().0, p),
        }
    }
}

/// The calls for the first `lines` lines come first among those for more lines.
pub proof fn lemma_lines_calls_prefix(
    base: usize,
    bytes: Seq<u8>,
    refs: Seq<Ref>,
    lines: nat,
    more: nat,
)
    requires
        lines <= more,
    ensures
        lines_calls(base, bytes, refs, lines).len() <= lines_calls(base, bytes, refs, more).len(),
        lines_calls(base, bytes, refs, lines) == lines_calls(base, bytes, refs, more).take(
            lines_calls(base, bytes, refs, lines).len() as int,
        ),
    decreases more,
{
    if lines < more {
        lemma_lines_calls_prefix(base, bytes, refs, lines, (more - 1) as nat);
        let short = lines_calls(base, bytes, refs, lines);
        let mid = lines_calls(base, bytes, refs, (more - 1) as nat);
        assert((mid + part_line_calls(base, bytes, refs, more - 1)).take(short.len() as int)
            =~= mid.take(short.len() as int));
    } else {
        let short = lines_calls(base, bytes, refs, lines);
        assert(short.take(short.len() as int) =~= short);
    }
}

/// The calls for the first `j` entries come first among those for all entries.
pub proof fn lemma_dump_calls_prefix<'a>(parts: Seq<(StartingOffset, GapOrPart<'a>)>, j: int)
    requires
        0 <= j <= parts.len(),
    ensures
        dump_calls(parts.take(j)).len() <= dump_calls(parts).len(),
        dump_calls(parts.take(j)) == dump_calls(parts).take(dump_calls(parts.take(j)).len() as int),
    decreases parts.len(),
{
    if j < parts.len() {
        let shorter = parts.drop_last();
        lemma_dump_calls_prefix(shorter, j);
        assert(shorter.take(j) =~= parts.take(j));
        let pre = dump_calls(parts.take(j));
        let tail = match parts.last().1 {
            GapOrPart::Gap(_) => Seq::<FormatCall>::empty(),
            GapOrPart::Part(p) => part_calls(parts.last().0, p),
        };
        assert(dump_calls(parts) == dump_calls(shorter) + tail);
        assert((dump_calls(shorter) + tail).take(pre.len() as int) =~= dump_calls(shorter).take(
            pre.len() as int,
        ));
    } else {
        assert(parts.take(j) =~= parts);
        let all = dump_calls(parts);
        assert(all.take(all.len() as int) =~= all);
    }
}

/// Some entry among `parts` is a data part.
pub open spec fn has_part<'a>(parts: Seq<(StartingOffset, GapOrPart<'a>)>) -> bool {
    exists|i: int| 0 <= i < parts.len() && #[trigger] parts[i].1 is Part
}

/// The calls that render a dump: nothing when it holds no data part;
/// otherwise colors turned on or off as the dump says, just before its first
/// data part, then its parts in order.
pub open spec fn render_calls<'a>(dump: crate::DumpView<'a>) -> Seq<FormatCall> {
    if has_part(dump.parts) {
        seq![FormatCall::UseColor { color: dump.color }] + dump_calls(dump.parts)
    } else {
        seq![]
    }
}

/// Entries without a data part render as nothing.
pub proof fn lemma_no_part_no_calls<'a>(parts: Seq<(StartingOffset, GapOrPart<'a>)>)
    requires
        !has_part(parts),
    ensures
        dump_calls(parts) == Seq::<FormatCall>::empty(),
    decreases parts.len(),
{
    if parts.len() > 0 {
        let init = parts.drop_last();
        if has_part(init) {
            let i = choose|i: int| 0 <= i < init.len() && #[trigger] init[i].1 is Part;
            assert(parts[i] == init[i]);
        }
        lemma_no_part_no_calls(init);
        assert(!(parts[parts.len() - 1].1 is Part));
        assert(dump_calls(parts) =~= dump_calls(init));
    }
}

/// Where the line after line `line` starts its references: the last reference
/// drawn goes on if it reaches past the line.
pub proof fn lemma_next_window(refs: Seq<Ref>, len: nat, line: int, next: int)
    requires
        refs_well_formed(refs, len),
        line >= 0,
        0 <= next <= refs.len(),
        forall|j: int| 0 <= j < next ==> #[trigger] refs[j].range.start <= 16 * line + 16,
        next < refs.len() ==> refs[next].range.start > 16 * line + 16,
    ensures
        window_start(refs, line + 1) == if next > 0 && refs[next - 1].range.end > 16 * line + 16 {
            next - 1
        } else {
            next
        },
{
    let x = 16 * line + 16;
    let k = if next > 0 && refs[next - 1].range.end > x {
        next - 1
    } else {
        next
    };
    assert forall|j: int| 0 <= j < k implies ends_by(x)(#[trigger] refs[j]) by {
        if j < next - 1 {
            assert(refs[j].range.end <= refs[j + 1].range.start);
        }
    }
    if k < refs.len() {
        assert(!ends_by(x)(refs[k]));
    }
    lemma_leading_count_unique(refs, ends_by(x), k);
}

/// The references drawn on a line fit it, as formatting a line needs.
pub proof fn lemma_window_fits(refs: Seq<Ref>, len: nat, line: int)
    requires
        refs_well_formed(refs, len),
        len <= usize::MAX,
        0 <= line,
        16 * line < len,
    ensures
        window_start(refs, line) <= window_end(refs, line_end(len, line)) <= refs.len(),
        refs_fit_line(
            (16 * line) as usize,
            (line_end(len, line) - 16 * line) as nat,
            refs.subrange(
                window_start(refs, line) as int,
                window_end(refs, line_end(len, line)) as int,
            ),
        ),
{
    let po = 16 * line;
    let end = line_end(len, line);
    let s = window_start(refs, line) as int;
    let e = window_end(refs, end) as int;
    lemma_leading_count(refs, starts_by(end));
    if line > 0 {
        lemma_leading_count(refs, ends_by(po));
        if s > e {
            assert(ends_by(po)(refs[e]));
        }
    }
    let rs = refs.subrange(s, e);
    assert forall|i: int| #![trigger rs[i]] 0 <= i < rs.len() implies {
        &&& rs[i].range.start <= rs[i].range.end
        &&& po <= rs[i].range.end
        &&& rs[i].range.start <= po + (end - po)
    } by {
        let g = s + i;
        assert(rs[i] == refs[g]);
        assert(starts_by(end)(refs[g]));
        if line > 0 {
            assert(!ends_by(po)(refs[s]));
            if g > s {
                assert(refs[s].range.end <= refs[g].range.start);
            }
        }
    }
    assert forall|i: int| 0 <= i < rs.len() - 1 implies #[trigger] rs[i].range.end <= rs[i
        + 1].range.start by {
        assert(rs[i] == refs[s + i]);
        assert(rs[i + 1] == refs[s + i + 1]);
    }
}

proof fn lemma_lines_show_bytes(
    base: usize,
    bytes: Seq<u8>,
    refs: Seq<Ref>,
    lines: nat,
    text_column: bool,
)
    requires
        refs_well_formed(refs, bytes.len()),
        base + bytes.len() <= usize::MAX,
        lines <= line_count(bytes.len()),
    ensures
        column_bytes(lines_calls(base, bytes, refs, lines), text_column) == bytes.subrange(
            0,
            if 16 * lines <= bytes.len() {
                (16 * lines) as int
            } else {
                bytes.len() as int
            },
        ),
    decreases lines,
{
    if lines == 0 {
        assert(bytes.subrange(0, 0) =~= Seq::<u8>::empty());
    } else {
        let line = lines - 1;
        lemma_lines_show_bytes(base, bytes, refs, line as nat, text_column);
        lemma_window_fits(refs, bytes.len(), line);
        let po = 16 * line;
        let end = line_end(bytes.len(), line);
        let first = window_start(refs, line);
        let last = window_end(refs, end);
        line_shows_every_byte_once(
            (base + po) as usize,
            po as usize,
            bytes.subrange(po, end),
            16,
            (1 + first) as usize,
            refs.subrange(first as int, last as int),
        );
        lemma_column_bytes_concat(
            lines_calls(base, bytes, refs, line as nat),
            part_line_calls(base, bytes, refs, line),
            text_column,
        );
        assert(bytes.subrange(0, po) + bytes.subrange(po, end) =~= bytes.subrange(0, end));
    }
}

/// Rendering a part shows each of its bytes once, in order, in the hex column,
/// and likewise in the text column.
pub proof fn part_shows_every_byte_once<'a>(base: usize, part: DataPart<'a>)
    requires
        part.wf(),
        base + part.bytes@.len() <= usize::MAX,
    ensures
        column_bytes(part_calls(base, part), false) == part.bytes@,
        column_bytes(part_calls(base, part), true) == part.bytes@,
{
    let bytes = part.bytes@;
    let refs = part.refs@;
    let legend = legend_calls(refs);
    assert forall|text_column: bool| #[trigger] column_bytes(part_calls(base, part), text_column)
        == bytes by {
        lemma_lines_show_bytes(base, bytes, refs, line_count(bytes.len()), text_column);
        assert forall|k: int| 0 <= k < legend.len() implies call_bytes(#[trigger] legend[k], text_column)
            == Seq::<u8>::empty() by {
            if k > 0 {
                assert(legend[k] == FormatCall::LegendEntry { entry: refs[k - 1], index: k as usize });
            }
        }
        lemma_no_column_bytes(legend, text_column);
        lemma_column_bytes_concat(
            lines_calls(base, bytes, refs, line_count(bytes.len())),
            legend,
            text_column,
        );
        assert(bytes.subrange(0, bytes.len() as int) =~= bytes);
        assert(column_bytes(part_calls(base, part), text_column) =~= bytes);
    }
}

/// The bytes of the data parts among `parts`, in order; gaps hold none.
pub open spec fn data_bytes<'a>(parts: Seq<(StartingOffset, GapOrPart<'a>)>) -> Seq<u8>
    decreases parts.len(),
{
    if parts.len() == 0 {
        seq![]
    } else {
        data_bytes(parts.drop_last()) + match parts.last().1 {
            GapOrPart::Gap(_) => seq![],
            GapOrPart::Part(p) => p.bytes@,
        }
    }
}

/// Rendering a dump shows each byte of its data parts once, in order, in the
/// hex column, and likewise in the text column; gaps show nothing.
pub proof fn dump_shows_every_byte_once<'a>(dump: crate::DumpView<'a>)
    requires
        dump.wf(),
        dump.parts_wf(),
    ensures
        column_bytes(dump_calls(dump.parts), false) == data_bytes(dump.parts),
        column_bytes(dump_calls(dump.parts), true) == data_bytes(dump.parts),
    decreases dump.parts.len(),
{
    if dump.parts.len() > 0 {
        let parts = dump.parts;
        let shorter = crate::DumpView { parts: parts.drop_last(), ..dump };
        assert forall|i: int| 1 <= i < shorter.parts.len() implies #[trigger] shorter.parts[i].0
            == shorter.parts[i - 1].0 + crate::entry_len(shorter.parts[i - 1].1) by {
            assert(shorter.parts[i] == parts[i] && shorter.parts[i - 1] == parts[i - 1]);
        }
        assert forall|i: int| 0 <= i < shorter.parts.len() implies #[trigger] shorter.parts[i].0
            + crate::entry_len(shorter.parts[i].1) <= usize::MAX by {
            assert(shorter.parts[i] == parts[i]);
        }
        assert forall|i: int| 0 <= i < shorter.parts.len() implies (
        #[trigger] shorter.parts[i].1 matches GapOrPart::Part(p) ==> p.wf()) by {
            assert(shorter.parts[i] == parts[i]);
        }
        dump_shows_every_byte_once(shorter);
        let last = parts.last();
        assert(last == parts[parts.len() - 1]);
        let tail = match last.1 {
            GapOrPart::Gap(_) => Seq::<FormatCall>::empty(),
            GapOrPart::Part(p) => part_calls(last.0, p),
        };
        assert forall|text_column: bool| #[trigger] column_bytes(dump_calls(parts), text_column)
            == data_bytes(parts) by {
            lemma_column_bytes_concat(dump_calls(parts.drop_last()), tail, text_column);
            match last.1 {
                GapOrPart::Gap(_) => {
                    assert(column_bytes(tail, text_column) =~= Seq::<u8>::empty());
                    assert(data_bytes(parts) =~= data_bytes(parts.drop_last()));
                },
                GapOrPart::Part(p) => {
                    part_shows_every_byte_once(last.0, p);
                },
            }
        }
    }
}

/// A line draws exactly the references that reach into it: those that start
/// no later than the line ends and (after the first line) end after the line
/// starts.
pub proof fn line_draws_the_references_reaching_it(refs: Seq<Ref>, len: nat, line: int, j: int)
    requires
        refs_well_formed(refs, len),
        0 <= line,
        16 * line < len,
        0 <= j < refs.len(),
    ensures
        (window_start(refs, line) <= j < window_end(refs, line_end(len, line))) <==> (
        refs[j].range.start <= line_end(len, line) && (line == 0 || refs[j].range.end > 16
            * line)),
{
    let po = 16 * line;
    let end = line_end(len, line);
    let s = window_start(refs, line) as int;
    let e = window_end(refs, end) as int;
    lemma_leading_count(refs, starts_by(end));
    if j < e {
        assert(starts_by(end)(refs[j]));
    } else {
        assert(!starts_by(end)(refs[e]));
        if e < j {
            assert(refs[e].range.end <= refs[j].range.start);
        }
    }
    if line > 0 {
        lemma_leading_count(refs, ends_by(po));
        if j < s {
            assert(ends_by(po)(refs[j]));
        } else {
            assert(!ends_by(po)(refs[s]));
            if s < j {
                assert(refs[s].range.end <= refs[j].range.start);
            }
        }
    }
}

/// `x`, but no more than `limit`.
spec fn at_most(x: int, limit: int) -> int {
    if x <= limit {
        x
    } else {
        limit
    }
}

/// One more line adds to what is highlighted of a reference over
/// `[start, stop)` the part of it on the line `[po, end)`, if the line draws it.
proof fn lemma_mark_step(bytes: Seq<u8>, start: int, stop: int, po: int, end: int, drawn: bool)
    requires
        0 <= start <= stop <= bytes.len(),
        0 <= po < end <= bytes.len(),
        drawn <==> (start <= end && (po == 0 || stop > po)),
    ensures
        bytes.subrange(at_most(start, po), at_most(stop, po)) + (if drawn {
            bytes.subrange(po, end).subrange(
                if start <= po { 0 } else { start - po },
                if stop - po < end - po { stop - po } else { end - po },
            )
        } else {
            seq![]
        }) == bytes.subrange(at_most(start, end), at_most(stop, end)),
{
    let left = bytes.subrange(at_most(start, po), at_most(stop, po));
    if drawn {
        let right = bytes.subrange(po, end).subrange(
            if start <= po { 0 } else { start - po },
            if stop - po < end - po { stop - po } else { end - po },
        );
        assert(left + right =~= bytes.subrange(at_most(start, end), at_most(stop, end)));
    } else {
        assert(left + Seq::<u8>::empty() =~= bytes.subrange(at_most(start, end), at_most(stop, end)));
    }
}

#[verifier::rlimit(40)]
proof fn lemma_lines_mark(
    base: usize,
    bytes: Seq<u8>,
    refs: Seq<Ref>,
    lines: nat,
    index: RefenceIndex,
    text_column: bool,
)
    requires
        refs_well_formed(refs, bytes.len()),
        base + bytes.len() <= usize::MAX,
        lines <= line_count(bytes.len()),
    ensures
        collect_bytes(lines_calls(base, bytes, refs, lines), marked_pick(index, text_column)) == if 1
            <= index <= refs.len() {
            bytes.subrange(
                at_most(refs[index - 1].range.start as int, at_most((16 * lines) as int, bytes.len() as int)),
                at_most(refs[index - 1].range.end as int, at_most((16 * lines) as int, bytes.len() as int)),
            )
        } else {
            seq![]
        },
    decreases lines,
{
    let pick = marked_pick(index, text_column);
    let n = bytes.len() as int;
    if lines == 0 {
        if 1 <= index <= refs.len() {
            assert(bytes.subrange(0, 0) =~= Seq::<u8>::empty());
        }
    } else {
        let line = lines - 1;
        lemma_lines_mark(base, bytes, refs, line as nat, index, text_column);
        let po = 16 * line;
        let end = line_end(bytes.len(), line);
        let first = window_start(refs, line);
        let last = window_end(refs, end);
        let window = refs.subrange(first as int, last as int);
        let chunk = bytes.subrange(po, end);
        let calls = line_calls((base + po) as usize, po as usize, chunk, 16, (1 + first) as usize, window);
        let here = collect_bytes(calls, pick);
        assert(first <= last <= refs.len() && here == if 1 + first <= index < 1 + last {
            chunk.subrange(
                start_on_line(window[index - 1 - first], po as usize),
                end_on_line(window[index - 1 - first], po as usize, chunk.len()),
            )
        } else {
            seq![]
        }) by {
            lemma_window_fits(refs, bytes.len(), line);
            line_marks_each_reference(
                (base + po) as usize,
                po as usize,
                chunk,
                16,
                (1 + first) as usize,
                window,
                index,
                text_column,
            );
        }
        assert(collect_bytes(lines_calls(base, bytes, refs, lines), pick) == collect_bytes(
            lines_calls(base, bytes, refs, line as nat),
            pick,
        ) + here) by {
            assert(part_line_calls(base, bytes, refs, line) == calls);
            lemma_collect_concat(lines_calls(base, bytes, refs, line as nat), calls, pick);
        }
        assert(at_most(po, n) == po);
        assert(at_most((16 * lines) as int, n) == end);
        if 1 <= index <= refs.len() {
            let k = index - 1;
            let r = refs[k];
            line_draws_the_references_reaching_it(refs, bytes.len(), line, k);
            let drawn = first <= k < last;
            if drawn {
                assert(window[k - first] == r);
            }
            lemma_mark_step(bytes, r.range.start as int, r.range.end as int, po, end, drawn);
        } else {
            assert(collect_bytes(lines_calls(base, bytes, refs, lines), pick) =~= Seq::<u8>::empty());
        }
    }
}

/// Rendering a part highlights exactly the bytes of each of its references:
/// the chunks numbered `index` hold the bytes of reference `index` (counted
/// from 1), all of them and in order, in the hex column and likewise in the
/// text column; a number that is no reference of the part highlights nothing.
pub proof fn part_marks_each_reference<'a>(
    base: usize,
    part: DataPart<'a>,
    index: RefenceIndex,
    text_column: bool,
)
    requires
        part.wf(),
        base + part.bytes@.len() <= usize::MAX,
    ensures
        collect_bytes(part_calls(base, part), marked_pick(index, text_column)) == if 1 <= index
            <= part.refs@.len() {
            part.bytes@.subrange(
                part.refs@[index - 1].range.start as int,
                part.refs@[index - 1].range.end as int,
            )
        } else {
            seq![]
        },
{
    let bytes = part.bytes@;
    let refs = part.refs@;
    let pick = marked_pick(index, text_column);
    let legend = legend_calls(refs);
    lemma_lines_mark(base, bytes, refs, line_count(bytes.len()), index, text_column);
    assert forall|k: int| 0 <= k < legend.len() implies pick(#[trigger] legend[k])
        == Seq::<u8>::empty() by {
        if k > 0 {
            assert(legend[k] == FormatCall::LegendEntry { entry: refs[k - 1], index: k as usize });
        }
    }
    lemma_collect_none(legend, pick);
    lemma_collect_concat(lines_calls(base, bytes, refs, line_count(bytes.len())), legend, pick);
    assert(collect_bytes(legend, pick) =~= Seq::<u8>::empty());
}

} // verus!
