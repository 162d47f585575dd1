//! Formatter that highlights references with ANSI color codes.
use vstd::prelude::*;

use crate::text::{
    all_decimal, all_hex, decimal_text_reads_back, decimal_value, hex_text_reads_back, hex_value,
    byte_char, byte_hex, dec_text, dec_text_right, escape_free, hex_text, lemma_byte_char_plain,
    lemma_byte_hex_len, lemma_numbers_escape_free, push_char, push_dec, push_hex, push_number,
    push_repeat, push_str, printable, repeat_char,
};
use crate::layout::{
    dump_calls, has_part, legend_calls, lemma_no_part_no_calls, lines_calls, part_calls,
    part_line_calls, render_calls,
};
use crate::{DumpView, GapOrPart, StartingOffset};
use crate::Ref;

use super::{
    apply_calls, ascii_call, hex_call, line_calls, line_chunks,
    line_chunks_tile_the_line, line_gap, line_inputs_ok, opt_ref_view, tiles, FormatCall,
    FormatRef, FormatRefView, Formatter, LineChunk, LineFormatter, RefenceIndex,
};

verus! {

/// A color scheme for references: the ANSI (foreground, background) codes for a
/// 1-based reference index, or `None` for no color.
pub trait Palette {
    spec fn spec_colors(&self, index: RefenceIndex) -> Option<(usize, usize)>;

    fn colors(&self, index: RefenceIndex) -> (r: Option<(usize, usize)>)
        ensures
            r == self.spec_colors(index),
    ;
}

/// The palette of [`palette`]: every reference gets a color.
pub struct DefaultPalette;

/// The palette of [`no_color_palette`]: no reference gets a color.
pub struct NoColorPalette;

impl Palette for DefaultPalette {
    open spec fn spec_colors(&self, index: RefenceIndex) -> Option<(usize, usize)> {
        Some(palette_pair(index))
    }

    fn colors(&self, index: RefenceIndex) -> (r: Option<(usize, usize)>) {
        Some(palette(index))
    }
}

impl Palette for NoColorPalette {
    open spec fn spec_colors(&self, index: RefenceIndex) -> Option<(usize, usize)> {
        None
    }

    fn colors(&self, index: RefenceIndex) -> (r: Option<(usize, usize)>) {
        no_color_palette(index)
    }
}

/// Palette function with no color.
pub fn no_color_palette(index: RefenceIndex) -> (r: Option<(usize, usize)>)
    ensures
        r is None,
{
    None
}

/// The hand-picked (fg, bg) pairs of the default palette: every combination has
/// strong contrast, none is the default white on black, and neighbours use
/// distinct hues.
pub open spec fn palette_pairs() -> Seq<(usize, usize)> {
    seq![
        (97, 41),  // bright white on red
        (30, 42),  // black on green
        (97, 44),  // bright white on blue
        (30, 43),  // black on yellow
        (97, 45),  // bright white on magenta
        (30, 46),  // black on cyan
        (30, 47),  // black on white
        (97, 101),  // bright white on bright red
        (30, 102),  // black on bright green
        (97, 104),  // bright white on bright blue
        (30, 103),  // black on bright yellow
        (30, 106),  // black on bright cyan
        (97, 105),  // bright white on bright magenta
    ]
}

/// The default colors of reference `i`.
pub open spec fn palette_pair(i: RefenceIndex) -> (usize, usize) {
    palette_pairs()[(i % 13) as int]
}

/// Returns (`fg_code`, `bg_code`) — high-contrast ANSI pairs, excluding default white-on-black.
///
/// Default palette used in `ColorFormatter` if no custom palette is provided.
pub fn palette(i: RefenceIndex) -> (r: (usize, usize))
    ensures
        r == palette_pair(i),
{
    let k = i % 13;
    if k == 0 {
        (97, 41)
    } else if k == 1 {
        (30, 42)
    } else if k == 2 {
        (97, 44)
    } else if k == 3 {
        (30, 43)
    } else if k == 4 {
        (97, 45)
    } else if k == 5 {
        (30, 46)
    } else if k == 6 {
        (30, 47)
    } else if k == 7 {
        (97, 101)
    } else if k == 8 {
        (30, 102)
    } else if k == 9 {
        (97, 104)
    } else if k == 10 {
        (30, 103)
    } else if k == 11 {
        (30, 106)
    } else {
        (97, 105)
    }
}

/// The default palette repeats every 13 references.
pub proof fn palette_is_periodic(i: RefenceIndex)
    requires
        i + 13 <= usize::MAX,
    ensures
        palette_pair((i + 13) as usize) == palette_pair(i),
{
}

/// Neighbouring references never share colors, and no reference is drawn on a
/// black background.
pub proof fn palette_neighbours_differ(i: RefenceIndex)
    requires
        i + 1 <= usize::MAX,
    ensures
        palette_pair((i + 1) as usize) != palette_pair(i),
        palette_pair(i).1 != 40,
{
}

///
/// Formatter that adds ANSI color codes to the hex output based on the references.
/// The text it produces is collected in [`ColorFormatter::output`].
///
pub struct ColorFormatter<P = DefaultPalette> {
    output: String,
    scheme: P,
    color: bool,
}

/// The state of a [`ColorFormatter`]: the text produced so far, its palette,
/// and whether colors are on.
pub struct ColorModel<P> {
    pub output: Seq<char>,
    pub palette: P,
    /// Whether references are drawn in the palette's colors.
    pub color: bool,
}

impl ColorFormatter<DefaultPalette> {
    /// A formatter with the default palette and no output yet.
    pub fn new() -> (f: Self)
        ensures
            f.model() == (ColorModel { output: Seq::<char>::empty(), palette: DefaultPalette, color: true }),
    {
        ColorFormatter { output: String::new(), scheme: DefaultPalette, color: true }
    }
}

impl<P: Palette> ColorFormatter<P> {
    ///
    /// Create a new `ColorFormatter` with a custom palette.
    ///
    /// The palette takes a reference index and returns a tuple of ANSI color codes (foreground and background),
    /// or `None` to indicate that no color should be applied for the given reference index.
    pub fn with_palette(palette: P) -> (f: Self)
        ensures
            f.model() == (ColorModel { output: Seq::<char>::empty(), palette, color: true }),
    {
        ColorFormatter { output: String::new(), scheme: palette, color: true }
    }

    /// Get the ANSI color codes for the given reference index.
    pub fn palette(&self, index: RefenceIndex) -> (r: Option<(usize, usize)>)
        ensures
            r == self.model().palette.spec_colors(index),
    {
        self.scheme.colors(index)
    }

    /// The text produced so far.
    pub fn output(&self) -> (s: &str)
        ensures
            s@ == self.model().output,
    {
        self.output.as_str()
    }
}

/// `text` wrapped in the escape codes of `colors`, or bare when there are none.
pub open spec fn colored(colors: Option<(usize, usize)>, text: Seq<char>) -> Seq<char> {
    match colors {
        Some((fg, bg)) => "\x1b["@ + dec_text(fg as nat) + ";"@ + dec_text(bg as nat) + "m"@ + text
            + "\x1b[0m"@,
        None => text,
    }
}

/// The colors reference `index` is drawn in: the palette's when colors are on,
/// none when they are off.
pub open spec fn shown_colors<P: Palette>(palette: P, color: bool, index: RefenceIndex) -> Option<
    (usize, usize),
> {
    if color {
        palette.spec_colors(index)
    } else {
        None
    }
}

/// The colors of the chunk's reference, if it has one.
pub open spec fn chunk_colors<P: Palette>(
    palette: P,
    color: bool,
    reference: Option<FormatRefView>,
) -> Option<(usize, usize)> {
    match reference {
        Some(fr) => shown_colors(palette, color, fr.part_index),
        None => None,
    }
}

/// Hex column text of `bytes` starting at `line_offset`: a space before every
/// byte at an even position, each byte as two hex digits in its colors.
pub open spec fn hex_chunk_text(
    line_offset: usize,
    bytes: Seq<u8>,
    colors: Option<(usize, usize)>,
) -> Seq<char>
    decreases bytes.len(),
{
    if bytes.len() == 0 {
        seq![]
    } else {
        let i = bytes.len() - 1;
        hex_chunk_text(line_offset, bytes.drop_last(), colors) + (if (line_offset + i) % 2 == 0 {
            seq![' ']
        } else {
            seq![]
        }) + colored(colors, byte_hex(bytes.last()))
    }
}

/// Text column of `bytes`: each byte as its character in its colors.
pub open spec fn ascii_chunk_text(bytes: Seq<u8>, colors: Option<(usize, usize)>) -> Seq<char>
    decreases bytes.len(),
{
    if bytes.len() == 0 {
        seq![]
    } else {
        ascii_chunk_text(bytes.drop_last(), colors) + colored(colors, seq![byte_char(bytes.last())])
    }
}

/// Width of the blank standing for `empty_bytes` missing bytes: two columns per
/// byte and one per pair.
pub open spec fn gap_width(empty_bytes: usize) -> nat {
    let w = 2 * empty_bytes + empty_bytes / 2;
    if w >= 1 {
        w as nat
    } else {
        1
    }
}

/// `"none"`, `"1 reference"` or `"N references"`.
pub open spec fn refs_count_text(refs_count: usize) -> Seq<char> {
    if refs_count == 0 {
        "none"@
    } else if refs_count > 1 {
        dec_text(refs_count as nat) + " references"@
    } else {
        dec_text(refs_count as nat) + " reference"@
    }
}

/// The legend's header line.
pub open spec fn legend_header_text(name: Seq<char>, refs_count: usize) -> Seq<char> {
    "  REFS ("@ + name + "): "@ + refs_count_text(refs_count) + "\n"@
}

/// The part of a legend line after its index: name, range and length.
pub open spec fn legend_tail_text(entry: Ref) -> Seq<char> {
    "] "@ + entry.name@ + "   range=0x"@ + hex_text(entry.range.start as nat, 4) + "..0x"@
        + hex_text(entry.range.end as nat, 4) + " ("@ + dec_text(
        (if entry.range.end >= entry.range.start {
            entry.range.end - entry.range.start
        } else {
            0
        }) as nat,
    ) + ")\n"@
}

/// The text a color formatter writes for one call.
pub open spec fn color_text<P: Palette>(palette: P, color: bool, call: FormatCall) -> Seq<char> {
    match call {
        FormatCall::Offset { offset } => hex_text(offset as nat, 8) + "  "@,
        FormatCall::HexChunk { line_offset, bytes, reference } => hex_chunk_text(
            line_offset,
            bytes,
            chunk_colors(palette, color, reference),
        ),
        FormatCall::HexGap { empty_bytes } => repeat_char(' ', gap_width(empty_bytes)),
        FormatCall::AsciiChunk { line_offset, bytes, reference } => (if line_offset == 0 {
            " |"@
        } else {
            seq![]
        }) + ascii_chunk_text(bytes, chunk_colors(palette, color, reference)),
        FormatCall::FlushLine => "|\n"@,
        FormatCall::LegendHeader { name, refs_count } => legend_header_text(name, refs_count),
        FormatCall::LegendEntry { entry, index } => "  ["@ + colored(
            shown_colors(palette, color, index),
            dec_text_right(index as nat, 2),
        ) + legend_tail_text(entry),
        FormatCall::UseColor { .. } => seq![],
    }
}

/// Appends `text` in `colors`: the escape codes around it when there are colors.
fn push_colored_start(s: &mut String, colors: Option<(usize, usize)>)
    ensures
        final(s)@ == old(s)@ + match colors {
            Some((fg, bg)) => "\x1b["@ + dec_text(fg as nat) + ";"@ + dec_text(bg as nat) + "m"@,
            None => seq![],
        },
{
    match colors {
        Some((fg, bg)) => {
            push_str(s, "\x1b[");
            push_dec(s, fg);
            push_str(s, ";");
            push_dec(s, bg);
            push_str(s, "m");
            assert(final(s)@ =~= old(s)@ + ("\x1b["@ + dec_text(fg as nat) + ";"@ + dec_text(
                bg as nat,
            ) + "m"@));
        },
        None => {
            assert(final(s)@ =~= old(s)@ + Seq::<char>::empty());
        },
    }
}

fn push_colored_end(s: &mut String, colors: Option<(usize, usize)>)
    ensures
        final(s)@ == old(s)@ + match colors {
            Some(_) => "\x1b[0m"@,
            None => seq![],
        },
{
    match colors {
        Some(_) => {
            push_str(s, "\x1b[0m");
        },
        None => {
            assert(final(s)@ =~= old(s)@ + Seq::<char>::empty());
        },
    }
}

proof fn lemma_colored_split(colors: Option<(usize, usize)>, text: Seq<char>)
    ensures
        colored(colors, text) == match colors {
            Some((fg, bg)) => "\x1b["@ + dec_text(fg as nat) + ";"@ + dec_text(bg as nat) + "m"@,
            None => seq![],
        } + text + match colors {
            Some(_) => "\x1b[0m"@,
            None => seq![],
        },
{
    match colors {
        Some((fg, bg)) => {
            assert(colored(colors, text) =~= ("\x1b["@ + dec_text(fg as nat) + ";"@ + dec_text(
                bg as nat,
            ) + "m"@) + text + "\x1b[0m"@);
        },
        None => {
            assert(colored(colors, text) =~= Seq::<char>::empty() + text + Seq::<char>::empty());
        },
    }
}

impl<P: Palette> ColorFormatter<P> {
    fn push_hex_bytes(&mut self, line_offset: usize, bytes: &[u8], colors: Option<(usize, usize)>)
        ensures
            final(self).output@ == old(self).output@ + hex_chunk_text(line_offset, bytes@, colors),
            final(self).scheme == old(self).scheme,
            final(self).color == old(self).color,
    {
        let ghost start = self.output@;
        let mut i: usize = 0;
        assert(bytes@.take(0) =~= Seq::<u8>::empty());
        while i < bytes.len()
            invariant
                i <= bytes@.len(),
                self.output@ == start + hex_chunk_text(line_offset, bytes@.take(i as int), colors),
                self.scheme == old(self).scheme,
                self.color == old(self).color,
            decreases bytes@.len() - i,
        {
            let byte = bytes[i];
            let ghost before = self.output@;
            let is_even = line_offset % 2 == i % 2;
            if is_even {
                push_char(&mut self.output, ' ');
            }
            push_colored_start(&mut self.output, colors);
            push_hex(&mut self.output, byte as usize, 2);
            push_colored_end(&mut self.output, colors);
            proof {
                let t = bytes@.take(i + 1);
                assert(t.drop_last() =~= bytes@.take(i as int));
                assert(t.last() == byte);
                assert(((line_offset + i) % 2 == 0) == is_even);
                lemma_colored_split(colors, byte_hex(byte));
                assert(self.output@ =~= start + hex_chunk_text(line_offset, t, colors));
            }
            i = i + 1;
        }
        assert(bytes@.take(bytes@.len() as int) =~= bytes@);
    }

    fn push_ascii_bytes(&mut self, bytes: &[u8], colors: Option<(usize, usize)>)
        ensures
            final(self).output@ == old(self).output@ + ascii_chunk_text(bytes@, colors),
            final(self).scheme == old(self).scheme,
            final(self).color == old(self).color,
    {
        let ghost start = self.output@;
        let mut i: usize = 0;
        assert(bytes@.take(0) =~= Seq::<u8>::empty());
        while i < bytes.len()
            invariant
                i <= bytes@.len(),
                self.output@ == start + ascii_chunk_text(bytes@.take(i as int), colors),
                self.scheme == old(self).scheme,
                self.color == old(self).color,
            decreases bytes@.len() - i,
        {
            let byte = bytes[i];
            push_colored_start(&mut self.output, colors);
            push_char(&mut self.output, printable(byte));
            push_colored_end(&mut self.output, colors);
            proof {
                let t = bytes@.take(i + 1);
                assert(t.drop_last() =~= bytes@.take(i as int));
                assert(t.last() == byte);
                lemma_colored_split(colors, seq![byte_char(byte)]);
                assert(self.output@ =~= start + ascii_chunk_text(t, colors));
            }
            i = i + 1;
        }
        assert(bytes@.take(bytes@.len() as int) =~= bytes@);
    }

    fn reference_colors(&self, reference: Option<FormatRef<'_>>) -> (r: Option<(usize, usize)>)
        ensures
            r == chunk_colors(self.scheme, self.color, opt_ref_view(reference)),
    {
        match reference {
            Some(fr) => self.shown_colors(fr.part_index),
            None => None,
        }
    }

    /// The colors reference `index` is drawn in, if any.
    fn shown_colors(&self, index: RefenceIndex) -> (r: Option<(usize, usize)>)
        ensures
            r == shown_colors(self.scheme, self.color, index),
    {
        if self.color {
            self.palette(index)
        } else {
            None
        }
    }
}

impl<P: Palette> Formatter for ColorFormatter<P> {
    type Error = std::convert::Infallible;

    type Model = ColorModel<P>;

    closed spec fn model(&self) -> ColorModel<P> {
        ColorModel { output: self.output@, palette: self.scheme, color: self.color }
    }

    open spec fn handled(model: ColorModel<P>, call: FormatCall) -> ColorModel<P> {
        ColorModel {
            output: model.output + color_text(model.palette, model.color, call),
            palette: model.palette,
            color: match call {
                FormatCall::UseColor { color } => color,
                _ => model.color,
            },
        }
    }

    open spec fn failed(
        before: ColorModel<P>,
        call: FormatCall,
        after: ColorModel<P>,
        error: Self::Error,
    ) -> bool {
        false
    }

    open spec fn never_fails() -> bool {
        true
    }

    fn print_offset(&mut self, offset: usize) -> (r: Result<(), Self::Error>) {
        let ghost start = self.output@;
        push_hex(&mut self.output, offset, 8);
        push_str(&mut self.output, "  ");
        assert(self.output@ =~= start + (hex_text(offset as nat, 8) + "  "@));
        Ok(())
    }

    /// Print hex as pair of bytes (half of word) with color if reference is present.
    fn print_hex_chunk(&mut self, line_offset: usize, bytes: &[u8], reference: Option<
        FormatRef<'_>,
    >) -> (r: Result<(), Self::Error>) {
        let colors = self.reference_colors(reference);
        self.push_hex_bytes(line_offset, bytes, colors);
        Ok(())
    }

    fn add_hex_gap(&mut self, empty_bytes: usize) -> (r: Result<(), Self::Error>) {
        // 2 spaces for hex + 1 space for gap every 2 bytes
        let gap = (empty_bytes * 2) + (empty_bytes / 2);
        push_repeat(&mut self.output, ' ', gap);
        Ok(())
    }

    fn print_ascii_chunk(&mut self, line_offset: usize, bytes: &[u8], reference: Option<
        FormatRef<'_>,
    >) -> (r: Result<(), Self::Error>) {
        let ghost start = self.output@;
        if line_offset == 0 {
            push_str(&mut self.output, " |");
        } else {
            assert(self.output@ =~= start + Seq::<char>::empty());
        }
        let colors = self.reference_colors(reference);
        self.push_ascii_bytes(bytes, colors);
        assert(self.output@ =~= start + ((if line_offset == 0 {
            " |"@
        } else {
            seq![]
        }) + ascii_chunk_text(bytes@, colors)));
        Ok(())
    }

    fn flush_line(&mut self) -> (r: Result<(), Self::Error>) {
        push_str(&mut self.output, "|\n");
        Ok(())
    }

    fn use_color(&mut self, color: bool) -> (r: Result<(), Self::Error>) {
        self.color = color;
        assert(self.output@ =~= old(self).output@ + Seq::<char>::empty());
        Ok(())
    }

    fn legend_header(&mut self, data_part: &str, refs_count: usize) -> (r: Result<(), Self::Error>) {
        push_legend_header(&mut self.output, data_part, refs_count);
        Ok(())
    }

    fn legend_entry(&mut self, reference: &Ref, index: RefenceIndex) -> (r: Result<
        (),
        Self::Error,
    >) {
        let ghost start = self.output@;
        let colors = self.shown_colors(index);
        push_str(&mut self.output, "  [");
        push_colored_start(&mut self.output, colors);
        push_number(&mut self.output, index, 10, 2, ' ');
        push_colored_end(&mut self.output, colors);
        push_legend_tail(&mut self.output, reference);
        proof {
            lemma_colored_split(colors, dec_text_right(index as nat, 2));
        }
        assert(self.output@ =~= start + color_text(
            self.scheme,
            self.color,
            FormatCall::LegendEntry { entry: *reference, index },
        ));
        Ok(())
    }
}

/// Appends the legend's header line.
pub fn push_legend_header(s: &mut String, name: &str, refs_count: usize)
    ensures
        final(s)@ == old(s)@ + legend_header_text(name@, refs_count),
{
    let ghost start = s@;
    push_str(s, "  REFS (");
    push_str(s, name);
    push_str(s, "): ");
    let ghost mid = s@;
    if refs_count == 0 {
        push_str(s, "none");
    } else {
        push_dec(s, refs_count);
        if refs_count > 1 {
            push_str(s, " references");
        } else {
            push_str(s, " reference");
        }
    }
    assert(s@ =~= mid + refs_count_text(refs_count));
    push_str(s, "\n");
    assert(s@ =~= start + legend_header_text(name@, refs_count));
}

/// Appends the part of a legend line after its index.
pub fn push_legend_tail(s: &mut String, entry: &Ref)
    ensures
        final(s)@ == old(s)@ + legend_tail_text(*entry),
{
    let ghost start = s@;
    push_str(s, "] ");
    push_str(s, entry.name.as_str());
    push_str(s, "   range=0x");
    push_hex(s, entry.range.start, 4);
    push_str(s, "..0x");
    push_hex(s, entry.range.end, 4);
    push_str(s, " (");
    let len = if entry.range.end >= entry.range.start {
        entry.range.end - entry.range.start
    } else {
        0
    };
    push_dec(s, len);
    push_str(s, ")\n");
    assert(s@ =~= start + legend_tail_text(*entry));
}

impl<P: Palette> LineFormatter for ColorFormatter<P> {}

/// The text a color formatter writes for `calls`, in order.
pub open spec fn color_texts<P: Palette>(palette: P, color: bool, calls: Seq<FormatCall>) -> Seq<char>
    decreases calls.len(),
{
    if calls.len() == 0 {
        seq![]
    } else {
        color_texts(palette, color, calls.drop_last()) + color_text(palette, color, calls.last())
    }
}

/// None of `calls` turns colors on or off.
pub open spec fn switch_free(calls: Seq<FormatCall>) -> bool {
    forall|i: int| 0 <= i < calls.len() ==> !(#[trigger] calls[i] is UseColor)
}

/// A color formatter's output grows by the text of the calls it handles, in
/// the colors it had before them when none of them switches colors.
pub proof fn color_output_is_the_text_of_its_calls<P: Palette>(
    model: ColorModel<P>,
    calls: Seq<FormatCall>,
)
    requires
        switch_free(calls),
    ensures
        apply_calls(
            |m: ColorModel<P>, c: FormatCall| ColorFormatter::<P>::handled(m, c),
            model,
            calls,
        ) == (ColorModel {
            output: model.output + color_texts(model.palette, model.color, calls),
            palette: model.palette,
            color: model.color,
        }),
    decreases calls.len(),
{
    if calls.len() > 0 {
        assert(calls.last() == calls[calls.len() - 1]);
        assert forall|i: int| 0 <= i < calls.drop_last().len() implies !(
        #[trigger] calls.drop_last()[i] is UseColor) by {
            assert(calls.drop_last()[i] == calls[i]);
        }
        color_output_is_the_text_of_its_calls(model, calls.drop_last());
        let before = model.output + color_texts(model.palette, model.color, calls.drop_last());
        assert(before + color_text(model.palette, model.color, calls.last()) =~= model.output
            + color_texts(model.palette, model.color, calls));
    } else {
        assert(model.output + color_texts(model.palette, model.color, calls) =~= model.output);
    }
}

proof fn lemma_color_texts_concat<P: Palette>(
    palette: P,
    color: bool,
    a: Seq<FormatCall>,
    b: Seq<FormatCall>,
)
    ensures
        color_texts(palette, color, a + b) == color_texts(palette, color, a) + color_texts(palette, color, b),
    decreases b.len(),
{
    if b.len() == 0 {
        assert(a + b =~= a);
        assert(color_texts(palette, color, a) + color_texts(palette, color, b) =~= color_texts(palette, color, a));
    } else {
        lemma_color_texts_concat(palette, color, a, b.drop_last());
        assert((a + b).drop_last() =~= a + b.drop_last());
        assert(color_texts(palette, color, a + b) =~= color_texts(palette, color, a) + color_texts(palette, color, b));
    }
}

proof fn lemma_color_texts_single<P: Palette>(palette: P, color: bool, c: FormatCall)
    ensures
        color_texts(palette, color, seq![c]) == color_text(palette, color, c),
{
    assert(seq![c].drop_last() =~= Seq::<FormatCall>::empty());
    assert(seq![c].last() == c);
    assert(color_texts(palette, color, Seq::<FormatCall>::empty()) == Seq::<char>::empty());
    assert(color_texts(palette, color, seq![c]) =~= color_text(palette, color, c));
}

/// The hex text of bytes laid end to end is the hex text of each in turn.
#[verifier::rlimit(40)]
proof fn lemma_hex_chunk_text_split(
    line_offset: usize,
    a: Seq<u8>,
    b: Seq<u8>,
    colors: Option<(usize, usize)>,
)
    requires
        line_offset + a.len() <= usize::MAX,
    ensures
        hex_chunk_text(line_offset, a + b, colors) == hex_chunk_text(line_offset, a, colors)
            + hex_chunk_text((line_offset + a.len()) as usize, b, colors),
    decreases b.len(),
{
    if b.len() == 0 {
        assert(a + b =~= a);
        assert(hex_chunk_text(line_offset, a, colors) + hex_chunk_text(
            (line_offset + a.len()) as usize,
            b,
            colors,
        ) =~= hex_chunk_text(line_offset, a, colors));
    } else {
        lemma_hex_chunk_text_split(line_offset, a, b.drop_last(), colors);
        assert((a + b).drop_last() =~= a + b.drop_last());
        assert((a + b).last() == b.last());
        assert(hex_chunk_text(line_offset, a + b, colors) =~= hex_chunk_text(line_offset, a, colors)
            + hex_chunk_text((line_offset + a.len()) as usize, b, colors));
    }
}

/// Without colors, `n` bytes from the start of a line take two columns each
/// and one more before every byte at an even position.
proof fn lemma_hex_chunk_text_len(bytes: Seq<u8>)
    ensures
        hex_chunk_text(0, bytes, None).len() == 2 * bytes.len() + (bytes.len() + 1) / 2,
    decreases bytes.len(),
{
    if bytes.len() > 0 {
        let i = bytes.len() - 1;
        lemma_hex_chunk_text_len(bytes.drop_last());
        lemma_byte_hex_len(bytes.last());
        let space: Seq<char> = if i % 2 == 0 {
            seq![' ']
        } else {
            seq![]
        };
        assert(colored(None, byte_hex(bytes.last())) == byte_hex(bytes.last()));
        assert(hex_chunk_text(0, bytes, None) == hex_chunk_text(0, bytes.drop_last(), None) + space
            + byte_hex(bytes.last()));
        assert(space.len() == (bytes.len() + 1) / 2 - (i + 1) / 2);
    }
}

/// Without colors, the hex text of chunks tiling a line from `from` is the hex
/// text of the bytes from `from` on.
proof fn lemma_hex_texts_of_tiles<P: Palette>(
    palette: P,
    color: bool,
    chunks: Seq<LineChunk>,
    f: spec_fn(LineChunk) -> FormatCall,
    bytes: Seq<u8>,
    from: int,
)
    requires
        tiles(chunks, bytes, from),
        0 <= from,
        bytes.len() <= usize::MAX,
        forall|c: LineChunk| #[trigger] f(c) == hex_call(c),
        forall|i: RefenceIndex| (#[trigger] shown_colors(palette, color, i)) is None,
    ensures
        color_texts(palette, color, chunks.map_values(f)) == hex_chunk_text(
            from as usize,
            bytes.subrange(from, bytes.len() as int),
            None,
        ),
    decreases chunks.len(),
{
    if chunks.len() == 0 {
        assert(chunks.map_values(f) =~= Seq::<FormatCall>::empty());
        assert(bytes.subrange(from, bytes.len() as int) =~= Seq::<u8>::empty());
    } else {
        let c = chunks[0];
        let rest = chunks.drop_first();
        let next = from + c.bytes.len();
        lemma_hex_texts_of_tiles(palette, color, rest, f, bytes, next);
        assert(chunks.map_values(f) =~= seq![f(c)] + rest.map_values(f));
        lemma_color_texts_concat(palette, color, seq![f(c)], rest.map_values(f));
        lemma_color_texts_single(palette, color, f(c));
        assert(chunk_colors(palette, color, c.reference) == None::<(usize, usize)>);
        assert(bytes.subrange(from, bytes.len() as int) =~= c.bytes + bytes.subrange(
            next,
            bytes.len() as int,
        ));
        lemma_hex_chunk_text_split(from as usize, c.bytes, bytes.subrange(next, bytes.len() as int), None);
    }
}

/// The text column of a line opens with ` |`: its first chunk starts the line.
proof fn lemma_text_column_opens<P: Palette>(
    palette: P,
    color: bool,
    chunks: Seq<LineChunk>,
    f: spec_fn(LineChunk) -> FormatCall,
)
    requires
        chunks.len() > 0,
        chunks[0].line_offset == 0,
        forall|c: LineChunk| #[trigger] f(c) == ascii_call(c),
    ensures
        color_texts(palette, color, chunks.map_values(f)).len() >= 2,
        color_texts(palette, color, chunks.map_values(f)).subrange(0, 2) == " |"@,
{
    let c0 = chunks[0];
    let texts = chunks.map_values(f);
    assert(texts =~= seq![f(c0)] + texts.drop_first());
    lemma_color_texts_concat(palette, color, seq![f(c0)], texts.drop_first());
    lemma_color_texts_single(palette, color, f(c0));
    reveal_strlit(" |");
    assert(color_text(palette, color, f(c0)) == " |"@ + ascii_chunk_text(
        c0.bytes,
        chunk_colors(palette, color, c0.reference),
    ));
    assert(color_texts(palette, color, texts).subrange(0, 2) =~= " |"@);
}

proof fn lemma_prefix_of_line(head: Seq<char>, hex: Seq<char>, text: Seq<char>, end: Seq<char>)
    requires
        text.len() >= 2,
        text.subrange(0, 2) == " |"@,
    ensures
        (head + hex + text + end).subrange(0, (head.len() + hex.len() + 2) as int) == head + hex
            + " |"@,
{
    reveal_strlit(" |");
    assert((head + hex + text + end).subrange(0, (head.len() + hex.len() + 2) as int) =~= head + hex
        + text.subrange(0, 2));
}

/// With a palette that gives no colors, the hex column of every line of up to
/// `line_size` bytes (an even number) is `2 * line_size + line_size / 2`
/// characters wide, the gap filling in for missing bytes; so the ` |` that
/// opens the text column stands at the same place on every line whose offset
/// has eight digits.
#[verifier::rlimit(40)]
pub proof fn text_column_starts_at_a_fixed_place<P: Palette>(
    palette: P,
    color: bool,
    starting_offset: usize,
    part_offset: usize,
    bytes: Seq<u8>,
    line_size: usize,
    first: RefenceIndex,
    refs: Seq<Ref>,
)
    requires
        line_inputs_ok(part_offset, bytes, line_size, first, refs),
        1 <= bytes.len() <= line_size,
        line_size % 2 == 0,
        forall|i: RefenceIndex| (#[trigger] shown_colors(palette, color, i)) is None,
    ensures
        ({
            let head = hex_text(starting_offset as nat, 8) + "  "@;
            let gap = line_gap(bytes.len(), line_size);
            let hex = hex_chunk_text(0, bytes, None) + if gap != 0 {
                repeat_char(' ', gap_width(gap as usize))
            } else {
                seq![]
            };
            &&& hex.len() == 2 * line_size + line_size / 2
            &&& color_texts(
                palette,
                color,
                line_calls(starting_offset, part_offset, bytes, line_size, first, refs),
            ).subrange(0, (head.len() + hex.len() + 2) as int) == head + hex + " |"@
        }),
{
    let n = bytes.len();
    let chunks = line_chunks(part_offset, bytes, first, refs);
    line_chunks_tile_the_line(part_offset, bytes, first, refs);
    let hf = |c: LineChunk| hex_call(c);
    let af = |c: LineChunk| ascii_call(c);
    let hexes = chunks.map_values(hf);
    let asciis = chunks.map_values(af);
    lemma_hex_texts_of_tiles(palette, color, chunks, hf, bytes, 0);
    assert(bytes.subrange(0, n as int) =~= bytes);
    lemma_hex_chunk_text_len(bytes);
    let gap = line_gap(n, line_size);
    if n < line_size {
        vstd::arithmetic::div_mod::lemma_small_mod(n, line_size as nat);
        vstd::arithmetic::div_mod::lemma_small_mod((line_size - n) as nat, line_size as nat);
        assert(gap == line_size - n);
    } else {
        vstd::arithmetic::div_mod::lemma_mod_self_0(line_size as int);
        assert(gap == 0);
    }
    let gap_calls = if gap != 0 {
        seq![FormatCall::HexGap { empty_bytes: gap as usize }]
    } else {
        seq![]
    };
    let gap_text = if gap != 0 {
        repeat_char(' ', gap_width(gap as usize))
    } else {
        seq![]
    };
    if gap != 0 {
        lemma_color_texts_single(palette, color, FormatCall::HexGap { empty_bytes: gap as usize });
    } else {
        assert(color_texts(palette, color, gap_calls) =~= gap_text);
    }
    // The first chunk starts the line, so the text column opens with ` |`.
    lemma_text_column_opens(palette, color, chunks, af);
    let ascii_text = color_texts(palette, color, asciis);
    let head_call = seq![FormatCall::Offset { offset: starting_offset }];
    let tail_call = seq![FormatCall::FlushLine];
    lemma_color_texts_single(palette, color, FormatCall::Offset { offset: starting_offset });
    let calls = line_calls(starting_offset, part_offset, bytes, line_size, first, refs);
    assert(calls == head_call + hexes + gap_calls + asciis + tail_call);
    lemma_color_texts_concat(palette, color, head_call + hexes + gap_calls + asciis, tail_call);
    lemma_color_texts_concat(palette, color, head_call + hexes + gap_calls, asciis);
    lemma_color_texts_concat(palette, color, head_call + hexes, gap_calls);
    lemma_color_texts_concat(palette, color, head_call, hexes);
    let head = hex_text(starting_offset as nat, 8) + "  "@;
    let hex = hex_chunk_text(0, bytes, None) + gap_text;
    let t = color_texts(palette, color, calls);
    assert(t == head + hex + ascii_text + color_texts(palette, color, tail_call));
    lemma_prefix_of_line(head, hex, ascii_text, color_texts(palette, color, tail_call));
}

/// A call that switches no colors and names nothing with an escape character.
pub open spec fn call_plain(call: FormatCall) -> bool {
    match call {
        FormatCall::UseColor { .. } => false,
        FormatCall::LegendHeader { name, .. } => escape_free(name),
        FormatCall::LegendEntry { entry, .. } => escape_free(entry.name@),
        _ => true,
    }
}

/// Every one of `calls` is plain.
pub open spec fn calls_plain(calls: Seq<FormatCall>) -> bool {
    forall|i: int| 0 <= i < calls.len() ==> #[trigger] call_plain(calls[i])
}

/// No reference name of a data part among `parts` holds an escape character.
pub open spec fn names_escape_free<'a>(parts: Seq<(StartingOffset, GapOrPart<'a>)>) -> bool {
    forall|i: int, j: int|
        #![trigger parts[i], parts[i].1->Part_0.refs@[j]]
        0 <= i < parts.len() && parts[i].1 is Part && 0 <= j < parts[i].1->Part_0.refs@.len()
            ==> escape_free(parts[i].1->Part_0.refs@[j].name@)
}

proof fn lemma_escape_free_concat(a: Seq<char>, b: Seq<char>)
    requires
        escape_free(a),
        escape_free(b),
    ensures
        escape_free(a + b),
{
    assert forall|i: int| 0 <= i < (a + b).len() implies (a + b)[i] != '\x1b' by {
        if i < a.len() {
            assert((a + b)[i] == a[i]);
        } else {
            assert((a + b)[i] == b[i - a.len()]);
        }
    }
}

proof fn lemma_hex_chunk_text_escape_free(line_offset: usize, bytes: Seq<u8>)
    ensures
        escape_free(hex_chunk_text(line_offset, bytes, None)),
    decreases bytes.len(),
{
    if bytes.len() > 0 {
        let i = bytes.len() - 1;
        lemma_hex_chunk_text_escape_free(line_offset, bytes.drop_last());
        lemma_numbers_escape_free(bytes.last() as nat, 2);
        let space: Seq<char> = if (line_offset + i) % 2 == 0 {
            seq![' ']
        } else {
            seq![]
        };
        lemma_escape_free_concat(hex_chunk_text(line_offset, bytes.drop_last(), None), space);
        lemma_escape_free_concat(
            hex_chunk_text(line_offset, bytes.drop_last(), None) + space,
            byte_hex(bytes.last()),
        );
    }
}

proof fn lemma_ascii_chunk_text_escape_free(bytes: Seq<u8>)
    ensures
        escape_free(ascii_chunk_text(bytes, None)),
    decreases bytes.len(),
{
    if bytes.len() > 0 {
        lemma_ascii_chunk_text_escape_free(bytes.drop_last());
        lemma_byte_char_plain(bytes.last());
        lemma_escape_free_concat(
            ascii_chunk_text(bytes.drop_last(), None),
            seq![byte_char(bytes.last())],
        );
    }
}

/// With colors off, the text a color formatter writes for a plain call holds
/// no escape character.
pub proof fn plain_call_text_escape_free<P: Palette>(palette: P, call: FormatCall)
    requires
        call_plain(call),
    ensures
        escape_free(color_text(palette, false, call)),
{
    reveal_strlit("  ");
    reveal_strlit(" |");
    reveal_strlit("|\n");
    reveal_strlit("  REFS (");
    reveal_strlit("): ");
    reveal_strlit("none");
    reveal_strlit(" references");
    reveal_strlit(" reference");
    reveal_strlit("\n");
    reveal_strlit("  [");
    reveal_strlit("] ");
    reveal_strlit("   range=0x");
    reveal_strlit("..0x");
    reveal_strlit(" (");
    reveal_strlit(")\n");
    match call {
        FormatCall::Offset { offset } => {
            lemma_numbers_escape_free(offset as nat, 8);
            lemma_escape_free_concat(hex_text(offset as nat, 8), "  "@);
        },
        FormatCall::HexChunk { line_offset, bytes, reference } => {
            lemma_hex_chunk_text_escape_free(line_offset, bytes);
        },
        FormatCall::HexGap { empty_bytes } => {},
        FormatCall::AsciiChunk { line_offset, bytes, reference } => {
            lemma_ascii_chunk_text_escape_free(bytes);
            let lead: Seq<char> = if line_offset == 0 {
                " |"@
            } else {
                seq![]
            };
            lemma_escape_free_concat(lead, ascii_chunk_text(bytes, None));
        },
        FormatCall::FlushLine => {},
        FormatCall::LegendHeader { name, refs_count } => {
            lemma_numbers_escape_free(refs_count as nat, 0);
            lemma_escape_free_concat(dec_text(refs_count as nat), " references"@);
            lemma_escape_free_concat(dec_text(refs_count as nat), " reference"@);
            lemma_escape_free_concat("  REFS ("@, name);
            lemma_escape_free_concat("  REFS ("@ + name, "): "@);
            lemma_escape_free_concat("  REFS ("@ + name + "): "@, refs_count_text(refs_count));
            lemma_escape_free_concat(
                "  REFS ("@ + name + "): "@ + refs_count_text(refs_count),
                "\n"@,
            );
        },
        FormatCall::LegendEntry { entry, index } => {
            let len = (if entry.range.end >= entry.range.start {
                entry.range.end - entry.range.start
            } else {
                0
            }) as nat;
            lemma_numbers_escape_free(index as nat, 2);
            lemma_numbers_escape_free(entry.range.start as nat, 4);
            lemma_numbers_escape_free(entry.range.end as nat, 4);
            lemma_numbers_escape_free(len, 0);
            let t1 = "] "@ + entry.name@;
            lemma_escape_free_concat("] "@, entry.name@);
            lemma_escape_free_concat(t1, "   range=0x"@);
            let t2 = t1 + "   range=0x"@ + hex_text(entry.range.start as nat, 4);
            lemma_escape_free_concat(t1 + "   range=0x"@, hex_text(entry.range.start as nat, 4));
            lemma_escape_free_concat(t2, "..0x"@);
            let t3 = t2 + "..0x"@ + hex_text(entry.range.end as nat, 4);
            lemma_escape_free_concat(t2 + "..0x"@, hex_text(entry.range.end as nat, 4));
            lemma_escape_free_concat(t3, " ("@);
            lemma_escape_free_concat(t3 + " ("@, dec_text(len));
            lemma_escape_free_concat(t3 + " ("@ + dec_text(len), ")\n"@);
            assert(legend_tail_text(entry) == t3 + " ("@ + dec_text(len) + ")\n"@);
            lemma_escape_free_concat("  ["@, dec_text_right(index as nat, 2));
            lemma_escape_free_concat(
                "  ["@ + dec_text_right(index as nat, 2),
                legend_tail_text(entry),
            );
        },
        FormatCall::UseColor { .. } => {},
    }
}

/// With colors off, the text a color formatter writes for plain calls holds
/// no escape character.
pub proof fn plain_calls_text_escape_free<P: Palette>(palette: P, calls: Seq<FormatCall>)
    requires
        calls_plain(calls),
    ensures
        escape_free(color_texts(palette, false, calls)),
    decreases calls.len(),
{
    if calls.len() > 0 {
        let init = calls.drop_last();
        assert forall|i: int| 0 <= i < init.len() implies #[trigger] call_plain(init[i]) by {
            assert(init[i] == calls[i]);
        }
        plain_calls_text_escape_free(palette, init);
        assert(call_plain(calls[calls.len() - 1]));
        plain_call_text_escape_free(palette, calls.last());
        lemma_escape_free_concat(
            color_texts(palette, false, init),
            color_text(palette, false, calls.last()),
        );
    }
}

proof fn lemma_calls_plain_concat(a: Seq<FormatCall>, b: Seq<FormatCall>)
    requires
        calls_plain(a),
        calls_plain(b),
    ensures
        calls_plain(a + b),
{
    assert forall|i: int| 0 <= i < (a + b).len() implies #[trigger] call_plain((a + b)[i]) by {
        if i < a.len() {
            assert((a + b)[i] == a[i]);
        } else {
            assert((a + b)[i] == b[i - a.len()]);
        }
    }
}

proof fn lemma_line_calls_plain(
    starting_offset: usize,
    part_offset: usize,
    bytes: Seq<u8>,
    line_size: usize,
    first: RefenceIndex,
    refs: Seq<Ref>,
)
    ensures
        calls_plain(line_calls(starting_offset, part_offset, bytes, line_size, first, refs)),
{
    let calls = line_calls(starting_offset, part_offset, bytes, line_size, first, refs);
    let chunks = line_chunks(part_offset, bytes, first, refs);
    let hexes = chunks.map_values(|c: LineChunk| hex_call(c));
    let asciis = chunks.map_values(|c: LineChunk| ascii_call(c));
    assert forall|i: int| 0 <= i < calls.len() implies #[trigger] call_plain(calls[i]) by {
        if 1 <= i < 1 + hexes.len() {
            assert(calls[i] == hexes[i - 1]);
        } else if i >= calls.len() - 1 - asciis.len() && i < calls.len() - 1 {
            assert(calls[i] == asciis[i - (calls.len() - 1 - asciis.len())]);
        }
    }
}

proof fn lemma_lines_calls_plain(base: usize, bytes: Seq<u8>, refs: Seq<Ref>, lines: nat)
    ensures
        calls_plain(lines_calls(base, bytes, refs, lines)),
    decreases lines,
{
    if lines > 0 {
        lemma_lines_calls_plain(base, bytes, refs, (lines - 1) as nat);
        let line = lines - 1;
        let end = crate::layout::line_end(bytes.len(), line);
        let first = crate::layout::window_start(refs, line);
        let last = crate::layout::window_end(refs, end);
        lemma_line_calls_plain(
            (base + 16 * line) as usize,
            (16 * line) as usize,
            bytes.subrange(16 * line, end),
            16,
            (1 + first) as usize,
            refs.subrange(first as int, last as int),
        );
        lemma_calls_plain_concat(
            lines_calls(base, bytes, refs, (lines - 1) as nat),
            part_line_calls(base, bytes, refs, line),
        );
    }
}

/// The calls that render a dump are plain, when no reference name holds an
/// escape character.
proof fn lemma_dump_calls_plain<'a>(parts: Seq<(StartingOffset, GapOrPart<'a>)>)
    requires
        names_escape_free(parts),
    ensures
        calls_plain(dump_calls(parts)),
    decreases parts.len(),
{
    if parts.len() > 0 {
        let init = parts.drop_last();
        assert forall|i: int, j: int|
            0 <= i < init.len() && init[i].1 is Part && 0 <= j < init[i].1->Part_0.refs@.len()
                implies escape_free(#[trigger] init[i].1->Part_0.refs@[j].name@) by {
            assert(init[i] == parts[i]);
        }
        lemma_dump_calls_plain(init);
        let last = parts.last();
        assert(last == parts[parts.len() - 1]);
        match last.1 {
            GapOrPart::Gap(_) => {
                assert(dump_calls(parts) =~= dump_calls(init));
            },
            GapOrPart::Part(p) => {
                let refs = p.refs@;
                lemma_lines_calls_plain(last.0, p.bytes@, refs, crate::layout::line_count(p.bytes@.len()));
                let legend = legend_calls(refs);
                reveal_strlit("test");
                assert forall|k: int| 0 <= k < legend.len() implies #[trigger] call_plain(legend[k]) by {
                    if k > 0 {
                        assert(legend[k] == FormatCall::LegendEntry { entry: refs[k - 1], index: k as usize });
                        assert(escape_free(parts[parts.len() - 1].1->Part_0.refs@[k - 1].name@));
                    }
                }
                lemma_calls_plain_concat(
                    lines_calls(last.0, p.bytes@, refs, crate::layout::line_count(p.bytes@.len())),
                    legend,
                );
                lemma_calls_plain_concat(dump_calls(init), part_calls(last.0, p));
            },
        }
    }
}

/// With colors off, rendering a dump through a color formatter writes no
/// escape character (so no ANSI code), unless a reference name holds one: the
/// formatter's output grows by the colorless text of the dump's calls, and its
/// colors are turned off if the dump has a data part to draw.
pub proof fn color_off_writes_no_escape_codes<'a, P: Palette>(dump: DumpView<'a>, model: ColorModel<P>)
    requires
        !dump.color,
        names_escape_free(dump.parts),
    ensures
        apply_calls(
            |m: ColorModel<P>, c: FormatCall| ColorFormatter::<P>::handled(m, c),
            model,
            render_calls(dump),
        ) == (ColorModel {
            output: model.output + color_texts(model.palette, false, dump_calls(dump.parts)),
            palette: model.palette,
            color: if has_part(dump.parts) {
                false
            } else {
                model.color
            },
        }),
        escape_free(color_texts(model.palette, false, dump_calls(dump.parts))),
{
    let step = |m: ColorModel<P>, c: FormatCall| ColorFormatter::<P>::handled(m, c);
    let switch = seq![FormatCall::UseColor { color: false }];
    let calls = dump_calls(dump.parts);
    if !has_part(dump.parts) {
        lemma_no_part_no_calls(dump.parts);
        assert(color_texts(model.palette, false, calls) =~= Seq::<char>::empty());
        assert(model.output + color_texts(model.palette, false, calls) =~= model.output);
    } else {
        lemma_dump_calls_plain(dump.parts);
        assert forall|i: int| 0 <= i < calls.len() implies !(#[trigger] calls[i] is UseColor) by {
            assert(call_plain(calls[i]));
        }
        crate::formatter::lemma_apply_concat(step, model, switch, calls);
        crate::formatter::lemma_apply_push(step, model, Seq::empty(), switch[0]);
        assert(Seq::<FormatCall>::empty().push(switch[0]) =~= switch);
        let off = step(model, switch[0]);
        assert(off.output =~= model.output);
        color_output_is_the_text_of_its_calls(off, calls);
        plain_calls_text_escape_free(model.palette, calls);
    }
}

/// The escape code that starts text in the colors `(fg, bg)`.
pub open spec fn color_code(fg: usize, bg: usize) -> Seq<char> {
    "\x1b["@ + dec_text(fg as nat) + ";"@ + dec_text(bg as nat) + "m"@
}

proof fn lemma_ascii_chunk_text_split(a: Seq<u8>, b: Seq<u8>, colors: Option<(usize, usize)>)
    ensures
        ascii_chunk_text(a + b, colors) == ascii_chunk_text(a, colors) + ascii_chunk_text(b, colors),
    decreases b.len(),
{
    if b.len() == 0 {
        assert(a + b =~= a);
        assert(ascii_chunk_text(a, colors) + ascii_chunk_text(b, colors) =~= ascii_chunk_text(
            a,
            colors,
        ));
    } else {
        lemma_ascii_chunk_text_split(a, b.drop_last(), colors);
        assert((a + b).drop_last() =~= a + b.drop_last());
        assert((a + b).last() == b.last());
        assert(ascii_chunk_text(a + b, colors) =~= ascii_chunk_text(a, colors) + ascii_chunk_text(
            b,
            colors,
        ));
    }
}

/// In the colors `(fg, bg)`, each byte of a chunk is drawn between the colors'
/// escape code and the reset code, in the hex column and in the text column:
/// the text of the chunk's first `j + 1` bytes begins the chunk's text and ends
/// with byte `j` so drawn.
pub proof fn each_byte_is_drawn_in_the_colors(
    line_offset: usize,
    bytes: Seq<u8>,
    fg: usize,
    bg: usize,
    j: int,
)
    requires
        line_offset + bytes.len() <= usize::MAX,
        0 <= j < bytes.len(),
    ensures
        ({
            let colors = Some((fg, bg));
            let hex = hex_chunk_text(line_offset, bytes.take(j + 1), colors);
            let drawn = color_code(fg, bg) + byte_hex(bytes[j]) + "\x1b[0m"@;
            &&& hex_chunk_text(line_offset, bytes, colors).subrange(0, hex.len() as int) == hex
            &&& hex.len() >= drawn.len()
            &&& hex.subrange(hex.len() - drawn.len(), hex.len() as int) == drawn
        }),
        ({
            let colors = Some((fg, bg));
            let text = ascii_chunk_text(bytes.take(j + 1), colors);
            let drawn = color_code(fg, bg) + seq![byte_char(bytes[j])] + "\x1b[0m"@;
            &&& ascii_chunk_text(bytes, colors).subrange(0, text.len() as int) == text
            &&& text.len() >= drawn.len()
            &&& text.subrange(text.len() - drawn.len(), text.len() as int) == drawn
        }),
{
    let colors = Some((fg, bg));
    let first = bytes.take(j + 1);
    let rest = bytes.skip(j + 1);
    assert(first + rest =~= bytes);
    lemma_hex_chunk_text_split(line_offset, first, rest, colors);
    lemma_ascii_chunk_text_split(first, rest, colors);
    assert(first.drop_last() =~= bytes.take(j));
    assert(first.last() == bytes[j]);
    let hex = hex_chunk_text(line_offset, first, colors);
    let hdrawn = color_code(fg, bg) + byte_hex(bytes[j]) + "\x1b[0m"@;
    let space: Seq<char> = if (line_offset + j) % 2 == 0 {
        seq![' ']
    } else {
        seq![]
    };
    assert(colored(colors, byte_hex(bytes[j])) =~= hdrawn);
    assert(hex == hex_chunk_text(line_offset, bytes.take(j), colors) + space + hdrawn);
    assert(hex.subrange(hex.len() - hdrawn.len(), hex.len() as int) =~= hdrawn);
    assert((hex + hex_chunk_text((line_offset + first.len()) as usize, rest, colors)).subrange(
        0,
        hex.len() as int,
    ) =~= hex);
    let text = ascii_chunk_text(first, colors);
    let tdrawn = color_code(fg, bg) + seq![byte_char(bytes[j])] + "\x1b[0m"@;
    assert(colored(colors, seq![byte_char(bytes[j])]) =~= tdrawn);
    assert(text == ascii_chunk_text(bytes.take(j), colors) + tdrawn);
    assert(text.subrange(text.len() - tdrawn.len(), text.len() as int) =~= tdrawn);
    assert((text + ascii_chunk_text(rest, colors)).subrange(0, text.len() as int) =~= text);
}

/// With colors on, reference `N` is drawn in the palette's colors for `N`
/// wherever it shows: in the hex column and in the text column of every chunk
/// that carries it, and in the number of its legend entry; so the legend's
/// colors point at the reference's bytes.
pub proof fn references_keep_their_colors<P: Palette>(
    palette: P,
    fr: FormatRefView,
    line_offset: usize,
    bytes: Seq<u8>,
    entry: Ref,
)
    requires
        palette.spec_colors(fr.part_index) is Some,
    ensures
        ({
            let colors = palette.spec_colors(fr.part_index);
            let (fg, bg) = colors->0;
            &&& color_text(
                palette,
                true,
                FormatCall::HexChunk { line_offset, bytes, reference: Some(fr) },
            ) == hex_chunk_text(line_offset, bytes, colors)
            &&& color_text(
                palette,
                true,
                FormatCall::AsciiChunk { line_offset, bytes, reference: Some(fr) },
            ) == (if line_offset == 0 {
                " |"@
            } else {
                seq![]
            }) + ascii_chunk_text(bytes, colors)
            &&& color_text(palette, true, FormatCall::LegendEntry { entry, index: fr.part_index })
                == "  ["@ + color_code(fg, bg) + dec_text_right(fr.part_index as nat, 2)
                + "\x1b[0m"@ + legend_tail_text(entry)
        }),
{
    let colors = palette.spec_colors(fr.part_index);
    let (fg, bg) = colors->0;
    assert(colored(colors, dec_text_right(fr.part_index as nat, 2)) =~= color_code(fg, bg)
        + dec_text_right(fr.part_index as nat, 2) + "\x1b[0m"@);
    assert("  ["@ + colored(colors, dec_text_right(fr.part_index as nat, 2)) + legend_tail_text(
        entry,
    ) =~= "  ["@ + color_code(fg, bg) + dec_text_right(fr.part_index as nat, 2) + "\x1b[0m"@
        + legend_tail_text(entry));
}

/// The numbers a color formatter prints read back as the values they stand
/// for: a line's offset, in hexadecimal of at least eight digits; in a legend
/// entry, the reference's range ends in hexadecimal of at least four digits and
/// its length (zero for a reversed range) in decimal.
pub proof fn printed_numbers_read_back<P: Palette>(
    palette: P,
    color: bool,
    offset: usize,
    entry: Ref,
)
    ensures
        ({
            let shown = hex_text(offset as nat, 8);
            &&& color_text(palette, color, FormatCall::Offset { offset }) == shown + "  "@
            &&& shown.len() >= 8 && all_hex(shown) && hex_value(shown) == offset
        }),
        ({
            let start = hex_text(entry.range.start as nat, 4);
            let end = hex_text(entry.range.end as nat, 4);
            let len = dec_text(
                (if entry.range.end >= entry.range.start {
                    entry.range.end - entry.range.start
                } else {
                    0
                }) as nat,
            );
            &&& legend_tail_text(entry) == "] "@ + entry.name@ + "   range=0x"@ + start + "..0x"@
                + end + " ("@ + len + ")\n"@
            &&& all_hex(start) && hex_value(start) == entry.range.start
            &&& all_hex(end) && hex_value(end) == entry.range.end
            &&& all_decimal(len) && decimal_value(len) == if entry.range.end >= entry.range.start {
                entry.range.end - entry.range.start
            } else {
                0
            }
        }),
{
    hex_text_reads_back(offset as nat, 8);
    hex_text_reads_back(entry.range.start as nat, 4);
    hex_text_reads_back(entry.range.end as nat, 4);
    decimal_text_reads_back(
        (if entry.range.end >= entry.range.start {
            entry.range.end - entry.range.start
        } else {
            0
        }) as nat,
    );
}

} // verus!
