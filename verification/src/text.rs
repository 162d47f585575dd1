//! Text building blocks shared by the formatters: numbers in decimal and
//! upper-case hexadecimal, padding, and the printable view of a byte.
use vstd::prelude::*;

verus! {

/// The character of a single digit (`0`-`9`, then `A`-`F`).
pub open spec fn digit_char(d: nat) -> char {
    if d < 10 {
        (48 + d) as char
    } else {
        (55 + d) as char
    }
}

/// The digits of `n` in base `radix`, most significant first, without leading
/// zeros (zero itself is the single digit `0`).
pub open spec fn digits(n: nat, radix: nat) -> Seq<char>
    decreases n,
{
    if radix >= 2 && n >= radix {
        proof {
            vstd::arithmetic::div_mod::lemma_div_decreases(n as int, radix as int);
        }
        digits(n / radix, radix).push(digit_char(n % radix))
    } else {
        seq![digit_char(n)]
    }
}

/// `count` copies of the character `c`.
pub open spec fn repeat_char(c: char, count: nat) -> Seq<char> {
    Seq::new(count, |_i: int| c)
}

/// `s` right-aligned in a field of `width` characters, filled with `fill` on the left.
pub open spec fn pad_left(s: Seq<char>, width: nat, fill: char) -> Seq<char> {
    if s.len() < width {
        repeat_char(fill, (width - s.len()) as nat) + s
    } else {
        s
    }
}

/// `n` in upper-case hexadecimal, zero-padded to at least `width` digits (`{n:0width$X}`).
pub open spec fn hex_text(n: nat, width: nat) -> Seq<char> {
    pad_left(digits(n, 16), width, '0')
}

/// `n` in decimal (`{n}`).
pub open spec fn dec_text(n: nat) -> Seq<char> {
    digits(n, 10)
}

/// `n` in decimal, right-aligned with spaces in a field of `width` (`{n:>width$}`).
pub open spec fn dec_text_right(n: nat, width: nat) -> Seq<char> {
    pad_left(digits(n, 10), width, ' ')
}

/// A byte shown as text: printable ASCII as itself, anything else as a middle dot.
pub open spec fn byte_char(b: u8) -> char {
    if 0x20 <= b && b <= 0x7e {
        (b as int) as char
    } else {
        '\u{b7}'
    }
}

/// The two upper-case hexadecimal digits of a byte (`{b:02X}`).
pub open spec fn byte_hex(b: u8) -> Seq<char> {
    hex_text(b as nat, 2)
}

/// Whether every character of `s` is a decimal digit.
pub open spec fn all_decimal(s: Seq<char>) -> bool {
    forall|i: int| 0 <= i < s.len() ==> 48 <= #[trigger] (s[i] as int) <= 57
}

/// The number that the decimal digits `s` spell.
pub open spec fn decimal_value(s: Seq<char>) -> int
    decreases s.len(),
{
    if s.len() == 0 {
        0
    } else {
        10 * decimal_value(s.drop_last()) + (s.last() as int - 48)
    }
}

/// A number written in decimal reads back as that number, from at least one digit.
pub proof fn decimal_text_reads_back(n: nat)
    ensures
        dec_text(n).len() >= 1,
        all_decimal(dec_text(n)),
        decimal_value(dec_text(n)) == n,
    decreases n,
{
    if n >= 10 {
        vstd::arithmetic::div_mod::lemma_div_decreases(n as int, 10);
        decimal_text_reads_back(n / 10);
        let t = dec_text(n);
        assert(t == digits(n / 10, 10).push(digit_char(n % 10)));
        assert(t.drop_last() =~= digits(n / 10, 10));
        assert(n == 10 * (n / 10) + n % 10);
        assert(t.last() == digit_char(n % 10));
        assert(digit_char(n % 10) as int == 48 + n % 10);
        assert(decimal_value(t) == 10 * decimal_value(t.drop_last()) + (t.last() as int - 48));
        assert forall|i: int| 0 <= i < t.len() implies 48 <= #[trigger] (t[i] as int) <= 57 by {
            if i < t.len() - 1 {
                assert(t[i] == digits(n / 10, 10)[i]);
            }
        }
    } else {
        let t = dec_text(n);
        assert(t == seq![digit_char(n)]);
        assert(t.drop_last() =~= Seq::<char>::empty());
        assert(t.last() == digit_char(n));
        assert(digit_char(n) as int == 48 + n);
        assert(decimal_value(t.drop_last()) == 0);
    }
}

/// Whether every character of `s` is an upper-case hexadecimal digit.
pub open spec fn all_hex(s: Seq<char>) -> bool {
    forall|i: int|
        0 <= i < s.len() ==> (48 <= #[trigger] (s[i] as int) <= 57 || 65 <= (s[i] as int) <= 70)
}

/// The value of one hexadecimal digit.
pub open spec fn hex_digit_value(c: char) -> int {
    if (c as int) <= 57 {
        c as int - 48
    } else {
        c as int - 55
    }
}

/// The number that the hexadecimal digits `s` spell.
pub open spec fn hex_value(s: Seq<char>) -> int
    decreases s.len(),
{
    if s.len() == 0 {
        0
    } else {
        16 * hex_value(s.drop_last()) + hex_digit_value(s.last())
    }
}

proof fn lemma_hex_digits_read_back(n: nat)
    ensures
        all_hex(digits(n, 16)),
        hex_value(digits(n, 16)) == n,
    decreases n,
{
    let t = digits(n, 16);
    if n >= 16 {
        vstd::arithmetic::div_mod::lemma_div_decreases(n as int, 16);
        lemma_hex_digits_read_back(n / 16);
        assert(t == digits(n / 16, 16).push(digit_char(n % 16)));
        assert(t.drop_last() =~= digits(n / 16, 16));
        assert(t.last() == digit_char(n % 16));
        assert(n == 16 * (n / 16) + n % 16);
        assert(hex_digit_value(digit_char(n % 16)) == n % 16);
        assert forall|i: int| 0 <= i < t.len() implies (48 <= #[trigger] (t[i] as int) <= 57 || 65
            <= (t[i] as int) <= 70) by {
            if i < t.len() - 1 {
                assert(t[i] == digits(n / 16, 16)[i]);
            }
        }
    } else {
        assert(t == seq![digit_char(n)]);
        assert(t.drop_last() =~= Seq::<char>::empty());
        assert(t.last() == digit_char(n));
        assert(hex_digit_value(digit_char(n)) == n);
        assert(hex_value(t.drop_last()) == 0);
    }
}

proof fn lemma_leading_zeros(count: nat, s: Seq<char>)
    ensures
        hex_value(repeat_char('0', count) + s) == hex_value(s),
    decreases count, s.len(),
{
    if s.len() > 0 {
        lemma_leading_zeros(count, s.drop_last());
        assert((repeat_char('0', count) + s).drop_last() =~= repeat_char('0', count) + s.drop_last());
        assert((repeat_char('0', count) + s).last() == s.last());
    } else if count > 0 {
        lemma_leading_zeros((count - 1) as nat, s);
        assert((repeat_char('0', count) + s).drop_last() =~= repeat_char('0', (count - 1) as nat) + s);
        assert((repeat_char('0', count) + s).last() == '0');
        assert(hex_digit_value('0') == 0);
    } else {
        assert(repeat_char('0', count) + s =~= s);
    }
}

/// A number written in hexadecimal reads back as that number, with at least
/// `width` digits.
pub proof fn hex_text_reads_back(n: nat, width: nat)
    ensures
        hex_text(n, width).len() >= width,
        all_hex(hex_text(n, width)),
        hex_value(hex_text(n, width)) == n,
{
    let d = digits(n, 16);
    lemma_hex_digits_read_back(n);
    if d.len() < width {
        let zeros = repeat_char('0', (width - d.len()) as nat);
        lemma_leading_zeros((width - d.len()) as nat, d);
        assert forall|i: int| 0 <= i < (zeros + d).len() implies (48 <= #[trigger] ((zeros
            + d)[i] as int) <= 57 || 65 <= ((zeros + d)[i] as int) <= 70) by {
            if i >= zeros.len() {
                assert((zeros + d)[i] == d[i - zeros.len()]);
            }
        }
    }
}

/// A byte takes two hexadecimal digits.
pub proof fn lemma_byte_hex_len(b: u8)
    ensures
        byte_hex(b).len() == 2,
{
    if b >= 16 {
        assert((b as nat) / 16 < 16);
        assert(digits((b as nat) / 16, 16).len() == 1);
        assert(digits(b as nat, 16).len() == 2);
    } else {
        assert(digits(b as nat, 16).len() == 1);
    }
}

/// `s` holds no escape character (`\x1b`), the start of every ANSI code.
pub open spec fn escape_free(s: Seq<char>) -> bool {
    forall|i: int| 0 <= i < s.len() ==> s[i] != '\x1b'
}

/// A digit is no escape character.
pub proof fn lemma_digit_char_plain(d: nat)
    requires
        d < 16,
    ensures
        digit_char(d) != '\x1b',
{
}

/// Digits hold no escape character.
pub proof fn lemma_digits_escape_free(n: nat, radix: nat)
    requires
        2 <= radix <= 16,
    ensures
        escape_free(digits(n, radix)),
    decreases n,
{
    if n >= radix {
        vstd::arithmetic::div_mod::lemma_div_decreases(n as int, radix as int);
        lemma_digits_escape_free(n / radix, radix);
        lemma_digit_char_plain(n % radix);
    } else {
        lemma_digit_char_plain(n);
    }
}

/// Padding with a plain character keeps a text free of escape characters.
pub proof fn lemma_pad_left_escape_free(s: Seq<char>, width: nat, fill: char)
    requires
        escape_free(s),
        fill != '\x1b',
    ensures
        escape_free(pad_left(s, width, fill)),
{
}

/// Numbers as text hold no escape character.
pub proof fn lemma_numbers_escape_free(n: nat, width: nat)
    ensures
        escape_free(hex_text(n, width)),
        escape_free(dec_text(n)),
        escape_free(dec_text_right(n, width)),
{
    lemma_digits_escape_free(n, 16);
    lemma_digits_escape_free(n, 10);
    lemma_pad_left_escape_free(digits(n, 16), width, '0');
    lemma_pad_left_escape_free(digits(n, 10), width, ' ');
}

/// A byte shown as text is no escape character.
pub proof fn lemma_byte_char_plain(b: u8)
    ensures
        byte_char(b) != '\x1b',
{
}

/// Appends one character to a string with std's `String::push`, trusted to do
/// what std documents: the string's characters become the old ones followed by `c`.
#[verifier::external_body]
pub fn push_char(s: &mut String, c: char)
    ensures
        final(s)@ == old(s)@.push(c),
{
    s.push(c);
}

/// Appends a string slice to a string.
pub fn push_str(s: &mut String, t: &str)
    ensures
        final(s)@ == old(s)@ + t@,
{
    s.append(t);
}

/// Appends `count` copies of `c`.
pub fn push_repeat(s: &mut String, c: char, count: usize)
    ensures
        final(s)@ == old(s)@ + repeat_char(c, count as nat),
{
    let mut i: usize = 0;
    while i < count
        invariant
            i <= count,
            s@ == old(s)@ + repeat_char(c, i as nat),
        decreases count - i,
    {
        push_char(s, c);
        i = i + 1;
        assert(s@ =~= old(s)@ + repeat_char(c, i as nat));
    }
}

/// The character of a digit below 16.
pub fn digit_to_char(d: usize) -> (c: char)
    requires
        d < 16,
    ensures
        c == digit_char(d as nat),
{
    let d8: u8 = d as u8;
    if d8 < 10 {
        (48u8 + d8) as char
    } else {
        (55u8 + d8) as char
    }
}

proof fn lemma_reverse_push(s: Seq<char>, c: char)
    ensures
        s.push(c).reverse() == seq![c] + s.reverse(),
{
    assert(s.push(c).reverse() =~= seq![c] + s.reverse());
}

/// The digits of `n` in base `radix` (10 or 16).
pub fn number_chars(n: usize, radix: usize) -> (v: Vec<char>)
    requires
        radix == 10 || radix == 16,
    ensures
        v@ == digits(n as nat, radix as nat),
{
    // Collect the digits least significant first.
    let mut rev: Vec<char> = Vec::new();
    let mut m: usize = n;
    assert(rev@.reverse() =~= Seq::<char>::empty());
    while m >= radix
        invariant
            radix == 10 || radix == 16,
            digits(n as nat, radix as nat) == digits(m as nat, radix as nat) + rev@.reverse(),
        decreases m,
    {
        let d = digit_to_char(m % radix);
        proof {
            lemma_reverse_push(rev@, d);
            assert(digits(m as nat, radix as nat) == digits((m / radix) as nat, radix as nat).push(d));
            assert(digits((m / radix) as nat, radix as nat) + rev@.push(d).reverse()
                =~= digits(m as nat, radix as nat) + rev@.reverse());
        }
        rev.push(d);
        m = m / radix;
    }
    let d = digit_to_char(m);
    proof {
        lemma_reverse_push(rev@, d);
        assert(digits(m as nat, radix as nat) == seq![d]);
        assert(rev@.push(d).reverse() =~= digits(m as nat, radix as nat) + rev@.reverse());
    }
    rev.push(d);
    let len = rev.len();
    let mut out: Vec<char> = Vec::new();
    let mut k: usize = len;
    while k > 0
        invariant
            k <= len,
            len == rev@.len(),
            out@ == rev@.reverse().subrange(0, (len - k) as int),
        decreases k,
    {
        k = k - 1;
        out.push(rev[k]);
        assert(out@ =~= rev@.reverse().subrange(0, (len - k) as int));
    }
    assert(rev@.reverse().subrange(0, len as int) =~= rev@.reverse());
    out
}

/// Appends the characters of `t`.
pub fn push_chars(s: &mut String, t: &Vec<char>)
    ensures
        final(s)@ == old(s)@ + t@,
{
    let mut k: usize = 0;
    while k < t.len()
        invariant
            k <= t@.len(),
            s@ == old(s)@ + t@.subrange(0, k as int),
        decreases t@.len() - k,
    {
        push_char(s, t[k]);
        k = k + 1;
        assert(s@ =~= old(s)@ + t@.subrange(0, k as int));
    }
    assert(t@.subrange(0, t@.len() as int) =~= t@);
}

/// Appends `n` in base `radix` (10 or 16), left-padded with `fill` to at least `width` characters.
pub fn push_number(s: &mut String, n: usize, radix: usize, width: usize, fill: char)
    requires
        radix == 10 || radix == 16,
    ensures
        final(s)@ == old(s)@ + pad_left(digits(n as nat, radix as nat), width as nat, fill),
{
    let chars = number_chars(n, radix);
    if chars.len() < width {
        push_repeat(s, fill, width - chars.len());
    }
    push_chars(s, &chars);
    assert(final(s)@ =~= old(s)@ + pad_left(digits(n as nat, radix as nat), width as nat, fill));
}

/// Appends `n` in upper-case hexadecimal, zero-padded to at least `width` digits.
pub fn push_hex(s: &mut String, n: usize, width: usize)
    ensures
        final(s)@ == old(s)@ + hex_text(n as nat, width as nat),
{
    push_number(s, n, 16, width, '0');
}

/// Appends `n` in decimal.
pub fn push_dec(s: &mut String, n: usize)
    ensures
        final(s)@ == old(s)@ + dec_text(n as nat),
{
    push_number(s, n, 10, 0, ' ');
    assert(pad_left(digits(n as nat, 10), 0, ' ') == digits(n as nat, 10));
}

/// The character a byte is shown as in the text column.
pub fn printable(b: u8) -> (c: char)
    ensures
        c == byte_char(b),
{
    if 0x20 <= b && b <= 0x7e {
        b as char
    } else {
        '\u{b7}'
    }
}

} // verus!
