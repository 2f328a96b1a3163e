//! Primitive and directive scanners.
//!
//! Each scanner takes the whole input and a position, and reports in a
//! [`Scan`] whether it matched (carrying its result and the position
//! where scanning resumes), did not apply, or failed hard. The contracts
//! tie every outcome to the corresponding spec function in
//! [`crate::grammar`].

use vstd::prelude::*;

use crate::grammar::CLOSE_BRACE;
use crate::grammar::MAX_ARG_MAGNITUDE;
use crate::grammar::OPEN_BRACE;
use crate::grammar::SPACE;
use crate::grammar::ScanError;
use crate::grammar::SpecScan;
use crate::grammar::TokenView;
use crate::grammar::dec_value;
use crate::grammar::dec_value_chars;
use crate::grammar::digit_run_end;
use crate::grammar::hex_digit_value;
use crate::grammar::hex_value_chars;
use crate::grammar::int_end;
use crate::grammar::int_magnitude;
use crate::grammar::int_start_shape;
use crate::grammar::int_value;
use crate::grammar::is_ascii_letter;
use crate::grammar::is_dec_digit;
use crate::grammar::is_dec_digit_char;
use crate::grammar::is_hex_digit;
use crate::grammar::is_hex_digit_char;
use crate::grammar::is_text_byte;
use crate::grammar::lemma_int_bounds;
use crate::grammar::lemma_text_run_end;
use crate::grammar::letter_run_end;
use crate::grammar::scan_bin;
use crate::grammar::scan_hexescape;
use crate::grammar::scan_newline;
use crate::grammar::scan_symbol;
use crate::grammar::scan_text;
use crate::grammar::scan_word;
use crate::grammar::seq_u8_to_chars;
use crate::grammar::text_run_end;
use vstd::slice::slice_subrange;
use vstd::slice::slice_to_vec;

verus! {

/// Outcome of one scanner: a match carrying its result and the position
/// where scanning resumes, no match, or a hard failure.
#[derive(Debug, PartialEq, Eq)]
pub enum Scan<T> {
    Match(T, usize),
    NoMatch,
    Fail(ScanError),
}

/// How a string failed to read as a number.
#[derive(Clone, Copy, Debug, PartialEq, Eq, Structural)]
pub enum IntError {
    /// The string is empty.
    Empty,
    /// A character is not a digit of the requested base.
    InvalidDigit,
    /// The digits' value exceeds the result type's range.
    PosOverflow,
}

// ---------------------------------------------------------------------
// Byte classes, executable side
// ---------------------------------------------------------------------

/// Decides `is_ascii_letter` on a byte.
pub fn byte_is_letter(b: u8) -> (r: bool)
    ensures
        r == is_ascii_letter(b),
{
    (0x41 <= b && b <= 0x5A) || (0x61 <= b && b <= 0x7A)
}

/// Decides `is_dec_digit` on a byte.
pub fn byte_is_digit(b: u8) -> (r: bool)
    ensures
        r == is_dec_digit(b),
{
    0x30 <= b && b <= 0x39
}

/// Decides `is_hex_digit` on a byte.
pub fn byte_is_hex_digit(b: u8) -> (r: bool)
    ensures
        r == is_hex_digit(b),
{
    (0x30 <= b && b <= 0x39) || (0x41 <= b && b <= 0x46) || (0x61 <= b && b <= 0x66)
}

/// Decides `is_text_byte` on a byte.
pub fn byte_is_text(b: u8) -> (r: bool)
    ensures
        r == is_text_byte(b),
{
    b != 0x5C && b != 0x7B && b != 0x7D && b != 0x0D && b != 0x0A
}

/// Value of one hexadecimal digit byte.
fn hex_digit_val(b: u8) -> (v: u8)
    requires
        is_hex_digit(b),
    ensures
        v as int == hex_digit_value(b),
{
    if 0x30 <= b && b <= 0x39 {
        b - 0x30
    } else if 0x41 <= b && b <= 0x46 {
        b - 0x41 + 10
    } else {
        b - 0x61 + 10
    }
}

// ---------------------------------------------------------------------
// Maximal runs, executable side
// ---------------------------------------------------------------------

/// Scans to the end of the maximal letter run starting at `from`.
fn scan_letter_run(input: &[u8], from: usize) -> (r: usize)
    requires
        from <= input@.len(),
    ensures
        r as int == letter_run_end(input@, from as int),
        from <= r <= input@.len(),
{
    let mut j = from;
    while j < input.len() && byte_is_letter(input[j])
        invariant
            from <= j <= input@.len(),
            letter_run_end(input@, from as int) == letter_run_end(input@, j as int),
        decreases input@.len() - j,
    {
        j = j + 1;
    }
    j
}

/// Scans to the end of the maximal decimal digit run starting at `from`.
fn scan_digit_run(input: &[u8], from: usize) -> (r: usize)
    requires
        from <= input@.len(),
    ensures
        r as int == digit_run_end(input@, from as int),
        from <= r <= input@.len(),
{
    let mut j = from;
    while j < input.len() && byte_is_digit(input[j])
        invariant
            from <= j <= input@.len(),
            digit_run_end(input@, from as int) == digit_run_end(input@, j as int),
        decreases input@.len() - j,
    {
        j = j + 1;
    }
    j
}

/// Scans to the end of the maximal text-byte run starting at `from`.
fn scan_text_run(input: &[u8], from: usize) -> (r: usize)
    requires
        from <= input@.len(),
    ensures
        r as int == text_run_end(input@, from as int),
        from <= r <= input@.len(),
{
    let mut j = from;
    while j < input.len() && byte_is_text(input[j])
        invariant
            from <= j <= input@.len(),
            text_run_end(input@, from as int) == text_run_end(input@, j as int),
        decreases input@.len() - j,
    {
        j = j + 1;
    }
    j
}

// ---------------------------------------------------------------------
// Decimal digit runs to values
// ---------------------------------------------------------------------

/// One more than the largest representable argument magnitude: digits
/// accumulate capped at this bound, which is enough to decide overflow.
const DEC_VALUE_CAP: u64 = 0x8000_0000;

/// Value of the decimal digit bytes `input[from..to]`, or `None` when it
/// exceeds the 32-bit signed magnitude range.
fn digits_value(input: &[u8], from: usize, to: usize) -> (r: Option<u32>)
    requires
        from <= to <= input@.len(),
        forall|k: int| from <= k < to ==> is_dec_digit(#[trigger] input@[k]),
    ensures
        match r {
            Some(v) => v as int == dec_value(input@.subrange(from as int, to as int)) && v
                <= MAX_ARG_MAGNITUDE,
            None => dec_value(input@.subrange(from as int, to as int)) > MAX_ARG_MAGNITUDE,
        },
{
    let mut acc: u64 = 0;
    let mut j = from;
    while j < to
        invariant
            from <= j <= to <= input@.len(),
            forall|k: int| from <= k < to ==> is_dec_digit(#[trigger] input@[k]),
            0 <= dec_value(input@.subrange(from as int, j as int)),
            acc <= DEC_VALUE_CAP,
            acc as int == (if dec_value(input@.subrange(from as int, j as int))
                <= DEC_VALUE_CAP {
                dec_value(input@.subrange(from as int, j as int))
            } else {
                DEC_VALUE_CAP as int
            }),
        decreases to - j,
    {
        let d = input[j] - 0x30;
        proof {
            assert(input@.subrange(from as int, j as int + 1).drop_last() =~= input@.subrange(
                from as int,
                j as int,
            ));
        }
        let sum = acc * 10 + (d as u64);
        acc = if sum > DEC_VALUE_CAP {
            DEC_VALUE_CAP
        } else {
            sum
        };
        j = j + 1;
    }
    if acc > 0x7FFF_FFFF {
        None
    } else {
        Some(acc as u32)
    }
}

// ---------------------------------------------------------------------
// String helpers
// ---------------------------------------------------------------------

/// Signed-integer reading of a digit string: the digits' value with the
/// separately scanned sign applied. The sign is applied after the digits
/// are read, so the magnitude bound is `i32::MAX` for both signs.
pub fn str_to_int(s: &str, sign: Option<&str>) -> (r: Result<i32, IntError>)
    requires
        match sign {
            Some(g) => g@ == seq!['-'] || g@ == seq!['+'],
            None => true,
        },
    ensures
        s@.len() == 0 ==> r == Err::<i32, IntError>(IntError::Empty),
        (s@.len() > 0 && !(forall|k: int| 0 <= k < s@.len() ==> is_dec_digit_char(#[trigger] s@[k])))
            ==> r == Err::<i32, IntError>(IntError::InvalidDigit),
        (s@.len() > 0 && (forall|k: int| 0 <= k < s@.len() ==> is_dec_digit_char(#[trigger] s@[k]))
            && dec_value_chars(s@) > MAX_ARG_MAGNITUDE) ==> r == Err::<i32, IntError>(
            IntError::PosOverflow,
        ),
        (s@.len() > 0 && (forall|k: int| 0 <= k < s@.len() ==> is_dec_digit_char(#[trigger] s@[k]))
            && dec_value_chars(s@) <= MAX_ARG_MAGNITUDE) ==> (r matches Ok(v) && v as int == (
        if sign matches Some(g) && g@ == seq!['-'] {
            -dec_value_chars(s@)
        } else {
            dec_value_chars(s@)
        })),
{
    let n = s.unicode_len();
    if n == 0 {
        return Err(IntError::Empty);
    }
    let mut acc: u64 = 0;
    let mut j: usize = 0;
    while j < n
        invariant
            0 <= j <= n,
            n as int == s@.len(),
            forall|k: int| 0 <= k < j ==> is_dec_digit_char(#[trigger] s@[k]),
            0 <= dec_value_chars(s@.subrange(0, j as int)),
            acc <= DEC_VALUE_CAP,
            acc as int == (if dec_value_chars(s@.subrange(0, j as int)) <= DEC_VALUE_CAP {
                dec_value_chars(s@.subrange(0, j as int))
            } else {
                DEC_VALUE_CAP as int
            }),
        decreases n - j,
    {
        let c = s.get_char(j);
        let u = c as u32;
        if !(0x30 <= u && u <= 0x39) {
            return Err(IntError::InvalidDigit);
        }
        proof {
            assert(s@.subrange(0, j as int + 1).drop_last() =~= s@.subrange(0, j as int));
        }
        let sum = acc * 10 + ((u - 0x30) as u64);
        acc = if sum > DEC_VALUE_CAP {
            DEC_VALUE_CAP
        } else {
            sum
        };
        j = j + 1;
    }
    proof {
        assert(s@.subrange(0, n as int) =~= s@);
    }
    if acc > 0x7FFF_FFFF {
        return Err(IntError::PosOverflow);
    }
    let negative = match sign {
        Some(g) => {
            let gb = g.as_bytes();
            proof {
                vstd::string::is_ascii_spec_bytes(g);
            }
            gb.len() == 1 && gb[0] == 0x2D
        },
        None => false,
    };
    let magnitude = acc as i64;
    if negative {
        Ok((-magnitude) as i32)
    } else {
        Ok(magnitude as i32)
    }
}

/// Hexadecimal reading of a string as one byte value.
pub fn hex_str_to_int(s: &str) -> (r: Result<u8, IntError>)
    ensures
        s@.len() == 0 ==> r == Err::<u8, IntError>(IntError::Empty),
        (s@.len() > 0 && !(forall|k: int| 0 <= k < s@.len() ==> is_hex_digit_char(#[trigger] s@[k])))
            ==> r == Err::<u8, IntError>(IntError::InvalidDigit),
        (s@.len() > 0 && (forall|k: int| 0 <= k < s@.len() ==> is_hex_digit_char(#[trigger] s@[k]))
            && hex_value_chars(s@) > 255) ==> r == Err::<u8, IntError>(IntError::PosOverflow),
        (s@.len() > 0 && (forall|k: int| 0 <= k < s@.len() ==> is_hex_digit_char(#[trigger] s@[k]))
            && hex_value_chars(s@) <= 255) ==> (r matches Ok(v) && v as int == hex_value_chars(s@)),
{
    let n = s.unicode_len();
    if n == 0 {
        return Err(IntError::Empty);
    }
    let mut acc: u32 = 0;
    let mut j: usize = 0;
    while j < n
        invariant
            0 <= j <= n,
            n as int == s@.len(),
            forall|k: int| 0 <= k < j ==> is_hex_digit_char(#[trigger] s@[k]),
            0 <= hex_value_chars(s@.subrange(0, j as int)),
            acc <= 256,
            acc as int == (if hex_value_chars(s@.subrange(0, j as int)) <= 256 {
                hex_value_chars(s@.subrange(0, j as int))
            } else {
                256int
            }),
        decreases n - j,
    {
        let c = s.get_char(j);
        let u = c as u32;
        let d: u32 = if 0x30 <= u && u <= 0x39 {
            u - 0x30
        } else if 0x41 <= u && u <= 0x46 {
            u - 0x41 + 10
        } else if 0x61 <= u && u <= 0x66 {
            u - 0x61 + 10
        } else {
            return Err(IntError::InvalidDigit);
        };
        proof {
            assert(s@.subrange(0, j as int + 1).drop_last() =~= s@.subrange(0, j as int));
        }
        let sum = acc * 16 + d;
        acc = if sum > 256 {
            256
        } else {
            sum
        };
        j = j + 1;
    }
    proof {
        assert(s@.subrange(0, n as int) =~= s@);
    }
    if acc > 255 {
        return Err(IntError::PosOverflow);
    }
    Ok(acc as u8)
}

// ---------------------------------------------------------------------
// Primitive scanners
// ---------------------------------------------------------------------

/// Raw shape of an optionally signed decimal integer at `pos`: whether a
/// minus sign is present, and where the digit run ends. No value is
/// computed, so overflow cannot fail here.
pub fn signed_int_raw(input: &[u8], pos: usize) -> (r: Scan<bool>)
    requires
        pos <= input@.len(),
    ensures
        int_start_shape(input@, pos as int) ==> (r matches Scan::Match(neg, e) && neg
            == (input@[pos as int] == 0x2D) && e as int == int_end(input@, pos as int)),
        !int_start_shape(input@, pos as int) ==> r is NoMatch,
{
    if pos < input.len() && byte_is_digit(input[pos]) {
        let e = scan_digit_run(input, pos);
        Scan::Match(false, e)
    } else if pos < input.len() && input[pos] == 0x2D && pos + 1 < input.len() && byte_is_digit(
        input[pos + 1],
    ) {
        let e = scan_digit_run(input, pos + 1);
        Scan::Match(true, e)
    } else {
        Scan::NoMatch
    }
}

/// Optionally signed decimal integer at `pos`, with its value. The digit
/// run's magnitude is bounded by the 32-bit signed maximum before the
/// sign applies; beyond it the scan fails hard.
pub fn signed_int(input: &[u8], pos: usize) -> (r: Scan<i32>)
    requires
        pos <= input@.len(),
    ensures
        ({
            let s = input@;
            let i = pos as int;
            if !int_start_shape(s, i) {
                r is NoMatch
            } else if int_magnitude(s, i) > MAX_ARG_MAGNITUDE {
                r == Scan::<i32>::Fail(ScanError::MalformedInteger)
            } else {
                r matches Scan::Match(v, e) && v as int == int_value(s, i) && e as int == int_end(
                    s,
                    i,
                )
            }
        }),
{
    match signed_int_raw(input, pos) {
        Scan::NoMatch => Scan::NoMatch,
        Scan::Fail(e) => Scan::Fail(e),
        Scan::Match(negative, e) => {
            proof {
                lemma_int_bounds(input@, pos as int);
            }
            let dstart = if negative {
                pos + 1
            } else {
                pos
            };
            match digits_value(input, dstart, e) {
                None => Scan::Fail(ScanError::MalformedInteger),
                Some(magnitude) => {
                    let v = if negative {
                        (-(magnitude as i64)) as i32
                    } else {
                        magnitude as i32
                    };
                    Scan::Match(v, e)
                },
            }
        },
    }
}

/// Two hexadecimal digit bytes at `pos`, kept verbatim. Both positions
/// are checked as a unit: a single valid digit is not consumed.
pub fn hexbyte_raw(input: &[u8], pos: usize) -> (r: Scan<(u8, u8)>)
    requires
        pos <= input@.len(),
    ensures
        ({
            let s = input@;
            let i = pos as int;
            if i + 2 <= s.len() && is_hex_digit(s[i]) && is_hex_digit(s[i + 1]) {
                r matches Scan::Match(d, e) && d.0 == s[i] && d.1 == s[i + 1] && e == i + 2
            } else {
                r is NoMatch
            }
        }),
{
    if input.len() - pos >= 2 && byte_is_hex_digit(input[pos]) && byte_is_hex_digit(
        input[pos + 1],
    ) {
        Scan::Match((input[pos], input[pos + 1]), pos + 2)
    } else {
        Scan::NoMatch
    }
}

/// Two hexadecimal digit bytes at `pos`, decoded as one byte value.
pub fn hexbyte(input: &[u8], pos: usize) -> (r: Scan<u8>)
    requires
        pos <= input@.len(),
    ensures
        ({
            let s = input@;
            let i = pos as int;
            if i + 2 <= s.len() && is_hex_digit(s[i]) && is_hex_digit(s[i + 1]) {
                r matches Scan::Match(v, e) && v as int == hex_digit_value(s[i]) * 16
                    + hex_digit_value(s[i + 1]) && e == i + 2
            } else {
                r is NoMatch
            }
        }),
{
    match hexbyte_raw(input, pos) {
        Scan::NoMatch => Scan::NoMatch,
        Scan::Fail(e) => Scan::Fail(e),
        Scan::Match((hi, lo), e) => Scan::Match(hex_digit_val(hi) * 16 + hex_digit_val(lo), e),
    }
}

// ---------------------------------------------------------------------
// Directive scanners
// ---------------------------------------------------------------------

/// Control symbol at `pos`: a backslash and one byte that is neither a
/// letter nor an apostrophe, returned as a character.
pub fn control_symbol_raw(input: &[u8], pos: usize) -> (r: Scan<char>)
    requires
        pos <= input@.len(),
    ensures
        ({
            let s = input@;
            let i = pos as int;
            match scan_symbol(s, i) {
                SpecScan::Match(t, j) => r matches Scan::Match(c, e) && t
                    == TokenView::ControlSymbol(c) && e == j,
                SpecScan::NoMatch => r is NoMatch,
                SpecScan::Fail(er) => false,
            }
        }),
{
    if input.len() - pos >= 2 && input[pos] == 0x5C && !byte_is_letter(input[pos + 1])
        && input[pos + 1] != 0x27 {
        Scan::Match(input[pos + 1] as char, pos + 2)
    } else {
        Scan::NoMatch
    }
}

/// Appends the characters of the letter bytes `input[from..to]` to `name`.
fn append_name_chars(name: &mut String, input: &[u8], from: usize, to: usize)
    requires
        from <= to <= input@.len(),
    ensures
        final(name)@ == old(name)@ + seq_u8_to_chars(input@.subrange(from as int, to as int)),
{
    let mut k = from;
    while k < to
        invariant
            from <= k <= to <= input@.len(),
            name@ == old(name)@ + seq_u8_to_chars(input@.subrange(from as int, k as int)),
        decreases to - k,
    {
        push_char(name, input[k] as char);
        proof {
            assert(input@.subrange(from as int, k as int + 1) =~= input@.subrange(
                from as int,
                k as int,
            ).push(input@[k as int]));
            assert(old(name)@ + seq_u8_to_chars(input@.subrange(from as int, k as int + 1)) =~= (
            old(name)@ + seq_u8_to_chars(input@.subrange(from as int, k as int))).push(
                input@[k as int] as char,
            ));
        }
        k = k + 1;
    }
    proof {
        assert(seq_u8_to_chars(input@.subrange(from as int, from as int)) =~= Seq::<char>::empty());
        assert(old(name)@ + Seq::<char>::empty() =~= old(name)@);
    }
}

/// Relies on `String::push`: appends the one character to the end of the
/// string.
#[verifier::external_body]
fn push_char(s: &mut String, c: char)
    ensures
        final(s)@ == old(s)@.push(c),
{
    s.push(c);
}

/// One optional space at `j`, absorbed as a delimiter.
fn absorb_space(input: &[u8], j: usize) -> (r: usize)
    requires
        j <= input@.len(),
    ensures
        r as int == (if (j as int) < input@.len() && input@[j as int] == SPACE {
            j as int + 1
        } else {
            j as int
        }),
{
    if j < input.len() && input[j] == 0x20 {
        j + 1
    } else {
        j
    }
}

/// Control word at `pos`: a backslash, a letter-run name, an optional
/// signed decimal argument, and one optional absorbed trailing space.
pub fn control_word_raw(input: &[u8], pos: usize) -> (r: Scan<(String, Option<i32>)>)
    requires
        pos <= input@.len(),
    ensures
        ({
            let s = input@;
            let i = pos as int;
            match scan_word(s, i) {
                SpecScan::Match(t, j) => t matches TokenView::ControlWord { name, arg } && (
                r matches Scan::Match(p, e) && p.0@ == name && p.1 == arg && e == j),
                SpecScan::NoMatch => r is NoMatch,
                SpecScan::Fail(er) => r == Scan::<(String, Option<i32>)>::Fail(er),
            }
        }),
{
    if input.len() - pos >= 2 && input[pos] == 0x5C && byte_is_letter(input[pos + 1]) {
        let name_end = scan_letter_run(input, pos + 1);
        let mut name = String::new();
        append_name_chars(&mut name, input, pos + 1, name_end);
        match signed_int(input, name_end) {
            Scan::Fail(e) => Scan::Fail(e),
            Scan::NoMatch => {
                let j2 = absorb_space(input, name_end);
                Scan::Match((name, None), j2)
            },
            Scan::Match(v, j) => {
                proof {
                    lemma_int_bounds(input@, name_end as int);
                }
                let j2 = absorb_space(input, j);
                Scan::Match((name, Some(v)), j2)
            },
        }
    } else {
        Scan::NoMatch
    }
}

/// Hex-escape directive at `pos`: a backslash, an apostrophe, and two
/// hexadecimal digits, decoded into the argument of a control word named
/// `'`. No trailing space is absorbed, and once the prefix is present
/// anything but two hex digits fails the scan.
pub fn control_word_hexbyte_raw(input: &[u8], pos: usize) -> (r: Scan<(String, Option<i32>)>)
    requires
        pos <= input@.len(),
    ensures
        ({
            let s = input@;
            let i = pos as int;
            match scan_hexescape(s, i) {
                SpecScan::Match(t, j) => t matches TokenView::ControlWord { name, arg } && (
                r matches Scan::Match(p, e) && p.0@ == name && p.1 == arg && e == j),
                SpecScan::NoMatch => r is NoMatch,
                SpecScan::Fail(er) => r == Scan::<(String, Option<i32>)>::Fail(er),
            }
        }),
{
    if input.len() - pos >= 2 && input[pos] == 0x5C && input[pos + 1] == 0x27 {
        match hexbyte(input, pos + 2) {
            Scan::Match(v, e) => {
                let mut name = String::new();
                push_char(&mut name, '\'');
                proof {
                    assert(name@ =~= seq!['\'']);
                }
                Scan::Match((name, Some(v as i32)), e)
            },
            _ => Scan::Fail(ScanError::InvalidHexDigit),
        }
    } else {
        Scan::NoMatch
    }
}

/// Binary run at `pos`: the literal `\bin`, an optional length with one
/// optional absorbed trailing space, then exactly that many raw payload
/// bytes.
pub fn control_bin_raw(input: &[u8], pos: usize) -> (r: Scan<Vec<u8>>)
    requires
        pos <= input@.len(),
    ensures
        ({
            let s = input@;
            let i = pos as int;
            match scan_bin(s, i) {
                SpecScan::Match(t, j) => t matches TokenView::ControlBin(data) && (r matches Scan::Match(
                    p,
                    e,
                ) && p@ == data && e == j),
                SpecScan::NoMatch => r is NoMatch,
                SpecScan::Fail(er) => r == Scan::<Vec<u8>>::Fail(er),
            }
        }),
{
    if input.len() - pos >= 4 && input[pos] == 0x5C && input[pos + 1] == 0x62 && input[pos + 2]
        == 0x69 && input[pos + 3] == 0x6E {
        match signed_int(input, pos + 4) {
            Scan::Fail(e) => Scan::Fail(e),
            Scan::NoMatch => Scan::Match(Vec::new(), pos + 4),
            Scan::Match(v, j) => {
                proof {
                    lemma_int_bounds(input@, pos as int + 4);
                }
                if v < 0 {
                    Scan::NoMatch
                } else {
                    let j2 = absorb_space(input, j);
                    let n = v as usize;
                    if n <= input.len() - j2 {
                        let payload = slice_to_vec(slice_subrange(input, j2, j2 + n));
                        Scan::Match(payload, j2 + n)
                    } else {
                        Scan::Fail(ScanError::TruncatedBinaryPayload)
                    }
                }
            },
        }
    } else {
        Scan::NoMatch
    }
}

/// Text run at `pos`: the maximal run of one or more text bytes, copied
/// out verbatim.
pub fn rtf_text_raw(input: &[u8], pos: usize) -> (r: Scan<Vec<u8>>)
    requires
        pos <= input@.len(),
    ensures
        ({
            let s = input@;
            let i = pos as int;
            match scan_text(s, i) {
                SpecScan::Match(t, j) => t matches TokenView::Text(data) && (r matches Scan::Match(
                    p,
                    e,
                ) && p@ == data && e == j),
                SpecScan::NoMatch => r is NoMatch,
                SpecScan::Fail(er) => false,
            }
        }),
{
    if pos < input.len() && byte_is_text(input[pos]) {
        let e = scan_text_run(input, pos);
        proof {
            lemma_text_run_end(input@, pos as int + 1);
        }
        let payload = slice_to_vec(slice_subrange(input, pos, e));
        Scan::Match(payload, e)
    } else {
        Scan::NoMatch
    }
}

/// Group-open delimiter at `pos`: a single `{` byte.
pub fn start_group_raw(input: &[u8], pos: usize) -> (r: Scan<char>)
    requires
        pos <= input@.len(),
    ensures
        ({
            let s = input@;
            let i = pos as int;
            if i < s.len() && s[i] == OPEN_BRACE {
                r matches Scan::Match(c, e) && c == '{' && e == i + 1
            } else {
                r is NoMatch
            }
        }),
{
    if pos < input.len() && input[pos] == 0x7B {
        Scan::Match('{', pos + 1)
    } else {
        Scan::NoMatch
    }
}

/// Group-close delimiter at `pos`: a single `}` byte.
pub fn end_group_raw(input: &[u8], pos: usize) -> (r: Scan<char>)
    requires
        pos <= input@.len(),
    ensures
        ({
            let s = input@;
            let i = pos as int;
            if i < s.len() && s[i] == CLOSE_BRACE {
                r matches Scan::Match(c, e) && c == '}' && e == i + 1
            } else {
                r is NoMatch
            }
        }),
{
    if pos < input.len() && input[pos] == 0x7D {
        Scan::Match('}', pos + 1)
    } else {
        Scan::NoMatch
    }
}

/// Line terminator at `pos`: CRLF, a bare LF, or a bare CR, in that
/// precedence order, returning the bytes actually consumed.
pub fn newline_raw(input: &[u8], pos: usize) -> (r: Scan<Vec<u8>>)
    requires
        pos <= input@.len(),
    ensures
        ({
            let s = input@;
            let i = pos as int;
            match scan_newline(s, i) {
                SpecScan::Match(t, j) => t is Newline && (r matches Scan::Match(v, e) && v@
                    == s.subrange(i, j) && e == j),
                SpecScan::NoMatch => r is NoMatch,
                SpecScan::Fail(er) => false,
            }
        }),
{
    if input.len() - pos >= 2 && input[pos] == 0x0D && input[pos + 1] == 0x0A {
        let mut v: Vec<u8> = Vec::new();
        v.push(0x0D);
        v.push(0x0A);
        proof {
            assert(v@ =~= input@.subrange(pos as int, pos as int + 2));
        }
        Scan::Match(v, pos + 2)
    } else if pos < input.len() && (input[pos] == 0x0A || input[pos] == 0x0D) {
        let mut v: Vec<u8> = Vec::new();
        v.push(input[pos]);
        proof {
            assert(v@ =~= input@.subrange(pos as int, pos as int + 1));
        }
        Scan::Match(v, pos + 1)
    } else {
        Scan::NoMatch
    }
}

} // verus!
