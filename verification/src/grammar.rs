//! Specification of the lexical grammar.
//!
//! Everything the executable scanners promise is stated here, as spec
//! functions over a byte sequence `s` and a position `i`. Each `scan_*`
//! function gives the exact meaning of one grammar recognizer: either it
//! matches a token and says where scanning resumes, or it does not match
//! (and the next recognizer in the precedence order is tried), or it fails
//! hard with a [`ScanError`]. `scan_token` fixes the precedence order and
//! `scan_stream` iterates it over a whole input. `rtf_bytes`,
//! `delimiter_bytes` and `stream_bytes` are the serializer's counterpart
//! specification.

use vstd::prelude::*;

verus! {

// Byte values the grammar singles out.
pub const BACKSLASH: u8 = 0x5C;
pub const OPEN_BRACE: u8 = 0x7B;
pub const CLOSE_BRACE: u8 = 0x7D;
pub const CARRIAGE_RETURN: u8 = 0x0D;
pub const LINE_FEED: u8 = 0x0A;
pub const SPACE: u8 = 0x20;
pub const APOSTROPHE: u8 = 0x27;
pub const MINUS_SIGN: u8 = 0x2D;
pub const DIGIT_ZERO: u8 = 0x30;

/// Largest magnitude a directive's numeric argument may take: the
/// arguments are 32-bit signed values whose sign is scanned separately,
/// so both `n` and `-n` are representable exactly when `n` is at most
/// this bound.
pub const MAX_ARG_MAGNITUDE: u32 = 0x7FFF_FFFF;

// ---------------------------------------------------------------------
// Byte classes
// ---------------------------------------------------------------------

pub open spec fn is_ascii_letter(b: u8) -> bool {
    (0x41 <= b <= 0x5A) || (0x61 <= b <= 0x7A)
}

pub open spec fn is_dec_digit(b: u8) -> bool {
    0x30 <= b <= 0x39
}

pub open spec fn is_hex_digit(b: u8) -> bool {
    is_dec_digit(b) || (0x41 <= b <= 0x46) || (0x61 <= b <= 0x66)
}

/// Numeric value of one hexadecimal digit byte.
pub open spec fn hex_digit_value(b: u8) -> int {
    if is_dec_digit(b) {
        b - 0x30
    } else if 0x41 <= b <= 0x46 {
        b - 0x41 + 10
    } else {
        b - 0x61 + 10
    }
}

/// A byte that belongs to a plain text run: anything but a backslash,
/// a group delimiter, or a line-terminator byte.
pub open spec fn is_text_byte(b: u8) -> bool {
    b != BACKSLASH && b != OPEN_BRACE && b != CLOSE_BRACE && b != CARRIAGE_RETURN && b
        != LINE_FEED
}

pub open spec fn is_ascii_letter_char(c: char) -> bool {
    ('A' <= c <= 'Z') || ('a' <= c <= 'z')
}

pub open spec fn is_dec_digit_char(c: char) -> bool {
    '0' <= c <= '9'
}

pub open spec fn is_hex_digit_char(c: char) -> bool {
    is_dec_digit_char(c) || ('A' <= c <= 'F') || ('a' <= c <= 'f')
}

/// Numeric value of one hexadecimal digit character.
pub open spec fn hex_digit_value_char(c: char) -> int {
    if is_dec_digit_char(c) {
        c as int - '0' as int
    } else if 'A' <= c <= 'F' {
        c as int - 'A' as int + 10
    } else {
        c as int - 'a' as int + 10
    }
}

/// Value of a run of decimal digit characters, most significant first.
pub open spec fn dec_value_chars(s: Seq<char>) -> int
    decreases s.len(),
{
    if s.len() == 0 {
        0
    } else {
        dec_value_chars(s.drop_last()) * 10 + (s.last() as int - '0' as int)
    }
}

/// Value of a run of hexadecimal digit characters, most significant first.
pub open spec fn hex_value_chars(s: Seq<char>) -> int
    decreases s.len(),
{
    if s.len() == 0 {
        0
    } else {
        hex_value_chars(s.drop_last()) * 16 + hex_digit_value_char(s.last())
    }
}

pub open spec fn seq_u8_to_chars(s: Seq<u8>) -> Seq<char> {
    s.map_values(|b: u8| b as char)
}

pub open spec fn seq_chars_to_u8(s: Seq<char>) -> Seq<u8> {
    s.map_values(|c: char| c as u8)
}

// ---------------------------------------------------------------------
// Maximal runs
// ---------------------------------------------------------------------

/// End of the maximal run of ASCII letters starting at `i`.
pub open spec fn letter_run_end(s: Seq<u8>, i: int) -> int
    decreases s.len() - i
        when 0 <= i <= s.len()
{
    if i < s.len() && is_ascii_letter(s[i]) {
        letter_run_end(s, i + 1)
    } else {
        i
    }
}

/// End of the maximal run of decimal digits starting at `i`.
pub open spec fn digit_run_end(s: Seq<u8>, i: int) -> int
    decreases s.len() - i
        when 0 <= i <= s.len()
{
    if i < s.len() && is_dec_digit(s[i]) {
        digit_run_end(s, i + 1)
    } else {
        i
    }
}

/// End of the maximal run of text bytes starting at `i`.
pub open spec fn text_run_end(s: Seq<u8>, i: int) -> int
    decreases s.len() - i
        when 0 <= i <= s.len()
{
    if i < s.len() && is_text_byte(s[i]) {
        text_run_end(s, i + 1)
    } else {
        i
    }
}

pub proof fn lemma_letter_run_end(s: Seq<u8>, i: int)
    requires
        0 <= i <= s.len(),
    ensures
        i <= letter_run_end(s, i) <= s.len(),
        forall|k: int| i <= k < letter_run_end(s, i) ==> is_ascii_letter(#[trigger] s[k]),
        letter_run_end(s, i) < s.len() ==> !is_ascii_letter(s[letter_run_end(s, i)]),
    decreases s.len() - i,
{
    if i < s.len() && is_ascii_letter(s[i]) {
        lemma_letter_run_end(s, i + 1);
    }
}

pub proof fn lemma_digit_run_end(s: Seq<u8>, i: int)
    requires
        0 <= i <= s.len(),
    ensures
        i <= digit_run_end(s, i) <= s.len(),
        forall|k: int| i <= k < digit_run_end(s, i) ==> is_dec_digit(#[trigger] s[k]),
        digit_run_end(s, i) < s.len() ==> !is_dec_digit(s[digit_run_end(s, i)]),
    decreases s.len() - i,
{
    if i < s.len() && is_dec_digit(s[i]) {
        lemma_digit_run_end(s, i + 1);
    }
}

pub proof fn lemma_text_run_end(s: Seq<u8>, i: int)
    requires
        0 <= i <= s.len(),
    ensures
        i <= text_run_end(s, i) <= s.len(),
        forall|k: int| i <= k < text_run_end(s, i) ==> is_text_byte(#[trigger] s[k]),
        text_run_end(s, i) < s.len() ==> !is_text_byte(s[text_run_end(s, i)]),
    decreases s.len() - i,
{
    if i < s.len() && is_text_byte(s[i]) {
        lemma_text_run_end(s, i + 1);
    }
}

/// A run known byte by byte has exactly the end its bytes show.
pub proof fn lemma_letter_run_exact(s: Seq<u8>, i: int, e: int)
    requires
        0 <= i <= e <= s.len(),
        forall|k: int| i <= k < e ==> is_ascii_letter(#[trigger] s[k]),
        e == s.len() || !is_ascii_letter(s[e]),
    ensures
        letter_run_end(s, i) == e,
    decreases e - i,
{
    if i < e {
        lemma_letter_run_exact(s, i + 1, e);
    }
}

/// A run known byte by byte has exactly the end its bytes show.
pub proof fn lemma_digit_run_exact(s: Seq<u8>, i: int, e: int)
    requires
        0 <= i <= e <= s.len(),
        forall|k: int| i <= k < e ==> is_dec_digit(#[trigger] s[k]),
        e == s.len() || !is_dec_digit(s[e]),
    ensures
        digit_run_end(s, i) == e,
    decreases e - i,
{
    if i < e {
        lemma_digit_run_exact(s, i + 1, e);
    }
}

/// A run known byte by byte has exactly the end its bytes show.
pub proof fn lemma_text_run_exact(s: Seq<u8>, i: int, e: int)
    requires
        0 <= i <= e <= s.len(),
        forall|k: int| i <= k < e ==> is_text_byte(#[trigger] s[k]),
        e == s.len() || !is_text_byte(s[e]),
    ensures
        text_run_end(s, i) == e,
    decreases e - i,
{
    if i < e {
        lemma_text_run_exact(s, i + 1, e);
    }
}

// ---------------------------------------------------------------------
// Decimal numbers
// ---------------------------------------------------------------------

/// Value of a run of decimal digit bytes, most significant first.
pub open spec fn dec_value(s: Seq<u8>) -> int
    decreases s.len(),
{
    if s.len() == 0 {
        0
    } else {
        dec_value(s.drop_last()) * 10 + (s.last() - DIGIT_ZERO)
    }
}

/// Canonical decimal digit bytes of `n`: no sign, no leading zeros
/// (a single `0` for zero).
pub open spec fn dec_rep(n: nat) -> Seq<u8>
    decreases n,
{
    if n < 10 {
        seq![(DIGIT_ZERO + n) as u8]
    } else {
        dec_rep(n / 10).push((DIGIT_ZERO + n % 10) as u8)
    }
}

/// Decimal digit bytes of a signed value: a minus sign before the
/// magnitude when the value is negative.
pub open spec fn dec_rep_signed(v: int) -> Seq<u8> {
    if v < 0 {
        seq![MINUS_SIGN] + dec_rep((-v) as nat)
    } else {
        dec_rep(v as nat)
    }
}

pub proof fn lemma_dec_value_nonneg(s: Seq<u8>)
    requires
        forall|k: int| 0 <= k < s.len() ==> is_dec_digit(#[trigger] s[k]),
    ensures
        dec_value(s) >= 0,
    decreases s.len(),
{
    if s.len() > 0 {
        lemma_dec_value_nonneg(s.drop_last());
    }
}

pub proof fn lemma_dec_rep_digits(n: nat)
    ensures
        dec_rep(n).len() > 0,
        forall|k: int| 0 <= k < dec_rep(n).len() ==> is_dec_digit(#[trigger] dec_rep(n)[k]),
    decreases n,
{
    if n >= 10 {
        lemma_dec_rep_digits(n / 10);
    }
}

/// Reading back the canonical decimal digits of `n` gives `n`.
pub proof fn lemma_dec_value_of_rep(n: nat)
    ensures
        dec_value(dec_rep(n)) == n,
    decreases n,
{
    if n < 10 {
        assert(dec_rep(n).drop_last() =~= Seq::<u8>::empty());
        assert(dec_value(Seq::<u8>::empty()) == 0);
    } else {
        lemma_dec_value_of_rep(n / 10);
        assert(dec_rep(n).drop_last() =~= dec_rep(n / 10));
        assert(n == (n / 10) * 10 + n % 10) by (nonlinear_arith);
    }
}

// ---------------------------------------------------------------------
// Signed integer scanning
// ---------------------------------------------------------------------

/// An optionally signed decimal integer can start at `i`: either a digit,
/// or a minus sign immediately followed by a digit. A sign followed by
/// anything else is not treated as the start of a number, so the sign
/// byte stays available to the text-run recognizer.
pub open spec fn int_start_shape(s: Seq<u8>, i: int) -> bool {
    0 <= i < s.len() && (is_dec_digit(s[i]) || (s[i] == MINUS_SIGN && i + 1 < s.len()
        && is_dec_digit(s[i + 1])))
}

pub open spec fn int_is_neg(s: Seq<u8>, i: int) -> bool {
    s[i] == MINUS_SIGN
}

pub open spec fn int_digits_start(s: Seq<u8>, i: int) -> int {
    if int_is_neg(s, i) {
        i + 1
    } else {
        i
    }
}

/// Position just past the digit run of the integer starting at `i`.
pub open spec fn int_end(s: Seq<u8>, i: int) -> int {
    digit_run_end(s, int_digits_start(s, i))
}

/// Magnitude of the integer starting at `i` (the digits' value, before
/// any sign is applied).
pub open spec fn int_magnitude(s: Seq<u8>, i: int) -> int {
    dec_value(s.subrange(int_digits_start(s, i), int_end(s, i)))
}

/// The digit run exceeds the representable argument range. The magnitude
/// bound applies before the sign does, exactly as the scanners compute it.
pub open spec fn int_overflows(s: Seq<u8>, i: int) -> bool {
    int_magnitude(s, i) > MAX_ARG_MAGNITUDE
}

pub open spec fn int_value(s: Seq<u8>, i: int) -> int {
    if int_is_neg(s, i) {
        -int_magnitude(s, i)
    } else {
        int_magnitude(s, i)
    }
}

// ---------------------------------------------------------------------
// Tokens, errors, and scan outcomes
// ---------------------------------------------------------------------

/// Mathematical model of one token. This is the view of the executable
/// [`crate::tokenizer::Token`]: control-word names become character
/// sequences, payloads become byte sequences.
pub enum TokenView {
    ControlSymbol(char),
    ControlWord { name: Seq<char>, arg: Option<i32> },
    ControlBin(Seq<u8>),
    Text(Seq<u8>),
    StartGroup,
    EndGroup,
    Newline,
}

/// Why a scan failed. Failures are local to the token being scanned:
/// they name the reason at the offset where that token began.
#[derive(Clone, Copy, Debug, PartialEq, Eq, Structural)]
pub enum ScanError {
    /// A numeric argument's digit run exceeds the 32-bit signed range.
    MalformedInteger,
    /// A hex-escape directive is not followed by two hexadecimal digits.
    InvalidHexDigit,
    /// A binary run declares more payload bytes than the input still holds.
    TruncatedBinaryPayload,
    /// No recognizer, the text-run catch-all included, can consume the
    /// next byte. Only a trailing lone backslash reaches this.
    UnrecognizedInput,
}

/// Outcome of one grammar recognizer at one position.
pub enum SpecScan {
    /// The recognizer consumed a token; scanning resumes at the position.
    Match(TokenView, int),
    /// The recognizer does not apply here; the next one is tried.
    NoMatch,
    /// The recognizer applies but the input is malformed; the whole scan
    /// stops with this error.
    Fail(ScanError),
}

// ---------------------------------------------------------------------
// The grammar recognizers
// ---------------------------------------------------------------------

/// Hex-escape directive: a backslash, an apostrophe, then exactly two
/// hexadecimal digits. It yields a control word named `'` whose argument
/// is the decoded byte, and never absorbs a trailing space. Once the
/// backslash-apostrophe prefix is present, anything but two hex digits
/// is a hard failure.
pub open spec fn scan_hexescape(s: Seq<u8>, i: int) -> SpecScan {
    if 0 <= i && i + 2 <= s.len() && s[i] == BACKSLASH && s[i + 1] == APOSTROPHE {
        if i + 4 <= s.len() && is_hex_digit(s[i + 2]) && is_hex_digit(s[i + 3]) {
            SpecScan::Match(
                TokenView::ControlWord {
                    name: seq!['\''],
                    arg: Some((hex_digit_value(s[i + 2]) * 16 + hex_digit_value(s[i + 3])) as i32),
                },
                i + 4,
            )
        } else {
            SpecScan::Fail(ScanError::InvalidHexDigit)
        }
    } else {
        SpecScan::NoMatch
    }
}

/// Control symbol: a backslash followed by one byte that is neither an
/// ASCII letter nor an apostrophe (the apostrophe belongs to the
/// hex-escape recognizer, which is tried first).
pub open spec fn scan_symbol(s: Seq<u8>, i: int) -> SpecScan {
    if 0 <= i && i + 2 <= s.len() && s[i] == BACKSLASH && !is_ascii_letter(s[i + 1]) && s[i + 1]
        != APOSTROPHE {
        SpecScan::Match(TokenView::ControlSymbol(s[i + 1] as char), i + 2)
    } else {
        SpecScan::NoMatch
    }
}

/// Control word: a backslash, a maximal run of one or more ASCII
/// letters, an optional signed decimal argument, and one optional
/// trailing space which is absorbed whether or not an argument was
/// present. An argument whose digits overflow the 32-bit signed range is
/// a hard failure.
pub open spec fn scan_word(s: Seq<u8>, i: int) -> SpecScan {
    if 0 <= i && i + 2 <= s.len() && s[i] == BACKSLASH && is_ascii_letter(s[i + 1]) {
        let name_end = letter_run_end(s, i + 1);
        let name = seq_u8_to_chars(s.subrange(i + 1, name_end));
        if int_start_shape(s, name_end) {
            if int_overflows(s, name_end) {
                SpecScan::Fail(ScanError::MalformedInteger)
            } else {
                let j = int_end(s, name_end);
                let j2 = if j < s.len() && s[j] == SPACE {
                    j + 1
                } else {
                    j
                };
                SpecScan::Match(
                    (TokenView::ControlWord { name, arg: Some(int_value(s, name_end) as i32) }),
                    j2,
                )
            }
        } else {
            let j2 = if name_end < s.len() && s[name_end] == SPACE {
                name_end + 1
            } else {
                name_end
            };
            SpecScan::Match((TokenView::ControlWord { name, arg: None }), j2)
        }
    } else {
        SpecScan::NoMatch
    }
}

/// Binary run: the literal `\bin`, an optional signed length (with one
/// optional trailing space, absorbed only when a length was present),
/// then exactly that many raw payload bytes, never reinterpreted. With
/// no length the payload is empty. A negative length (`-0` excepted,
/// which is zero) is no binary run at all (the word recognizer then
/// takes `bin` as an ordinary name); an
/// overflowing length is a hard failure, and so is a length that exceeds
/// the remaining input.
pub open spec fn scan_bin(s: Seq<u8>, i: int) -> SpecScan {
    if 0 <= i && i + 4 <= s.len() && s[i] == BACKSLASH && s[i + 1] == 0x62 && s[i + 2] == 0x69
        && s[i + 3] == 0x6E {
        let j0 = i + 4;
        if int_start_shape(s, j0) {
            if int_overflows(s, j0) {
                SpecScan::Fail(ScanError::MalformedInteger)
            } else if int_value(s, j0) < 0 {
                SpecScan::NoMatch
            } else {
                let v = int_value(s, j0);
                let j = int_end(s, j0);
                let j2 = if j < s.len() && s[j] == SPACE {
                    j + 1
                } else {
                    j
                };
                if j2 + v <= s.len() {
                    SpecScan::Match(TokenView::ControlBin(s.subrange(j2, j2 + v)), j2 + v)
                } else {
                    SpecScan::Fail(ScanError::TruncatedBinaryPayload)
                }
            }
        } else {
            SpecScan::Match(TokenView::ControlBin(Seq::empty()), j0)
        }
    } else {
        SpecScan::NoMatch
    }
}

pub open spec fn scan_group_open(s: Seq<u8>, i: int) -> SpecScan {
    if 0 <= i < s.len() && s[i] == OPEN_BRACE {
        SpecScan::Match(TokenView::StartGroup, i + 1)
    } else {
        SpecScan::NoMatch
    }
}

pub open spec fn scan_group_close(s: Seq<u8>, i: int) -> SpecScan {
    if 0 <= i < s.len() && s[i] == CLOSE_BRACE {
        SpecScan::Match(TokenView::EndGroup, i + 1)
    } else {
        SpecScan::NoMatch
    }
}

/// Line terminator: CRLF, a bare LF, or a bare CR, in that precedence
/// order. Which variant was consumed is not retained in the token.
pub open spec fn scan_newline(s: Seq<u8>, i: int) -> SpecScan {
    if 0 <= i && i + 2 <= s.len() && s[i] == CARRIAGE_RETURN && s[i + 1] == LINE_FEED {
        SpecScan::Match(TokenView::Newline, i + 2)
    } else if 0 <= i < s.len() && (s[i] == LINE_FEED || s[i] == CARRIAGE_RETURN) {
        SpecScan::Match(TokenView::Newline, i + 1)
    } else {
        SpecScan::NoMatch
    }
}

/// Text run: the maximal run of one or more text bytes starting at `i`.
pub open spec fn scan_text(s: Seq<u8>, i: int) -> SpecScan {
    if 0 <= i < s.len() && is_text_byte(s[i]) {
        SpecScan::Match(TokenView::Text(s.subrange(i, text_run_end(s, i))), text_run_end(s, i))
    } else {
        SpecScan::NoMatch
    }
}

/// One token scanned at position `i`: the recognizers are tried in the
/// grammar's fixed precedence order (hex-escape, symbol, binary run,
/// word, group open, group close, line terminator, text run) and the
/// first that applies decides. When none applies the input is
/// unrecognized at `i`; past the end of the input nothing is scanned,
/// which `scan_stream` treats as completion.
pub open spec fn scan_token(s: Seq<u8>, i: int) -> SpecScan {
    if !(scan_hexescape(s, i) is NoMatch) {
        scan_hexescape(s, i)
    } else if !(scan_symbol(s, i) is NoMatch) {
        scan_symbol(s, i)
    } else if !(scan_bin(s, i) is NoMatch) {
        scan_bin(s, i)
    } else if !(scan_word(s, i) is NoMatch) {
        scan_word(s, i)
    } else if !(scan_group_open(s, i) is NoMatch) {
        scan_group_open(s, i)
    } else if !(scan_group_close(s, i) is NoMatch) {
        scan_group_close(s, i)
    } else if !(scan_newline(s, i) is NoMatch) {
        scan_newline(s, i)
    } else if !(scan_text(s, i) is NoMatch) {
        scan_text(s, i)
    } else {
        SpecScan::Fail(ScanError::UnrecognizedInput)
    }
}

// ---------------------------------------------------------------------
// Whole-input scanning
// ---------------------------------------------------------------------

/// Outcome of scanning a whole input from some position: either every
/// byte was consumed into tokens, or scanning stopped with an error at
/// the offset where the failing token began, with the tokens accumulated
/// before it.
pub enum StreamView {
    Complete(Seq<TokenView>),
    Stopped(Seq<TokenView>, int, ScanError),
}

pub open spec fn stream_prepend(t: TokenView, r: StreamView) -> StreamView {
    match r {
        StreamView::Complete(ts) => StreamView::Complete(seq![t] + ts),
        StreamView::Stopped(ts, off, e) => StreamView::Stopped(seq![t] + ts, off, e),
    }
}

pub open spec fn stream_prepend_all(ts: Seq<TokenView>, r: StreamView) -> StreamView {
    match r {
        StreamView::Complete(us) => StreamView::Complete(ts + us),
        StreamView::Stopped(us, off, e) => StreamView::Stopped(ts + us, off, e),
    }
}

/// Tokens of `s` from position `i` to the end, one `scan_token` at a
/// time. A recognizer match always advances, so the guard on `j` in the
/// match arm never fails (see `lemma_scan_token_advances`).
pub open spec fn scan_stream(s: Seq<u8>, i: int) -> StreamView
    decreases s.len() - i
        when 0 <= i <= s.len()
{
    if i >= s.len() {
        StreamView::Complete(Seq::empty())
    } else {
        match scan_token(s, i) {
            SpecScan::Match(t, j) => if i < j <= s.len() {
                stream_prepend(t, scan_stream(s, j))
            } else {
                StreamView::Stopped(Seq::empty(), i, ScanError::UnrecognizedInput)
            },
            SpecScan::NoMatch => StreamView::Stopped(Seq::empty(), i, ScanError::UnrecognizedInput),
            SpecScan::Fail(e) => StreamView::Stopped(Seq::empty(), i, e),
        }
    }
}

/// Bounds on a scanned integer: its digit run is non-empty and lies
/// inside the input, it is made of decimal digits, and the magnitude is
/// nonnegative.
pub proof fn lemma_int_bounds(s: Seq<u8>, i: int)
    requires
        int_start_shape(s, i),
    ensures
        i <= int_digits_start(s, i) < int_end(s, i) <= s.len(),
        forall|k: int|
            int_digits_start(s, i) <= k < int_end(s, i) ==> is_dec_digit(#[trigger] s[k]),
        int_end(s, i) < s.len() ==> !is_dec_digit(s[int_end(s, i)]),
        0 <= int_magnitude(s, i),
{
    let ds = int_digits_start(s, i);
    lemma_digit_run_end(s, ds + 1);
    let e = int_end(s, i);
    let digits = s.subrange(ds, e);
    assert forall|k: int| 0 <= k < digits.len() implies is_dec_digit(#[trigger] digits[k]) by {
        assert(digits[k] == s[ds + k]);
    }
    lemma_dec_value_nonneg(digits);
}

/// A recognizer match consumes at least one byte and stays inside the
/// input, so whole-input scanning always makes progress.
pub proof fn lemma_scan_token_advances(s: Seq<u8>, i: int, t: TokenView, j: int)
    requires
        0 <= i <= s.len(),
        scan_token(s, i) == SpecScan::Match(t, j),
    ensures
        i < j <= s.len(),
{
    if i + 2 <= s.len() && s[i] == BACKSLASH && is_ascii_letter(s[i + 1]) {
        lemma_letter_run_end(s, i + 2);
        let name_end = letter_run_end(s, i + 1);
        if int_start_shape(s, name_end) {
            lemma_int_bounds(s, name_end);
        }
    }
    if i + 4 <= s.len() && s[i] == BACKSLASH && s[i + 1] == 0x62 && s[i + 2] == 0x69 && s[i + 3]
        == 0x6E {
        if int_start_shape(s, i + 4) {
            lemma_int_bounds(s, i + 4);
        }
    }
    if i < s.len() && is_text_byte(s[i]) {
        lemma_text_run_end(s, i + 1);
    }
}

// ---------------------------------------------------------------------
// Serialization
// ---------------------------------------------------------------------

/// Canonical byte rendering of one token: symbols and words are written
/// back behind a backslash, a word's argument in decimal; a binary run
/// as `\bin`, its payload length in decimal, one space, then the raw
/// payload; text as its own bytes; group markers as single bytes; a
/// newline always as CRLF, whatever terminator was originally consumed.
pub open spec fn rtf_bytes(t: TokenView) -> Seq<u8> {
    match t {
        TokenView::ControlSymbol(c) => seq![BACKSLASH, c as u8],
        TokenView::ControlWord { name, arg } => seq![BACKSLASH] + seq_chars_to_u8(name) + (match arg {
            Some(v) => dec_rep_signed(v as int),
            None => Seq::empty(),
        }),
        TokenView::ControlBin(data) => seq![BACKSLASH, 0x62, 0x69, 0x6E] + dec_rep(data.len())
            + seq![SPACE] + data,
        TokenView::Text(data) => data,
        TokenView::StartGroup => seq![OPEN_BRACE],
        TokenView::EndGroup => seq![CLOSE_BRACE],
        TokenView::Newline => seq![CARRIAGE_RETURN, LINE_FEED],
    }
}

/// Bytes that must stand between two adjacent serialized tokens: one
/// space after a control word that a text run follows, because the word
/// would otherwise absorb the text's leading letters or digits on
/// re-scanning. No other adjacency needs a delimiter.
pub open spec fn delimiter_bytes(a: TokenView, b: TokenView) -> Seq<u8> {
    if (a is ControlWord) && (b is Text) {
        seq![SPACE]
    } else {
        Seq::empty()
    }
}

/// Byte rendering of a whole token sequence, delimiters included.
pub open spec fn stream_bytes(ts: Seq<TokenView>) -> Seq<u8>
    decreases ts.len(),
{
    if ts.len() == 0 {
        Seq::empty()
    } else if ts.len() == 1 {
        rtf_bytes(ts[0])
    } else {
        rtf_bytes(ts[0]) + delimiter_bytes(ts[0], ts[1]) + stream_bytes(ts.drop_first())
    }
}

// ---------------------------------------------------------------------
// Well-formed and canonical tokens
// ---------------------------------------------------------------------

/// A control word's name as the scanners produce it: one or more ASCII
/// letters, or the single apostrophe of a hex-escape directive.
pub open spec fn wf_word_name(name: Seq<char>) -> bool {
    name.len() > 0 && (name == seq!['\''] || (forall|k: int|
        0 <= k < name.len() ==> is_ascii_letter_char(#[trigger] name[k])))
}

/// The token can be rendered to bytes: a symbol's character came from a
/// single byte, and a word's name is made of single-byte characters.
pub open spec fn wf_token(t: TokenView) -> bool {
    match t {
        TokenView::ControlSymbol(c) => (c as u32) < 256,
        TokenView::ControlWord { name, arg } => wf_word_name(name),
        _ => true,
    }
}

pub open spec fn name_is_bin(name: Seq<char>) -> bool {
    name =~= seq!['b', 'i', 'n']
}

pub open spec fn name_starts_with_bin(name: Seq<char>) -> bool {
    name.len() >= 3 && name[0] == 'b' && name[1] == 'i' && name[2] == 'n'
}

/// A token the tokenizer itself can produce, stated shape by shape.
/// Serializing such a token and scanning the result gives the token
/// back; see `crate::laws`. Hex-escape words (named `'`) are not here:
/// they serialize with a decimal argument, which re-scans as a hex
/// argument, so only their byte value below ten survives a round trip.
pub open spec fn producible_token(t: TokenView) -> bool {
    match t {
        TokenView::ControlSymbol(c) => (c as u32) < 256 && !is_ascii_letter_char(c) && c != '\'',
        TokenView::ControlWord { name, arg } => {
            &&& name.len() > 0
            &&& forall|k: int| 0 <= k < name.len() ==> is_ascii_letter_char(#[trigger] name[k])
            &&& (arg matches Some(v) ==> v > i32::MIN)
            &&& (name_starts_with_bin(name) ==> name_is_bin(name) && (arg matches Some(v) && v
                < 0))
        },
        TokenView::ControlBin(data) => data.len() <= MAX_ARG_MAGNITUDE,
        TokenView::Text(data) => data.len() > 0 && (forall|k: int|
            0 <= k < data.len() ==> is_text_byte(#[trigger] data[k])),
        TokenView::StartGroup => true,
        TokenView::EndGroup => true,
        TokenView::Newline => true,
    }
}

/// A token sequence as the tokenizer produces it: every token is
/// producible and no two text runs are adjacent (a text run is maximal,
/// so two in a row would have been scanned as one).
pub open spec fn producible_stream(ts: Seq<TokenView>) -> bool {
    &&& forall|k: int| 0 <= k < ts.len() ==> producible_token(#[trigger] ts[k])
    &&& forall|k: int|
        0 <= k && k + 1 < ts.len() ==> !((#[trigger] ts[k]) is Text && ts[k + 1] is Text)
}

} // verus!
