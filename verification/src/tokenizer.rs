//! Token assembly and serialization.
//!
//! [`read_token`] classifies the next unit of input as one [`Token`] by
//! ordered alternation over the directive scanners, the delimiter
//! scanners and the text-run catch-all; [`read_token_stream`] repeats it
//! across the whole input. [`Token::to_rtf`] renders one token back to
//! its canonical bytes and [`serialize_tokens`] a whole sequence,
//! inserting the one delimiter the grammar needs. Every contract is
//! stated against the spec functions of [`crate::grammar`].

use vstd::prelude::*;

use crate::grammar::ScanError;
use crate::grammar::SpecScan;
use crate::grammar::StreamView;
use crate::grammar::TokenView;
use crate::grammar::dec_rep;
use crate::grammar::dec_rep_signed;
use crate::grammar::delimiter_bytes;
use crate::grammar::lemma_scan_token_advances;
use crate::grammar::rtf_bytes;
use crate::grammar::scan_bin;
use crate::grammar::scan_group_close;
use crate::grammar::scan_group_open;
use crate::grammar::scan_hexescape;
use crate::grammar::scan_newline;
use crate::grammar::scan_stream;
use crate::grammar::scan_symbol;
use crate::grammar::scan_text;
use crate::grammar::scan_token;
use crate::grammar::scan_word;
use crate::grammar::seq_chars_to_u8;
use crate::grammar::stream_bytes;
use crate::grammar::stream_prepend;
use crate::grammar::stream_prepend_all;
use crate::grammar::wf_token;
use crate::raw::Scan;
use crate::raw::control_bin_raw;
use crate::raw::control_symbol_raw;
use crate::raw::control_word_hexbyte_raw;
use crate::raw::control_word_raw;
use crate::raw::end_group_raw;
use crate::raw::newline_raw;
use crate::raw::rtf_text_raw;
use crate::raw::start_group_raw;

verus! {

/// One lexical unit of the markup stream, in document order.
#[derive(Debug, PartialEq, Eq)]
pub enum Token {
    /// A backslash followed by one non-letter character, kept as is.
    ControlSymbol(char),
    /// A backslash, a letter-run name (or `'` for a hex escape), and an
    /// optional signed decimal argument.
    ControlWord { name: String, arg: Option<i32> },
    /// A length-prefixed run of raw bytes, kept verbatim.
    ControlBin(Vec<u8>),
    /// Text is bytes, not a string: it can be in any of various
    /// encodings, and identifying or converting them is left to a
    /// downstream layer.
    Text(Vec<u8>),
    StartGroup,
    EndGroup,
    /// One line terminator; which of CRLF, LF or CR was consumed is not
    /// retained, and serialization always emits CRLF.
    Newline,
}

impl View for Token {
    type V = TokenView;

    open spec fn view(&self) -> TokenView {
        match self {
            Token::ControlSymbol(c) => TokenView::ControlSymbol(*c),
            Token::ControlWord { name, arg } => TokenView::ControlWord { name: name@, arg: *arg },
            Token::ControlBin(data) => TokenView::ControlBin(data@),
            Token::Text(data) => TokenView::Text(data@),
            Token::StartGroup => TokenView::StartGroup,
            Token::EndGroup => TokenView::EndGroup,
            Token::Newline => TokenView::Newline,
        }
    }
}

impl DeepView for Token {
    type V = TokenView;

    open spec fn deep_view(&self) -> TokenView {
        self.view()
    }
}

/// The spec-level outcome that an executable scan outcome stands for.
pub open spec fn token_scan_view(r: Scan<Token>) -> SpecScan {
    match r {
        Scan::Match(t, p) => SpecScan::Match(t@, p as int),
        Scan::NoMatch => SpecScan::NoMatch,
        Scan::Fail(e) => SpecScan::Fail(e),
    }
}

// ---------------------------------------------------------------------
// Token readers
// ---------------------------------------------------------------------

/// Hex-escape directive as a token: a control word named `'`.
pub fn read_control_hexbyte(input: &[u8], pos: usize) -> (r: Scan<Token>)
    requires
        pos <= input@.len(),
    ensures
        token_scan_view(r) == scan_hexescape(input@, pos as int),
{
    match control_word_hexbyte_raw(input, pos) {
        Scan::Match((name, arg), e) => Scan::Match(Token::ControlWord { name, arg }, e),
        Scan::NoMatch => Scan::NoMatch,
        Scan::Fail(e) => Scan::Fail(e),
    }
}

/// Control symbol as a token.
pub fn read_control_symbol(input: &[u8], pos: usize) -> (r: Scan<Token>)
    requires
        pos <= input@.len(),
    ensures
        token_scan_view(r) == scan_symbol(input@, pos as int),
{
    match control_symbol_raw(input, pos) {
        Scan::Match(c, e) => Scan::Match(Token::ControlSymbol(c), e),
        Scan::NoMatch => Scan::NoMatch,
        Scan::Fail(e) => Scan::Fail(e),
    }
}

/// Control word as a token.
pub fn read_control_word(input: &[u8], pos: usize) -> (r: Scan<Token>)
    requires
        pos <= input@.len(),
    ensures
        token_scan_view(r) == scan_word(input@, pos as int),
{
    match control_word_raw(input, pos) {
        Scan::Match((name, arg), e) => Scan::Match(Token::ControlWord { name, arg }, e),
        Scan::NoMatch => Scan::NoMatch,
        Scan::Fail(e) => Scan::Fail(e),
    }
}

/// Binary run as a token.
pub fn read_control_bin(input: &[u8], pos: usize) -> (r: Scan<Token>)
    requires
        pos <= input@.len(),
    ensures
        token_scan_view(r) == scan_bin(input@, pos as int),
{
    match control_bin_raw(input, pos) {
        Scan::Match(data, e) => Scan::Match(Token::ControlBin(data), e),
        Scan::NoMatch => Scan::NoMatch,
        Scan::Fail(e) => Scan::Fail(e),
    }
}

/// Line terminator as a token; the consumed variant is discarded.
pub fn read_newline(input: &[u8], pos: usize) -> (r: Scan<Token>)
    requires
        pos <= input@.len(),
    ensures
        token_scan_view(r) == scan_newline(input@, pos as int),
{
    match newline_raw(input, pos) {
        Scan::Match(_, e) => Scan::Match(Token::Newline, e),
        Scan::NoMatch => Scan::NoMatch,
        Scan::Fail(e) => Scan::Fail(e),
    }
}

/// Group-open delimiter as a token.
pub fn read_start_group(input: &[u8], pos: usize) -> (r: Scan<Token>)
    requires
        pos <= input@.len(),
    ensures
        token_scan_view(r) == scan_group_open(input@, pos as int),
{
    match start_group_raw(input, pos) {
        Scan::Match(_, e) => Scan::Match(Token::StartGroup, e),
        Scan::NoMatch => Scan::NoMatch,
        Scan::Fail(e) => Scan::Fail(e),
    }
}

/// Group-close delimiter as a token.
pub fn read_end_group(input: &[u8], pos: usize) -> (r: Scan<Token>)
    requires
        pos <= input@.len(),
    ensures
        token_scan_view(r) == scan_group_close(input@, pos as int),
{
    match end_group_raw(input, pos) {
        Scan::Match(_, e) => Scan::Match(Token::EndGroup, e),
        Scan::NoMatch => Scan::NoMatch,
        Scan::Fail(e) => Scan::Fail(e),
    }
}

/// Text run as a token.
pub fn read_rtf_text(input: &[u8], pos: usize) -> (r: Scan<Token>)
    requires
        pos <= input@.len(),
    ensures
        token_scan_view(r) == scan_text(input@, pos as int),
{
    match rtf_text_raw(input, pos) {
        Scan::Match(data, e) => Scan::Match(Token::Text(data), e),
        Scan::NoMatch => Scan::NoMatch,
        Scan::Fail(e) => Scan::Fail(e),
    }
}

/// Classifies the next unit of input as one token: ordered alternation
/// over the recognizers in the grammar's precedence order. The order is
/// load-bearing: the hex escape's apostrophe would otherwise match the
/// symbol recognizer, and `\bin` would otherwise be swallowed by the
/// word recognizer's generic letter run.
pub fn read_token(input: &[u8], pos: usize) -> (r: Scan<Token>)
    requires
        pos <= input@.len(),
    ensures
        token_scan_view(r) == scan_token(input@, pos as int),
{
    match read_control_hexbyte(input, pos) {
        Scan::NoMatch => {},
        other => {
            return other;
        },
    }
    match read_control_symbol(input, pos) {
        Scan::NoMatch => {},
        other => {
            return other;
        },
    }
    match read_control_bin(input, pos) {
        Scan::NoMatch => {},
        other => {
            return other;
        },
    }
    match read_control_word(input, pos) {
        Scan::NoMatch => {},
        other => {
            return other;
        },
    }
    match read_start_group(input, pos) {
        Scan::NoMatch => {},
        other => {
            return other;
        },
    }
    match read_end_group(input, pos) {
        Scan::NoMatch => {},
        other => {
            return other;
        },
    }
    match read_newline(input, pos) {
        Scan::NoMatch => {},
        other => {
            return other;
        },
    }
    match read_rtf_text(input, pos) {
        Scan::NoMatch => {},
        other => {
            return other;
        },
    }
    Scan::Fail(ScanError::UnrecognizedInput)
}

// ---------------------------------------------------------------------
// Whole-input tokenization
// ---------------------------------------------------------------------

/// Where and why tokenization stopped, with the tokens recognized before
/// the failing one. The bytes from `offset` on are the unconsumed
/// remainder; the caller decides whether the accumulated tokens are
/// still usable.
#[derive(Debug)]
pub struct TokenizeFailure {
    /// Tokens recognized before the failure, in document order.
    pub tokens: Vec<Token>,
    /// Byte offset where the failing token began.
    pub offset: usize,
    /// Why scanning stopped there.
    pub error: ScanError,
}

/// Tokenizes the whole input, strictly left to right. `Ok` means every
/// byte was consumed; otherwise the failure carries the tokens read so
/// far, the offset of the failing token and the reason.
pub fn read_token_stream(input: &[u8]) -> (r: Result<Vec<Token>, TokenizeFailure>)
    ensures
        ({
            let out = scan_stream(input@, 0);
            match r {
                Ok(toks) => out == StreamView::Complete(toks.deep_view()),
                Err(f) => out == StreamView::Stopped(f.tokens.deep_view(), f.offset as int, f.error),
            }
        }),
{
    let n = input.len();
    let mut toks: Vec<Token> = Vec::new();
    let mut pos: usize = 0;
    proof {
        assert(toks.deep_view() =~= Seq::<TokenView>::empty());
    }
    while pos < n
        invariant
            pos <= n,
            n == input@.len(),
            scan_stream(input@, 0) == stream_prepend_all(
                toks.deep_view(),
                scan_stream(input@, pos as int),
            ),
        decreases n - pos,
    {
        let ghost prev = toks.deep_view();
        match read_token(input, pos) {
            Scan::Match(t, j) => {
                proof {
                    lemma_scan_token_advances(input@, pos as int, t@, j as int);
                }
                let ghost tv = t@;
                let ghost rest = scan_stream(input@, j as int);
                toks.push(t);
                pos = j;
                proof {
                    assert(toks.deep_view() =~= prev.push(tv));
                    lemma_stream_prepend_all_push(prev, tv, rest);
                }
            },
            Scan::Fail(e) => {
                proof {
                    assert(toks.deep_view() + Seq::<TokenView>::empty() =~= toks.deep_view());
                }
                return Err(TokenizeFailure { tokens: toks, offset: pos, error: e });
            },
            Scan::NoMatch => {
                proof {
                    assert(toks.deep_view() + Seq::<TokenView>::empty() =~= toks.deep_view());
                }
                return Err(
                    TokenizeFailure { tokens: toks, offset: pos, error: ScanError::UnrecognizedInput },
                );
            },
        }
    }
    proof {
        assert(toks.deep_view() + Seq::<TokenView>::empty() =~= toks.deep_view());
    }
    Ok(toks)
}

/// Prepending one token and then a sequence is prepending the pushed
/// sequence.
proof fn lemma_stream_prepend_all_push(ts: Seq<TokenView>, t: TokenView, r: StreamView)
    ensures
        stream_prepend_all(ts.push(t), r) == stream_prepend_all(ts, stream_prepend(t, r)),
{
    match r {
        StreamView::Complete(us) => {
            assert(ts.push(t) + us =~= ts + (seq![t] + us));
        },
        StreamView::Stopped(us, off, e) => {
            assert(ts.push(t) + us =~= ts + (seq![t] + us));
        },
    }
}

// ---------------------------------------------------------------------
// Serialization
// ---------------------------------------------------------------------

/// Appends a copy of `data` to `out`.
fn push_bytes(out: &mut Vec<u8>, data: &Vec<u8>)
    ensures
        final(out)@ == old(out)@ + data@,
{
    let mut k: usize = 0;
    while k < data.len()
        invariant
            k <= data@.len(),
            out@ == old(out)@ + data@.subrange(0, k as int),
        decreases data@.len() - k,
    {
        out.push(data[k]);
        proof {
            assert(data@.subrange(0, k as int + 1) =~= data@.subrange(0, k as int).push(
                data@[k as int],
            ));
            assert(old(out)@ + data@.subrange(0, k as int + 1) =~= (old(out)@ + data@.subrange(
                0,
                k as int,
            )).push(data@[k as int]));
        }
        k = k + 1;
    }
    proof {
        assert(data@.subrange(0, data@.len() as int) =~= data@);
    }
}

/// Appends the bytes of an ASCII string to `out`, one byte per character.
fn push_ascii_str(out: &mut Vec<u8>, s: &str)
    requires
        vstd::utf8::is_ascii_chars(s@),
    ensures
        final(out)@ == old(out)@ + seq_chars_to_u8(s@),
{
    proof {
        vstd::string::is_ascii_spec_bytes(s);
    }
    let bs = s.as_bytes();
    let mut k: usize = 0;
    while k < bs.len()
        invariant
            k <= bs@.len(),
            bs@ =~= Seq::new(s@.len(), |i: int| s@.index(i) as u8),
            out@ == old(out)@ + bs@.subrange(0, k as int),
        decreases bs@.len() - k,
    {
        out.push(bs[k]);
        proof {
            assert(bs@.subrange(0, k as int + 1) =~= bs@.subrange(0, k as int).push(
                bs@[k as int],
            ));
            assert(old(out)@ + bs@.subrange(0, k as int + 1) =~= (old(out)@ + bs@.subrange(
                0,
                k as int,
            )).push(bs@[k as int]));
        }
        k = k + 1;
    }
    proof {
        assert(bs@.subrange(0, bs@.len() as int) =~= bs@);
        assert(bs@ =~= seq_chars_to_u8(s@));
    }
}

/// Appends the canonical decimal digits of `n` to `out`.
fn push_dec_u64(out: &mut Vec<u8>, n: u64)
    ensures
        final(out)@ == old(out)@ + dec_rep(n as nat),
    decreases n,
{
    if n >= 10 {
        push_dec_u64(out, n / 10);
    }
    let digit: u8 = 0x30 + (n % 10) as u8;
    out.push(digit);
    proof {
        if n < 10 {
            assert(old(out)@ + dec_rep(n as nat) =~= old(out)@.push(digit));
        } else {
            assert(old(out)@ + dec_rep(n as nat) =~= (old(out)@ + dec_rep((n / 10) as nat)).push(
                digit,
            ));
        }
    }
}

/// Appends the decimal digits of a signed value to `out`, a minus sign
/// first when it is negative.
fn push_dec_i32(out: &mut Vec<u8>, v: i32)
    ensures
        final(out)@ == old(out)@ + dec_rep_signed(v as int),
{
    if v < 0 {
        out.push(0x2D);
        let magnitude = (-(v as i64)) as u64;
        push_dec_u64(out, magnitude);
        proof {
            assert(old(out)@ + dec_rep_signed(v as int) =~= old(out)@.push(0x2D) + dec_rep(
                (-(v as int)) as nat,
            ));
        }
    } else {
        push_dec_u64(out, v as u64);
    }
}

impl Token {
    /// Canonical byte encoding of this token: the exact bytes
    /// `rtf_bytes` states, a newline always rendered as CRLF.
    pub fn to_rtf(&self) -> (r: Vec<u8>)
        requires
            wf_token(self@),
        ensures
            r@ == rtf_bytes(self@),
    {
        match self {
            Token::ControlSymbol(c) => {
                let mut out: Vec<u8> = Vec::new();
                out.push(0x5C);
                let u = *c as u32;
                out.push(u as u8);
                proof {
                    assert(out@ =~= rtf_bytes(self@));
                }
                out
            },
            Token::ControlWord { name, arg } => {
                let mut out: Vec<u8> = Vec::new();
                out.push(0x5C);
                push_ascii_str(&mut out, name.as_str());
                match arg {
                    Some(v) => {
                        push_dec_i32(&mut out, *v);
                    },
                    None => {},
                }
                proof {
                    assert(out@ =~= rtf_bytes(self@));
                }
                out
            },
            Token::ControlBin(data) => {
                let mut out: Vec<u8> = Vec::new();
                out.push(0x5C);
                out.push(0x62);
                out.push(0x69);
                out.push(0x6E);
                push_dec_u64(&mut out, data.len() as u64);
                out.push(0x20);
                push_bytes(&mut out, data);
                proof {
                    assert(out@ =~= rtf_bytes(self@));
                }
                out
            },
            Token::Text(data) => {
                let mut out: Vec<u8> = Vec::new();
                push_bytes(&mut out, data);
                proof {
                    assert(out@ =~= rtf_bytes(self@));
                }
                out
            },
            Token::StartGroup => {
                let mut out: Vec<u8> = Vec::new();
                out.push(0x7B);
                proof {
                    assert(out@ =~= rtf_bytes(self@));
                }
                out
            },
            Token::EndGroup => {
                let mut out: Vec<u8> = Vec::new();
                out.push(0x7D);
                proof {
                    assert(out@ =~= rtf_bytes(self@));
                }
                out
            },
            Token::Newline => {
                let mut out: Vec<u8> = Vec::new();
                out.push(0x0D);
                out.push(0x0A);
                proof {
                    assert(out@ =~= rtf_bytes(self@));
                }
                out
            },
        }
    }

    /// The delimiter owed between this token and the one that follows
    /// it: a single space when this is a control word and the next is a
    /// text run (whose leading bytes the word would otherwise absorb on
    /// re-scanning), nothing otherwise.
    pub fn token_delimiter_after(&self, next_token: &Token) -> (r: &'static str)
        ensures
            (self@ is ControlWord && next_token@ is Text) ==> r@ == seq![' '],
            !(self@ is ControlWord && next_token@ is Text) ==> r@ == Seq::<char>::empty(),
    {
        let word = matches!(self, Token::ControlWord { .. });
        let text = matches!(next_token, Token::Text(_));
        if word && text {
            proof {
                reveal_strlit(" ");
                assert(" "@ =~= seq![' ']);
            }
            " "
        } else {
            proof {
                reveal_strlit("");
                assert(""@ =~= Seq::<char>::empty());
            }
            ""
        }
    }

    /// The delimiter owed between the previous token and this one; the
    /// mirror of [`Token::token_delimiter_after`].
    pub fn token_delimiter_before(&self, prev_token: &Token) -> (r: &'static str)
        ensures
            (prev_token@ is ControlWord && self@ is Text) ==> r@ == seq![' '],
            !(prev_token@ is ControlWord && self@ is Text) ==> r@ == Seq::<char>::empty(),
    {
        prev_token.token_delimiter_after(self)
    }

    /// The control word's name, when this is a control word.
    pub fn get_name(&self) -> (r: Option<String>)
        ensures
            match self@ {
                TokenView::ControlWord { name, arg } => r matches Some(n) && n@ == name,
                _ => r is None,
            },
    {
        match self {
            Token::ControlWord { name, .. } => Some(name.clone()),
            _ => None,
        }
    }

    /// The control word's argument, when this is a control word.
    pub fn get_arg(&self) -> (r: Option<i32>)
        ensures
            match self@ {
                TokenView::ControlWord { name, arg } => r == arg,
                _ => r is None,
            },
    {
        match self {
            Token::ControlWord { arg, .. } => *arg,
            _ => None,
        }
    }

    /// The symbol's character, when this is a control symbol.
    pub fn get_symbol(&self) -> (r: Option<char>)
        ensures
            match self@ {
                TokenView::ControlSymbol(c) => r == Some(c),
                _ => r is None,
            },
    {
        match self {
            Token::ControlSymbol(c) => Some(*c),
            _ => None,
        }
    }

    /// The binary run's payload, when this is a binary run.
    pub fn get_bin(&self) -> (r: Option<&[u8]>)
        ensures
            match self@ {
                TokenView::ControlBin(data) => r matches Some(s) && s@ == data,
                _ => r is None,
            },
    {
        match self {
            Token::ControlBin(data) => Some(data.as_slice()),
            _ => None,
        }
    }

    /// The text run's bytes, when this is a text run.
    pub fn get_text(&self) -> (r: Option<&[u8]>)
        ensures
            match self@ {
                TokenView::Text(data) => r matches Some(s) && s@ == data,
                _ => r is None,
            },
    {
        match self {
            Token::Text(data) => Some(data.as_slice()),
            _ => None,
        }
    }
}

/// Renders a whole token sequence to bytes: each token's canonical
/// encoding, with the owed delimiter between adjacent tokens.
pub fn serialize_tokens(tokens: &Vec<Token>) -> (r: Vec<u8>)
    requires
        forall|k: int|
            0 <= k < tokens.deep_view().len() ==> wf_token(#[trigger] tokens.deep_view()[k]),
    ensures
        r@ == stream_bytes(tokens.deep_view()),
{
    let ghost dv = tokens.deep_view();
    let mut out: Vec<u8> = Vec::new();
    let n = tokens.len();
    let mut i: usize = 0;
    proof {
        assert(dv.skip(0) =~= dv);
        assert(out@ + stream_bytes(dv) =~= stream_bytes(dv));
    }
    while i < n
        invariant
            i <= n,
            n == tokens@.len(),
            dv == tokens.deep_view(),
            forall|k: int| 0 <= k < dv.len() ==> wf_token(#[trigger] dv[k]),
            out@ + stream_bytes(dv.skip(i as int)) == stream_bytes(dv),
        decreases n - i,
    {
        let ghost before = out@;
        let ghost sk = dv.skip(i as int);
        let piece = tokens[i].to_rtf();
        push_bytes(&mut out, &piece);
        proof {
            assert(sk[0] == dv[i as int]);
        }
        if i + 1 < n {
            let word = matches!(tokens[i], Token::ControlWord { .. });
            let text = matches!(tokens[i + 1], Token::Text(_));
            if word && text {
                out.push(0x20);
            }
            proof {
                assert(sk[1] == dv[i as int + 1]);
                assert(sk.drop_first() =~= dv.skip(i as int + 1));
                assert(out@ =~= before + rtf_bytes(sk[0]) + delimiter_bytes(sk[0], sk[1]));
                assert(out@ + stream_bytes(dv.skip(i as int + 1)) =~= before + (rtf_bytes(sk[0])
                    + delimiter_bytes(sk[0], sk[1]) + stream_bytes(sk.drop_first())));
            }
        } else {
            proof {
                assert(sk.len() == 1);
                assert(dv.skip(i as int + 1) =~= Seq::<TokenView>::empty());
                assert(stream_bytes(dv.skip(i as int + 1)) =~= Seq::<u8>::empty());
                assert(out@ + Seq::<u8>::empty() =~= before + rtf_bytes(sk[0]));
            }
        }
        i = i + 1;
    }
    proof {
        assert(dv.skip(n as int) =~= Seq::<TokenView>::empty());
        assert(out@ + Seq::<u8>::empty() =~= out@);
    }
    out
}

/// Tokenizes a whole document: the library's entry point, a convenience
/// name for [`read_token_stream`].
pub fn parse(bytes: &[u8]) -> (r: Result<Vec<Token>, TokenizeFailure>)
    ensures
        ({
            let out = scan_stream(bytes@, 0);
            match r {
                Ok(toks) => out == StreamView::Complete(toks.deep_view()),
                Err(f) => out == StreamView::Stopped(f.tokens.deep_view(), f.offset as int, f.error),
            }
        }),
{
    read_token_stream(bytes)
}

} // verus!
