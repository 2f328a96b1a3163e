//! Proved laws relating the tokenizer and the serializer.
//!
//! The central results are [`lemma_round_trip`] — serializing any token
//! sequence the tokenizer can produce and scanning the result yields the
//! same sequence back, with every byte consumed — and
//! [`lemma_tokenize_round_trip`], which extends it to the tokenizer's
//! actual output: [`lemma_scan_stream_producible`] shows that whatever a
//! completed scan returns is such a sequence, hex-escape words being the
//! one exception. The round trip is proved one token shape at a time:
//! each `lemma_scan_rtf_*` shows that a token's canonical bytes, placed
//! anywhere in an input, scan back to that token under the stated
//! conditions on the byte that follows them.
//! [`lemma_group_marker_scans`] and [`lemma_group_markers_stream`]
//! record that group delimiters tokenize by themselves wherever they
//! stand, so brace balance is never checked and never fails a scan.

use vstd::prelude::*;

use crate::grammar::BACKSLASH;
use crate::grammar::CARRIAGE_RETURN;
use crate::grammar::CLOSE_BRACE;
use crate::grammar::LINE_FEED;
use crate::grammar::MAX_ARG_MAGNITUDE;
use crate::grammar::OPEN_BRACE;
use crate::grammar::SPACE;
use crate::grammar::SpecScan;
use crate::grammar::StreamView;
use crate::grammar::TokenView;
use crate::grammar::dec_rep;
use crate::grammar::dec_rep_signed;
use crate::grammar::delimiter_bytes;
use crate::grammar::int_end;
use crate::grammar::int_magnitude;
use crate::grammar::int_overflows;
use crate::grammar::int_start_shape;
use crate::grammar::int_value;
use crate::grammar::is_ascii_letter;
use crate::grammar::is_ascii_letter_char;
use crate::grammar::is_dec_digit;
use crate::grammar::is_text_byte;
use crate::grammar::lemma_dec_rep_digits;
use crate::grammar::lemma_dec_value_of_rep;
use crate::grammar::lemma_digit_run_exact;
use crate::grammar::lemma_letter_run_exact;
use crate::grammar::lemma_text_run_exact;
use crate::grammar::letter_run_end;
use crate::grammar::name_is_bin;
use crate::grammar::name_starts_with_bin;
use crate::grammar::producible_stream;
use crate::grammar::producible_token;
use crate::grammar::rtf_bytes;
use crate::grammar::scan_bin;
use crate::grammar::scan_group_close;
use crate::grammar::scan_group_open;
use crate::grammar::scan_hexescape;
use crate::grammar::scan_newline;
use crate::grammar::scan_stream;
use crate::grammar::scan_symbol;
use crate::grammar::scan_text;
use crate::grammar::scan_token;
use crate::grammar::scan_word;
use crate::grammar::seq_chars_to_u8;
use crate::grammar::seq_u8_to_chars;
use crate::grammar::stream_bytes;
use crate::grammar::stream_prepend;
use crate::grammar::text_run_end;
use crate::grammar::wf_token;

verus! {

broadcast use vstd::utf8::char_u32_cast;

/// The bytes of a subrange equality, one position at a time.
proof fn lemma_bytes_at(s: Seq<u8>, i: int, w: Seq<u8>)
    requires
        0 <= i,
        i + w.len() <= s.len(),
        s.subrange(i, i + w.len()) == w,
    ensures
        forall|k: int| 0 <= k < w.len() ==> s[i + k] == #[trigger] w[k],
{
    assert forall|k: int| 0 <= k < w.len() implies s[i + k] == #[trigger] w[k] by {
        assert(s.subrange(i, i + w.len())[k] == s[i + k]);
    }
}

/// Group delimiters tokenize by themselves whatever surrounds them: a
/// brace byte is always one single-byte group-marker token. Brace
/// balance is never consulted, so unbalanced groups can never fail a
/// scan: an input with more opens than closes (or the reverse) tokenizes
/// exactly as a balanced one does, byte for byte.
pub proof fn lemma_group_marker_scans(s: Seq<u8>, i: int)
    requires
        0 <= i < s.len(),
        s[i] == OPEN_BRACE || s[i] == CLOSE_BRACE,
    ensures
        scan_token(s, i) == SpecScan::Match(
            if s[i] == OPEN_BRACE {
                TokenView::StartGroup
            } else {
                TokenView::EndGroup
            },
            i + 1,
        ),
{
}

/// An input of group-delimiter bytes alone tokenizes completely, one
/// marker token per byte, however unbalanced the braces are.
pub proof fn lemma_group_markers_stream(s: Seq<u8>, i: int)
    requires
        0 <= i <= s.len(),
        forall|k: int| 0 <= k < s.len() ==> s[k] == OPEN_BRACE || #[trigger] s[k] == CLOSE_BRACE,
    ensures
        scan_stream(s, i) == StreamView::Complete(
            Seq::new(
                (s.len() - i) as nat,
                |k: int|
                    if s[i + k] == OPEN_BRACE {
                        TokenView::StartGroup
                    } else {
                        TokenView::EndGroup
                    },
            ),
        ),
    decreases s.len() - i,
{
    let expected = Seq::new(
        (s.len() - i) as nat,
        |k: int|
            if s[i + k] == OPEN_BRACE {
                TokenView::StartGroup
            } else {
                TokenView::EndGroup
            },
    );
    if i >= s.len() {
        assert(expected =~= Seq::<TokenView>::empty());
    } else {
        lemma_group_marker_scans(s, i);
        lemma_group_markers_stream(s, i + 1);
        let first = if s[i] == OPEN_BRACE {
            TokenView::StartGroup
        } else {
            TokenView::EndGroup
        };
        let inner = Seq::new(
            (s.len() - (i + 1)) as nat,
            |k: int|
                if s[i + 1 + k] == OPEN_BRACE {
                    TokenView::StartGroup
                } else {
                    TokenView::EndGroup
                },
        );
        assert(seq![first] + inner =~= expected);
    }
}

/// Whatever the scanner produces can be serialized: every token shape
/// it builds is well formed.
pub proof fn lemma_scanned_token_wf(t: TokenView)
    requires
        producible_token(t) || hexescape_token(t),
    ensures
        wf_token(t),
{
}

// ---------------------------------------------------------------------
// One serialized token scans back to itself
// ---------------------------------------------------------------------

/// A serialized control symbol scans back to itself, whatever follows.
proof fn lemma_scan_rtf_symbol(s: Seq<u8>, i: int, c: char)
    requires
        producible_token(TokenView::ControlSymbol(c)),
        0 <= i,
        i + 2 <= s.len(),
        s.subrange(i, i + 2) == rtf_bytes(TokenView::ControlSymbol(c)),
    ensures
        scan_token(s, i) == SpecScan::Match(TokenView::ControlSymbol(c), i + 2),
{
    lemma_bytes_at(s, i, rtf_bytes(TokenView::ControlSymbol(c)));
    assert(s[i] == BACKSLASH);
    assert(s[i + 1] == c as u8);
    assert((c as u8) as u32 == c as u32);
    assert(s[i + 1] != 0x27);
    assert(!is_ascii_letter(s[i + 1]));
    assert(s[i + 1] as char == c);
}

/// A serialized newline scans back to one newline token, whatever
/// follows: the CRLF pair takes precedence over its bare halves.
proof fn lemma_scan_rtf_newline(s: Seq<u8>, i: int)
    requires
        0 <= i,
        i + 2 <= s.len(),
        s[i] == CARRIAGE_RETURN,
        s[i + 1] == LINE_FEED,
    ensures
        scan_token(s, i) == SpecScan::Match(TokenView::Newline, i + 2),
{
}

/// A serialized group marker scans back to itself, whatever follows.
proof fn lemma_scan_rtf_group(s: Seq<u8>, i: int, open: bool)
    requires
        0 <= i < s.len(),
        open ==> s[i] == OPEN_BRACE,
        !open ==> s[i] == CLOSE_BRACE,
    ensures
        scan_token(s, i) == SpecScan::Match(
            if open {
                TokenView::StartGroup
            } else {
                TokenView::EndGroup
            },
            i + 1,
        ),
{
}

/// A serialized text run scans back to itself, provided the byte after
/// it (if any) is not a text byte, so the maximal run ends exactly where
/// the token did.
proof fn lemma_scan_rtf_text(s: Seq<u8>, i: int, data: Seq<u8>)
    requires
        producible_token(TokenView::Text(data)),
        0 <= i,
        i + data.len() <= s.len(),
        s.subrange(i, i + data.len()) == data,
        i + data.len() == s.len() || !is_text_byte(s[i + data.len()]),
    ensures
        scan_token(s, i) == SpecScan::Match(TokenView::Text(data), i + data.len()),
{
    lemma_bytes_at(s, i, data);
    let e = i + data.len();
    assert forall|m: int| i <= m < e implies is_text_byte(#[trigger] s[m]) by {
        assert(s[m] == data[m - i]);
    }
    lemma_text_run_exact(s, i, e);
    assert(is_text_byte(s[i]));
    assert(s.subrange(i, e) =~= data);
}

/// A serialized binary run scans back to itself, whatever follows: the
/// declared length makes the payload bytes opaque, so nothing after the
/// token can interfere.
proof fn lemma_scan_rtf_bin(s: Seq<u8>, i: int, data: Seq<u8>)
    requires
        producible_token(TokenView::ControlBin(data)),
        0 <= i,
        i + rtf_bytes(TokenView::ControlBin(data)).len() <= s.len(),
        s.subrange(i, i + rtf_bytes(TokenView::ControlBin(data)).len()) == rtf_bytes(
            TokenView::ControlBin(data),
        ),
    ensures
        scan_token(s, i) == SpecScan::Match(
            TokenView::ControlBin(data),
            i + rtf_bytes(TokenView::ControlBin(data)).len(),
        ),
{
    let t = TokenView::ControlBin(data);
    let w = rtf_bytes(t);
    let reps = dec_rep(data.len());
    let r = reps.len() as int;
    lemma_dec_rep_digits(data.len());
    lemma_bytes_at(s, i, w);
    assert(w.len() == 4 + r + 1 + data.len());
    assert(s[i] == BACKSLASH) by {
        assert(s[i + 0] == w[0]);
    }
    assert(s[i + 1] == 0x62) by {
        assert(s[i + 1] == w[1]);
    }
    assert(s[i + 2] == 0x69) by {
        assert(s[i + 2] == w[2]);
    }
    assert(s[i + 3] == 0x6E) by {
        assert(s[i + 3] == w[3]);
    }
    let j0 = i + 4;
    assert forall|k: int| 0 <= k < r implies s[j0 + k] == reps[k] && is_dec_digit(
        #[trigger] s[j0 + k],
    ) by {
        assert(w[4 + k] == reps[k]);
        assert(s[i + (4 + k)] == w[4 + k]);
    }
    assert(s[j0 + r] == SPACE) by {
        assert(w[4 + r] == SPACE);
        assert(s[i + (4 + r)] == w[4 + r]);
    }
    assert(s[j0] == reps[0]) by {
        assert(s[j0 + 0] == reps[0]);
    }
    assert(int_start_shape(s, j0));
    assert forall|m: int| j0 <= m < j0 + r implies is_dec_digit(#[trigger] s[m]) by {
        assert(s[j0 + (m - j0)] == reps[m - j0]);
    }
    lemma_digit_run_exact(s, j0, j0 + r);
    assert forall|k: int| 0 <= k < r implies #[trigger] s.subrange(j0, j0 + r)[k] == reps[k] by {
        assert(s[j0 + k] == reps[k]);
    }
    assert(s.subrange(j0, j0 + r) =~= reps);
    lemma_dec_value_of_rep(data.len());
    assert(int_magnitude(s, j0) == data.len());
    assert(int_value(s, j0) == data.len());
    let j2 = j0 + r + 1;
    assert forall|k: int| 0 <= k < data.len() implies #[trigger] s.subrange(j2, j2 + data.len())[k]
        == data[k] by {
        assert(w[4 + r + 1 + k] == data[k]);
        assert(s[i + (4 + r + 1 + k)] == w[4 + r + 1 + k]);
    }
    assert(s.subrange(j2, j2 + data.len()) =~= data);
    assert(scan_bin(s, i) == SpecScan::Match(t, i + w.len()));
    assert(scan_hexescape(s, i) is NoMatch);
    assert(scan_symbol(s, i) is NoMatch);
}

/// A byte that may follow a serialized control word without extending
/// its name or argument on re-scanning: the first byte of any serialized
/// non-text token, or the delimiter space owed before a text run.
pub open spec fn word_follow_byte(b: u8) -> bool {
    b == BACKSLASH || b == OPEN_BRACE || b == CLOSE_BRACE || b == CARRIAGE_RETURN || b == SPACE
}

/// An ASCII letter character and its byte stand for each other exactly.
proof fn lemma_letter_char_byte(c: char)
    requires
        is_ascii_letter_char(c),
    ensures
        is_ascii_letter(c as u8),
        (c as u8) as char == c,
        c as u8 != 0x27,
        (c as u8 == 0x62) == (c == 'b'),
        (c as u8 == 0x69) == (c == 'i'),
        (c as u8 == 0x6E) == (c == 'n'),
{
    assert(c as u32 <= 0x7A);
}

/// A serialized control word scans back to itself, provided the byte
/// after it (if any) is a `word_follow_byte`; a following space is
/// absorbed as the word's optional trailing delimiter.
proof fn lemma_scan_rtf_word(s: Seq<u8>, i: int, name: Seq<char>, arg: Option<i32>)
    requires
        producible_token(TokenView::ControlWord { name, arg }),
        0 <= i,
        i + rtf_bytes(TokenView::ControlWord { name, arg }).len() <= s.len(),
        s.subrange(i, i + rtf_bytes(TokenView::ControlWord { name, arg }).len()) == rtf_bytes(
            TokenView::ControlWord { name, arg },
        ),
        i + rtf_bytes(TokenView::ControlWord { name, arg }).len() == s.len() || word_follow_byte(
            s[i + rtf_bytes(TokenView::ControlWord { name, arg }).len()],
        ),
    ensures
        scan_token(s, i) == SpecScan::Match(
            TokenView::ControlWord { name, arg },
            i + rtf_bytes(TokenView::ControlWord { name, arg }).len() + (if i + rtf_bytes(
                TokenView::ControlWord { name, arg },
            ).len() < s.len() && s[i + rtf_bytes(TokenView::ControlWord { name, arg }).len()]
                == SPACE {
                1int
            } else {
                0int
            }),
        ),
{
    let t = TokenView::ControlWord { name, arg };
    let w = rtf_bytes(t);
    let nb = seq_chars_to_u8(name);
    let nl = name.len() as int;
    let ab: Seq<u8> = match arg {
        Some(v) => dec_rep_signed(v as int),
        None => Seq::empty(),
    };
    assert(w == seq![BACKSLASH] + nb + ab);
    assert(nb.len() == nl);
    assert(w.len() == 1 + nl + ab.len());
    let wend = i + w.len();
    lemma_bytes_at(s, i, w);
    assert(s[i] == BACKSLASH) by {
        assert(s[i + 0] == w[0]);
    }
    // The name's bytes, and that they are letters.
    assert forall|k: int| 0 <= k < nl implies s[i + 1 + k] == name[k] as u8 && is_ascii_letter(
        #[trigger] s[i + 1 + k],
    ) by {
        assert(w[1 + k] == nb[k]);
        assert(s[i + (1 + k)] == w[1 + k]);
        assert(is_ascii_letter_char(name[k]));
        lemma_letter_char_byte(name[k]);
    }
    let ne = i + 1 + nl;
    // The argument's bytes.
    assert forall|k: int| 0 <= k < ab.len() implies s[ne + k] == #[trigger] ab[k] by {
        assert(w[1 + nl + k] == ab[k]);
        assert(s[i + (1 + nl + k)] == w[1 + nl + k]);
    }
    // The byte at the end of the name stops the letter run.
    assert(ne == s.len() || !is_ascii_letter(s[ne])) by {
        if ne < s.len() {
            match arg {
                Some(v) => {
                    if v < 0 {
                        assert(s[ne + 0] == ab[0]);
                        assert(ab[0] == 0x2D);
                    } else {
                        lemma_dec_rep_digits(v as nat);
                        assert(s[ne + 0] == ab[0]);
                        assert(is_dec_digit(ab[0]));
                    }
                },
                None => {
                    assert(ne == wend);
                },
            }
        }
    }
    assert forall|m: int| i + 1 <= m < ne implies is_ascii_letter(#[trigger] s[m]) by {
        assert(s[i + 1 + (m - i - 1)] == name[m - i - 1] as u8);
    }
    lemma_letter_run_exact(s, i + 1, ne);
    assert(letter_run_end(s, i + 1) == ne);
    // The letters read back as the name.
    assert forall|k: int| 0 <= k < nl implies #[trigger] seq_u8_to_chars(s.subrange(i + 1, ne))[k]
        == name[k] by {
        assert(s.subrange(i + 1, ne)[k] == s[i + 1 + k]);
        lemma_letter_char_byte(name[k]);
    }
    assert(seq_u8_to_chars(s.subrange(i + 1, ne)) =~= name);
    // The argument scans back to the same value, or no argument starts.
    match arg {
        None => {
            assert(ne == wend);
            assert(!int_start_shape(s, ne));
            assert(scan_word(s, i) == SpecScan::Match(
                t,
                wend + (if wend < s.len() && s[wend] == SPACE {
                    1int
                } else {
                    0int
                }),
            ));
        },
        Some(v) => {
            if v >= 0 {
                let reps = dec_rep(v as nat);
                let rl = reps.len() as int;
                lemma_dec_rep_digits(v as nat);
                assert(ab == reps);
                assert(s[ne] == reps[0]) by {
                    assert(s[ne + 0] == ab[0]);
                }
                assert(int_start_shape(s, ne));
                assert(!(s[ne] == 0x2D));
                assert forall|m: int| ne <= m < ne + rl implies is_dec_digit(#[trigger] s[m]) by {
                    assert(s[ne + (m - ne)] == ab[m - ne]);
                }
                assert(ne + rl == wend);
                lemma_digit_run_exact(s, ne, ne + rl);
                assert(int_end(s, ne) == ne + rl);
                assert forall|k: int| 0 <= k < rl implies #[trigger] s.subrange(ne, ne + rl)[k]
                    == reps[k] by {
                    assert(s[ne + k] == ab[k]);
                }
                assert(s.subrange(ne, ne + rl) =~= reps);
                lemma_dec_value_of_rep(v as nat);
                assert(int_magnitude(s, ne) == v);
                assert(int_value(s, ne) == v);
            } else {
                let reps = dec_rep((-v) as nat);
                let rl = reps.len() as int;
                lemma_dec_rep_digits((-v) as nat);
                assert(ab == seq![0x2Du8] + reps);
                assert(s[ne] == 0x2D) by {
                    assert(s[ne + 0] == ab[0]);
                }
                assert(s[ne + 1] == reps[0]) by {
                    assert(ab[1] == reps[0]);
                }
                assert(int_start_shape(s, ne));
                assert forall|m: int| ne + 1 <= m < ne + 1 + rl implies is_dec_digit(
                    #[trigger] s[m],
                ) by {
                    assert(s[ne + (m - ne)] == ab[m - ne]);
                    assert(ab[m - ne] == reps[m - ne - 1]);
                }
                assert(ne + 1 + rl == wend);
                lemma_digit_run_exact(s, ne + 1, ne + 1 + rl);
                assert(int_end(s, ne) == ne + 1 + rl);
                assert forall|k: int| 0 <= k < rl implies #[trigger] s.subrange(
                    ne + 1,
                    ne + 1 + rl,
                )[k] == reps[k] by {
                    assert(s[ne + (1 + k)] == ab[1 + k]);
                    assert(ab[1 + k] == reps[k]);
                }
                assert(s.subrange(ne + 1, ne + 1 + rl) =~= reps);
                lemma_dec_value_of_rep((-v) as nat);
                assert(int_magnitude(s, ne) == -v);
                assert(int_value(s, ne) == v);
            }
            assert(scan_word(s, i) == SpecScan::Match(
                t,
                wend + (if wend < s.len() && s[wend] == SPACE {
                    1int
                } else {
                    0int
                }),
            ));
        },
    }
    // The earlier recognizers in the precedence order do not apply.
    assert(s[i + 1] == name[0] as u8) by {
        assert(s[i + 1 + 0] == name[0] as u8);
    }
    lemma_letter_char_byte(name[0]);
    assert(scan_hexescape(s, i) is NoMatch);
    assert(scan_symbol(s, i) is NoMatch);
    // The binary-run recognizer does not apply either: the name is
    // `bin` only with a negative length, which it declines, and any
    // other name differs from the literal `\bin` in some byte.
    if name_starts_with_bin(name) {
        assert(nl == 3);
        assert(name[0] == 'b' && name[1] == 'i' && name[2] == 'n');
        assert(s[i + 1] == 0x62 && s[i + 2] == 0x69 && s[i + 3] == 0x6E) by {
            assert(s[i + 1 + 0] == name[0] as u8);
            assert(s[i + 1 + 1] == name[1] as u8);
            assert(s[i + 1 + 2] == name[2] as u8);
            lemma_letter_char_byte(name[0]);
            lemma_letter_char_byte(name[1]);
            lemma_letter_char_byte(name[2]);
        }
        assert(ne == i + 4);
        assert(arg matches Some(v) && v < 0);
        assert(int_value(s, i + 4) < 0);
        assert(int_magnitude(s, i + 4) <= MAX_ARG_MAGNITUDE);
        assert(scan_bin(s, i) is NoMatch);
    } else {
        if i + 4 <= s.len() && s[i + 1] == 0x62 && s[i + 2] == 0x69 && s[i + 3] == 0x6E {
            assert(name[0] == 'b') by {
                assert(s[i + 1 + 0] == name[0] as u8);
                lemma_letter_char_byte(name[0]);
            }
            if nl == 1 {
                // The byte after the one-letter name is an argument
                // byte, a follow byte, or past the end; none is `i`.
                assert(ne == i + 2);
                if ab.len() > 0 {
                    assert(s[ne + 0] == ab[0]);
                    match arg {
                        Some(v) => {
                            if v < 0 {
                                assert(ab[0] == 0x2D);
                            } else {
                                lemma_dec_rep_digits(v as nat);
                                assert(is_dec_digit(ab[0]));
                            }
                        },
                        None => {},
                    }
                    assert(s[i + 2] != 0x69);
                } else {
                    assert(wend == i + 2);
                    assert(s[i + 2] != 0x69);
                }
                assert(false);
            } else {
                assert(name[1] == 'i') by {
                    assert(s[i + 1 + 1] == name[1] as u8);
                    lemma_letter_char_byte(name[1]);
                }
                if nl == 2 {
                    // The byte after the two-letter name is an argument
                    // byte, a follow byte, or past the end; none is `n`.
                    assert(ne == i + 3);
                    if ab.len() > 0 {
                        assert(s[ne + 0] == ab[0]);
                        match arg {
                            Some(v) => {
                                if v < 0 {
                                    assert(ab[0] == 0x2D);
                                } else {
                                    lemma_dec_rep_digits(v as nat);
                                    assert(is_dec_digit(ab[0]));
                                }
                            },
                            None => {},
                        }
                        assert(s[i + 3] != 0x6E);
                    } else {
                        assert(wend == i + 3);
                        assert(s[i + 3] != 0x6E);
                    }
                    assert(false);
                } else {
                    assert(name[2] == 'n') by {
                        assert(s[i + 1 + 2] == name[2] as u8);
                        lemma_letter_char_byte(name[2]);
                    }
                    assert(name_starts_with_bin(name));
                    assert(false);
                }
            }
        }
        assert(scan_bin(s, i) is NoMatch);
    }
}

/// A producible token's serialization is never empty, and its first byte
/// classifies the token: directives start with a backslash, markers with
/// their own byte, a newline with CR, and a text run with a text byte.
proof fn lemma_rtf_first_byte(t: TokenView)
    requires
        producible_token(t),
    ensures
        rtf_bytes(t).len() > 0,
        (t is ControlSymbol || t is ControlWord || t is ControlBin) ==> rtf_bytes(t)[0]
            == BACKSLASH,
        t is StartGroup ==> rtf_bytes(t)[0] == OPEN_BRACE,
        t is EndGroup ==> rtf_bytes(t)[0] == CLOSE_BRACE,
        t is Newline ==> rtf_bytes(t)[0] == CARRIAGE_RETURN,
        t is Text ==> is_text_byte(rtf_bytes(t)[0]),
{
    match t {
        TokenView::ControlBin(data) => {
            lemma_dec_rep_digits(data.len());
        },
        _ => {},
    }
}

/// Serialized producible tokens, standing as the whole tail of an
/// input, scan back to exactly those tokens, byte for byte.
proof fn lemma_scan_stream_serialized(s: Seq<u8>, i: int, ts: Seq<TokenView>)
    requires
        0 <= i <= s.len(),
        producible_stream(ts),
        s.subrange(i, s.len() as int) == stream_bytes(ts),
    ensures
        scan_stream(s, i) == StreamView::Complete(ts),
    decreases ts.len(),
{
    let tail = s.subrange(i, s.len() as int);
    if ts.len() == 0 {
        assert(stream_bytes(ts).len() == 0);
        assert(ts =~= Seq::<TokenView>::empty());
    } else {
        let t = ts[0];
        let rest = ts.drop_first();
        let d: Seq<u8> = if ts.len() >= 2 {
            delimiter_bytes(t, ts[1])
        } else {
            Seq::empty()
        };
        let u = stream_bytes(rest);
        let w = rtf_bytes(t);
        if ts.len() == 1 {
            assert(rest =~= Seq::<TokenView>::empty());
            assert(stream_bytes(ts) =~= w + d + u);
        } else {
            assert(stream_bytes(ts) == w + delimiter_bytes(ts[0], ts[1]) + stream_bytes(rest));
            assert(stream_bytes(ts) =~= w + d + u);
        }
        assert(producible_token(t));
        lemma_rtf_first_byte(t);
        assert(tail.len() == w.len() + d.len() + u.len());
        let wend = i + w.len();
        let m = wend + d.len();
        assert forall|k: int| 0 <= k < w.len() implies #[trigger] s.subrange(i, wend)[k]
            == w[k] by {
            assert(tail[k] == s[i + k]);
            assert(tail[k] == (w + d + u)[k]);
        }
        assert(s.subrange(i, wend) =~= w);
        if d.len() > 0 {
            assert(d == seq![SPACE]);
            assert(s[wend] == SPACE) by {
                assert(tail[w.len() as int] == (w + d + u)[w.len() as int]);
                assert(tail[w.len() as int] == s[i + w.len()]);
            }
        }
        if d.len() == 0 && u.len() > 0 && wend < s.len() {
            assert(rest.len() > 0);
            assert(producible_token(rest[0])) by {
                assert(rest[0] == ts[1]);
            }
            lemma_rtf_first_byte(rest[0]);
            assert(u[0] == rtf_bytes(rest[0])[0]) by {
                if rest.len() == 1 {
                    assert(u == rtf_bytes(rest[0]));
                } else {
                    assert(u == rtf_bytes(rest[0]) + delimiter_bytes(rest[0], rest[1])
                        + stream_bytes(rest.drop_first()));
                }
            }
            assert(s[wend] == u[0]) by {
                assert(tail[w.len() as int] == (w + d + u)[w.len() as int]);
                assert(tail[w.len() as int] == s[i + w.len()]);
            }
        }
        match t {
            TokenView::ControlSymbol(c) => {
                lemma_scan_rtf_symbol(s, i, c);
            },
            TokenView::ControlWord { name, arg } => {
                // A text run after a word always has the delimiter
                // space before it, so the byte after the word (if any)
                // is a follow byte.
                if wend < s.len() {
                    if d.len() == 0 {
                        assert(u.len() > 0);
                        if rest[0] is Text {
                            assert(ts[1] is Text);
                            assert(false);
                        }
                        assert(word_follow_byte(s[wend]));
                    } else {
                        assert(word_follow_byte(s[wend]));
                    }
                }
                lemma_scan_rtf_word(s, i, name, arg);
                assert((if wend < s.len() && s[wend] == SPACE {
                    1int
                } else {
                    0int
                }) == d.len());
            },
            TokenView::ControlBin(data) => {
                lemma_scan_rtf_bin(s, i, data);
            },
            TokenView::Text(data) => {
                if wend < s.len() {
                    assert(u.len() > 0);
                    if rest[0] is Text {
                        assert(ts[0] is Text && ts[1] is Text);
                        assert(false);
                    }
                    assert(!is_text_byte(s[wend]));
                }
                lemma_scan_rtf_text(s, i, data);
            },
            TokenView::StartGroup => {
                assert(s[i] == OPEN_BRACE) by {
                    assert(s.subrange(i, wend)[0] == w[0]);
                }
                lemma_scan_rtf_group(s, i, true);
            },
            TokenView::EndGroup => {
                assert(s[i] == CLOSE_BRACE) by {
                    assert(s.subrange(i, wend)[0] == w[0]);
                }
                lemma_scan_rtf_group(s, i, false);
            },
            TokenView::Newline => {
                assert(s[i] == CARRIAGE_RETURN && s[i + 1] == LINE_FEED) by {
                    assert(s.subrange(i, wend)[0] == w[0]);
                    assert(s.subrange(i, wend)[1] == w[1]);
                }
                lemma_scan_rtf_newline(s, i);
            },
        }
        assert(scan_token(s, i) == SpecScan::Match(t, m));
        assert forall|k: int| 0 <= k < u.len() implies #[trigger] s.subrange(m, s.len() as int)[k]
            == u[k] by {
            assert(s.subrange(m, s.len() as int)[k] == s[m + k]);
            assert(tail[w.len() + d.len() + k] == (w + d + u)[w.len() + d.len() + k]);
            assert(tail[w.len() + d.len() + k] == s[i + (w.len() + d.len() + k)]);
        }
        assert(s.subrange(m, s.len() as int) =~= u);
        assert(producible_stream(rest)) by {
            assert forall|k: int| 0 <= k < rest.len() implies producible_token(
                #[trigger] rest[k],
            ) by {
                assert(rest[k] == ts[k + 1]);
            }
            assert forall|k: int| 0 <= k && k + 1 < rest.len() implies !((#[trigger] rest[k])
                is Text && rest[k + 1] is Text) by {
                assert(rest[k] == ts[k + 1]);
                assert(rest[k + 1] == ts[k + 2]);
            }
        }
        lemma_scan_stream_serialized(s, m, rest);
        assert(i < m <= s.len());
        assert(scan_stream(s, i) == stream_prepend(t, StreamView::Complete(rest)));
        assert(seq![t] + rest =~= ts);
    }
}

/// A hex-escape token: a control word named `'` whose argument is one
/// decoded byte. The one token shape the scanner produces that is not
/// `producible_token`: it serializes with a decimal argument, which
/// re-scans as hexadecimal.
pub open spec fn hexescape_token(t: TokenView) -> bool {
    t matches TokenView::ControlWord { name, arg } && name == seq!['\''] && (arg matches Some(v)
        && 0 <= v <= 255)
}

/// Whatever the scanner recognizes is a producible token or a hex-escape
/// token; a recognized text run is over text bytes and maximal.
proof fn lemma_scan_token_producible(s: Seq<u8>, i: int, t: TokenView, j: int)
    requires
        0 <= i <= s.len(),
        scan_token(s, i) == SpecScan::Match(t, j),
    ensures
        producible_token(t) || hexescape_token(t),
        t is Text ==> is_text_byte(s[i]),
        t is Text ==> (j == s.len() || !is_text_byte(s[j])),
{
    if !(scan_hexescape(s, i) is NoMatch) {
        // A hex escape: name `'`, argument the decoded byte.
    } else if !(scan_symbol(s, i) is NoMatch) {
        let c = s[i + 1] as char;
        assert(c as u32 == s[i + 1]);
        assert(!is_ascii_letter_char(c));
        assert(c != '\'');
    } else if !(scan_bin(s, i) is NoMatch) {
        if scan_bin(s, i) is Match {
            if int_start_shape(s, i + 4) {
                crate::grammar::lemma_int_bounds(s, i + 4);
            }
        }
    } else if !(scan_word(s, i) is NoMatch) {
        lemma_letter_run_end_facts(s, i);
        let name_end = letter_run_end(s, i + 1);
        let name = seq_u8_to_chars(s.subrange(i + 1, name_end));
        assert(name.len() == name_end - (i + 1));
        // The name's characters are letters.
        assert forall|k: int| 0 <= k < name.len() implies is_ascii_letter_char(
            #[trigger] name[k],
        ) by {
            assert(s.subrange(i + 1, name_end)[k] == s[i + 1 + k]);
            assert(is_ascii_letter(s[i + 1 + k]));
            assert(name[k] == s[i + 1 + k] as char);
            assert(name[k] as u32 == s[i + 1 + k]);
        }
        // The argument, if present, stays strictly above `i32::MIN`.
        if int_start_shape(s, name_end) {
            crate::grammar::lemma_int_bounds(s, name_end);
        }
        // A name with the `bin` prefix can only be `bin` itself with a
        // negative argument: anything else the binary-run recognizer,
        // tried first, would have taken.
        if name_starts_with_bin(name) {
            assert(s[i + 1] == 0x62 && s[i + 2] == 0x69 && s[i + 3] == 0x6E) by {
                assert(s.subrange(i + 1, name_end)[0] == s[i + 1]);
                assert(s.subrange(i + 1, name_end)[1] == s[i + 2]);
                assert(s.subrange(i + 1, name_end)[2] == s[i + 3]);
                assert(name[0] as u32 == s[i + 1]);
                assert(name[1] as u32 == s[i + 2]);
                assert(name[2] as u32 == s[i + 3]);
            }
            assert(i + 4 <= s.len());
            // The binary-run recognizer saw the `\bin` prefix and still
            // declined, so a negative length follows.
            assert(int_start_shape(s, i + 4));
            assert(!int_overflows(s, i + 4));
            assert(int_value(s, i + 4) < 0);
            assert(s[i + 4] == 0x2D);
            assert(!is_ascii_letter(s[i + 4]));
            assert(name_end == i + 4);
            assert(name.len() == 3);
            assert(name_is_bin(name));
        }
    } else if !(scan_group_open(s, i) is NoMatch) {
    } else if !(scan_group_close(s, i) is NoMatch) {
    } else if !(scan_newline(s, i) is NoMatch) {
    } else {
        // The text run: over text bytes, and maximal.
        assert(scan_text(s, i) == SpecScan::Match(t, j));
        crate::grammar::lemma_text_run_end(s, i);
        let e = text_run_end(s, i);
        assert(t == TokenView::Text(s.subrange(i, e)));
        assert forall|k: int| 0 <= k < s.subrange(i, e).len() implies is_text_byte(
            #[trigger] s.subrange(i, e)[k],
        ) by {
            assert(s.subrange(i, e)[k] == s[i + k]);
        }
        assert(e > i) by {
            crate::grammar::lemma_text_run_end(s, i + 1);
        }
    }
}

/// Letter-run facts at a word's position, packaged for the proof above.
proof fn lemma_letter_run_end_facts(s: Seq<u8>, i: int)
    requires
        0 <= i,
        i + 2 <= s.len(),
        is_ascii_letter(s[i + 1]),
    ensures
        i + 2 <= letter_run_end(s, i + 1) <= s.len(),
        forall|k: int| i + 1 <= k < letter_run_end(s, i + 1) ==> is_ascii_letter(#[trigger] s[k]),
        letter_run_end(s, i + 1) < s.len() ==> !is_ascii_letter(s[letter_run_end(s, i + 1)]),
{
    crate::grammar::lemma_letter_run_end(s, i + 2);
}

/// Whatever the scanner completes on is a stream of producible or
/// hex-escape tokens, with no two text runs adjacent: a text run is
/// maximal, so the byte after it can never start another one.
pub proof fn lemma_scan_stream_producible(s: Seq<u8>, i: int, ts: Seq<TokenView>)
    requires
        0 <= i <= s.len(),
        scan_stream(s, i) == StreamView::Complete(ts),
    ensures
        forall|k: int|
            0 <= k < ts.len() ==> producible_token(#[trigger] ts[k]) || hexescape_token(ts[k]),
        forall|k: int|
            0 <= k && k + 1 < ts.len() ==> !((#[trigger] ts[k]) is Text && ts[k + 1] is Text),
    decreases s.len() - i,
{
    if i >= s.len() {
        assert(ts =~= Seq::<TokenView>::empty());
    } else {
        match scan_token(s, i) {
            SpecScan::Match(t, j) => {
                assert(i < j <= s.len()) by {
                    crate::grammar::lemma_scan_token_advances(s, i, t, j);
                }
                let inner = scan_stream(s, j);
                match inner {
                    StreamView::Complete(rest) => {
                        assert(ts == seq![t] + rest);
                        lemma_scan_token_producible(s, i, t, j);
                        lemma_scan_stream_producible(s, j, rest);
                        assert forall|k: int| 0 <= k < ts.len() implies producible_token(
                            #[trigger] ts[k],
                        ) || hexescape_token(ts[k]) by {
                            if k == 0 {
                                assert(ts[0] == t);
                            } else {
                                assert(ts[k] == rest[k - 1]);
                            }
                        }
                        assert forall|k: int| 0 <= k && k + 1 < ts.len() implies !((
                        #[trigger] ts[k]) is Text && ts[k + 1] is Text) by {
                            if k == 0 {
                                assert(ts[0] == t);
                                assert(ts[1] == rest[0]);
                                if t is Text && rest[0] is Text {
                                    // The first text run was maximal, so
                                    // no text byte stands at `j`; but a
                                    // second text run there would need one.
                                    assert(j < s.len()) by {
                                        if j == s.len() {
                                            assert(rest =~= Seq::<TokenView>::empty());
                                        }
                                    }
                                    assert(!is_text_byte(s[j]));
                                    let t2 = rest[0];
                                    assert(scan_stream(s, j) == StreamView::Complete(rest));
                                    match scan_token(s, j) {
                                        SpecScan::Match(t2x, j2) => {
                                            assert(t2x == rest[0]) by {
                                                assert(i < j2 <= s.len() ==> true);
                                                crate::grammar::lemma_scan_token_advances(
                                                    s,
                                                    j,
                                                    t2x,
                                                    j2,
                                                );
                                            }
                                            lemma_scan_token_producible(s, j, t2x, j2);
                                            assert(is_text_byte(s[j]));
                                        },
                                        _ => {
                                            assert(false);
                                        },
                                    }
                                    assert(false);
                                }
                            } else {
                                assert(ts[k] == rest[k - 1]);
                                assert(ts[k + 1] == rest[k]);
                            }
                        }
                    },
                    StreamView::Stopped(a, b, c) => {
                        assert(false);
                    },
                }
            },
            SpecScan::NoMatch => {
                assert(false);
            },
            SpecScan::Fail(e) => {
                assert(false);
            },
        }
    }
}

/// Round trip for the tokenizer's own output: when scanning an input
/// completes and none of its tokens is a hex-escape word, serializing
/// the tokens and scanning the result gives the same tokens back.
pub proof fn lemma_tokenize_round_trip(s: Seq<u8>, ts: Seq<TokenView>)
    requires
        scan_stream(s, 0) == StreamView::Complete(ts),
        forall|k: int| 0 <= k < ts.len() ==> !hexescape_token(#[trigger] ts[k]),
    ensures
        scan_stream(stream_bytes(ts), 0) == StreamView::Complete(ts),
{
    lemma_scan_stream_producible(s, 0, ts);
    lemma_round_trip(ts);
}

/// Round trip: serializing any token sequence the tokenizer can produce
/// and scanning the result yields the same sequence back, with every
/// byte consumed. Together with the contracts of
/// [`crate::tokenizer::read_token_stream`] and
/// [`crate::tokenizer::serialize_tokens`], this says that re-tokenizing
/// a serialized stream returns equal token values.
///
/// `producible_stream` bounds the claim to what the tokenizer produces.
/// Hex-escape words (named `'`) are excluded: they serialize with a
/// decimal argument that re-scans as hexadecimal, so they do not round
/// trip in general.
pub proof fn lemma_round_trip(ts: Seq<TokenView>)
    requires
        producible_stream(ts),
    ensures
        scan_stream(stream_bytes(ts), 0) == StreamView::Complete(ts),
{
    let s = stream_bytes(ts);
    assert(s.subrange(0, s.len() as int) =~= s);
    lemma_scan_stream_serialized(s, 0, ts);
}

} // verus!
