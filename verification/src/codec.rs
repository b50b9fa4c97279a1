use vstd::prelude::*;
use vstd::utf8::*;
use vstd::string::*;
use bytes::BytesMut;
use crate::buffer::{buffer_advance, buffer_bytes, buffer_contents, buffer_extend, buffer_len, buffer_push};
use crate::frame::{Frame, FrameModel};
use crate::num::{decimal_text, integer_text, parse_i64, parse_i64_text, integer_to_text, length_to_text};
use crate::text::str_from_utf8;

verus! {

/// The RESP encoder and decoder.
pub struct RespCodec;

/// Why a frame could not be read.
#[derive(Debug, Clone, Copy, PartialEq, Eq, Structural)]
pub enum FrameError {
    /// The buffer ends before the frame does; more bytes may complete it.
    Incomplete,
    /// The first byte names no RESP type.
    InvalidTypeByte(u8),
    /// A line that must be text is not UTF-8.
    InvalidUtf8,
    /// A line that must hold an integer does not.
    InvalidInteger,
    /// An inline command with no word in it.
    EmptyInline,
    /// A negative length that no buffer can satisfy (`$-2`, or `*` below zero).
    LengthOverflow,
}

// ---------------------------------------------------------------------------
// The grammar, as spec functions over the bytes of a buffer.
// ---------------------------------------------------------------------------

pub open spec fn crlf_at(s: Seq<u8>, i: int) -> bool {
    0 <= i && i + 1 < s.len() && s[i] == 13 && s[i + 1] == 10
}

/// The index of the first `\r\n` at or after `start`.
pub open spec fn line_end(s: Seq<u8>, start: int) -> Option<int>
    decreases s.len() - start,
{
    if start < 0 || start + 1 >= s.len() {
        None
    } else if crlf_at(s, start) {
        Some(start)
    } else {
        line_end(s, start + 1)
    }
}

/// A line holding a decimal integer, and where the next line starts.
pub open spec fn decimal_line(s: Seq<u8>, start: int) -> Result<(int, int), FrameError> {
    match line_end(s, start) {
        None => Err(FrameError::Incomplete),
        Some(e) => {
            let line = s.subrange(start, e);
            if !valid_utf8(line) {
                Err(FrameError::InvalidUtf8)
            } else {
                match parse_i64_text(line) {
                    Some(v) => Ok((v, e + 2)),
                    None => Err(FrameError::InvalidInteger),
                }
            }
        },
    }
}

/// A line that must be UTF-8 text, and where the next line starts.
pub open spec fn text_line(s: Seq<u8>, start: int) -> Result<(Seq<u8>, int), FrameError> {
    match line_end(s, start) {
        None => Err(FrameError::Incomplete),
        Some(e) => {
            let line = s.subrange(start, e);
            if valid_utf8(line) {
                Ok((line, e + 2))
            } else {
                Err(FrameError::InvalidUtf8)
            }
        },
    }
}

pub open spec fn is_alpha(b: u8) -> bool {
    (65 <= b <= 90) || (97 <= b <= 122)
}

/// Whether the bytes at `pos` hold a whole frame, and where it ends.
pub open spec fn check_spec(s: Seq<u8>, pos: int) -> Result<int, FrameError>
    decreases s.len() - pos, 0int, 0int,
{
    if pos < 0 || pos >= s.len() {
        Err(FrameError::Incomplete)
    } else {
        let t = s[pos];
        if t == 43 || t == 45 || t == 58 {
            match line_end(s, pos + 1) {
                Some(e) => Ok(e + 2),
                None => Err(FrameError::Incomplete),
            }
        } else if t == 36 {
            match decimal_line(s, pos + 1) {
                Err(x) => Err(x),
                Ok((n, p)) => if n == -1 {
                    Ok(p)
                } else if n == -2 {
                    Err(FrameError::LengthOverflow)
                } else if n < -2 {
                    Err(FrameError::Incomplete)
                } else if s.len() - p < n + 2 {
                    Err(FrameError::Incomplete)
                } else {
                    Ok(p + n + 2)
                },
            }
        } else if t == 42 {
            match decimal_line(s, pos + 1) {
                Err(x) => Err(x),
                Ok((n, p)) => if pos < p <= s.len() {
                    check_items(s, p, n)
                } else {
                    Err(FrameError::Incomplete)
                },
            }
        } else if is_alpha(t) {
            match line_end(s, pos) {
                Some(e) => Ok(e + 2),
                None => Err(FrameError::Incomplete),
            }
        } else {
            Err(FrameError::InvalidTypeByte(t))
        }
    }
}

/// Whether `n` whole frames follow one another from `pos`, and where they end.
pub open spec fn check_items(s: Seq<u8>, pos: int, n: int) -> Result<int, FrameError>
    decreases s.len() - pos, 1int, n,
{
    if n <= 0 {
        Ok(pos)
    } else {
        match check_spec(s, pos) {
            Err(x) => Err(x),
            Ok(e) => if pos < e <= s.len() {
                check_items(s, e, n - 1)
            } else {
                Err(FrameError::Incomplete)
            },
        }
    }
}

/// The width of the UTF-8 encoding of a Unicode `White_Space` character at
/// `i`, or 0 where none starts there.
pub open spec fn white_space_width(s: Seq<u8>, i: int) -> int {
    if !(0 <= i < s.len()) {
        0
    } else {
        let b = s[i];
        if b == 9 || b == 10 || b == 11 || b == 12 || b == 13 || b == 32 {
            1
        } else if b == 0xC2 && i + 1 < s.len() && (s[i + 1] == 0x85 || s[i + 1] == 0xA0) {
            2
        } else if b == 0xE1 && i + 2 < s.len() && s[i + 1] == 0x9A && s[i + 2] == 0x80 {
            3
        } else if b == 0xE2 && i + 2 < s.len() && ((s[i + 1] == 0x80 && ((0x80 <= s[i + 2]
            <= 0x8A) || s[i + 2] == 0xA8 || s[i + 2] == 0xA9 || s[i + 2] == 0xAF)) || (s[i + 1]
            == 0x81 && s[i + 2] == 0x9F)) {
            3
        } else if b == 0xE3 && i + 2 < s.len() && s[i + 1] == 0x80 && s[i + 2] == 0x80 {
            3
        } else {
            0
        }
    }
}

/// Where the run of non-white-space bytes that includes `i` ends.
pub open spec fn word_end(s: Seq<u8>, i: int) -> int
    decreases s.len() - i,
{
    if 0 <= i < s.len() && white_space_width(s, i) == 0 {
        word_end(s, i + 1)
    } else {
        i
    }
}

/// The words of `s` from `i` on, as `str::split_whitespace` yields them.
pub open spec fn split_words(s: Seq<u8>, i: int) -> Seq<Seq<u8>>
    decreases s.len() - i,
{
    if i < 0 || i >= s.len() {
        seq![]
    } else if white_space_width(s, i) > 0 {
        split_words(s, i + white_space_width(s, i))
    } else if i < word_end(s, i) <= s.len() {
        seq![s.subrange(i, word_end(s, i))] + split_words(s, word_end(s, i))
    } else {
        seq![]
    }
}

pub open spec fn bulk_frames(words: Seq<Seq<u8>>) -> Seq<FrameModel> {
    Seq::new(words.len(), |k: int| FrameModel::Bulk(words[k]))
}

/// The frame at `pos`, and where it ends, once `check_spec` found it whole.
pub open spec fn parse_spec(s: Seq<u8>, pos: int) -> Result<(FrameModel, int), FrameError>
    decreases s.len() - pos, 0int, 0int,
{
    if pos < 0 || pos >= s.len() {
        Err(FrameError::Incomplete)
    } else {
        let t = s[pos];
        if t == 43 {
            match text_line(s, pos + 1) {
                Ok((l, e)) => Ok((FrameModel::Simple(decode_utf8(l)), e)),
                Err(x) => Err(x),
            }
        } else if t == 45 {
            match text_line(s, pos + 1) {
                Ok((l, e)) => Ok((FrameModel::Error(decode_utf8(l)), e)),
                Err(x) => Err(x),
            }
        } else if t == 58 {
            match text_line(s, pos + 1) {
                Ok((l, e)) => match parse_i64_text(l) {
                    Some(v) => Ok((FrameModel::Integer(v), e)),
                    None => Err(FrameError::InvalidInteger),
                },
                Err(x) => Err(x),
            }
        } else if t == 36 {
            match decimal_line(s, pos + 1) {
                Err(x) => Err(x),
                Ok((n, p)) => if n == -1 {
                    Ok((FrameModel::Null, p))
                } else if n < -1 {
                    Err(FrameError::LengthOverflow)
                } else if p + n + 2 <= s.len() {
                    Ok((FrameModel::Bulk(s.subrange(p, p + n)), p + n + 2))
                } else {
                    Err(FrameError::Incomplete)
                },
            }
        } else if t == 42 {
            match decimal_line(s, pos + 1) {
                Err(x) => Err(x),
                Ok((n, p)) => if n < 0 {
                    Err(FrameError::LengthOverflow)
                } else if pos < p <= s.len() {
                    match parse_items(s, p, n) {
                        Ok((items, e)) => Ok((FrameModel::Array(items), e)),
                        Err(x) => Err(x),
                    }
                } else {
                    Err(FrameError::Incomplete)
                },
            }
        } else if is_alpha(t) {
            match text_line(s, pos) {
                Ok((l, e)) => if split_words(l, 0).len() == 0 {
                    Err(FrameError::EmptyInline)
                } else {
                    Ok((FrameModel::Array(bulk_frames(split_words(l, 0))), e))
                },
                Err(x) => Err(x),
            }
        } else {
            Err(FrameError::InvalidTypeByte(t))
        }
    }
}

/// `n` frames one after another from `pos`, and where they end.
pub open spec fn parse_items(s: Seq<u8>, pos: int, n: int) -> Result<
    (Seq<FrameModel>, int),
    FrameError,
>
    decreases s.len() - pos, 1int, n,
{
    if n <= 0 {
        Ok((seq![], pos))
    } else {
        match parse_spec(s, pos) {
            Err(x) => Err(x),
            Ok((f, e)) => if pos < e <= s.len() {
                match parse_items(s, e, n - 1) {
                    Ok((rest, e2)) => Ok((seq![f] + rest, e2)),
                    Err(x) => Err(x),
                }
            } else {
                Err(FrameError::Incomplete)
            },
        }
    }
}

/// What decoding the buffer `s` gives: no frame yet, a frame and the number of
/// bytes it took, or an error.
pub open spec fn decode_spec(s: Seq<u8>) -> Result<Option<(FrameModel, int)>, FrameError> {
    if s.len() == 0 {
        Ok(None)
    } else {
        match check_spec(s, 0) {
            Err(FrameError::Incomplete) => Ok(None),
            Err(x) => Err(x),
            Ok(n) => match parse_spec(s, 0) {
                Ok((f, _)) => Ok(Some((f, n))),
                Err(x) => Err(x),
            },
        }
    }
}

/// The buffers on which decoding reaches a length that no allocation or
/// index can hold.
pub open spec fn decode_overflows(s: Seq<u8>) -> bool {
    s.len() > 0 && (check_spec(s, 0) == Err::<int, FrameError>(FrameError::LengthOverflow) || (
    check_spec(s, 0) is Ok && parse_spec(s, 0) == Err::<(FrameModel, int), FrameError>(
        FrameError::LengthOverflow,
    )))
}


// ---------------------------------------------------------------------------
// Reading frames.
// ---------------------------------------------------------------------------

/// Finds the `\r\n` that ends the line starting at `start`; returns the index
/// of its `\r`.
pub fn get_line(s: &[u8], start: usize) -> (r: Result<usize, FrameError>)
    requires
        start <= s@.len(),
    ensures
        match r {
            Ok(e) => line_end(s@, start as int) == Some(e as int) && start <= e && e + 2 <= s@.len(),
            Err(x) => x == FrameError::Incomplete && line_end(s@, start as int) is None,
        },
{
    let len = s.len();
    let mut i = start;
    while len - i >= 2
        invariant
            start <= i <= len,
            len == s@.len(),
            line_end(s@, start as int) == line_end(s@, i as int),
        decreases len - i,
    {
        if s[i] == 13 && s[i + 1] == 10 {
            return Ok(i);
        }
        i = i + 1;
    }
    Err(FrameError::Incomplete)
}

/// Reads the line at `start` as a decimal integer; returns it and where the
/// next line starts.
pub fn get_decimal(s: &[u8], start: usize) -> (r: Result<(i64, usize), FrameError>)
    requires
        start <= s@.len(),
    ensures
        match r {
            Ok((v, p)) => decimal_line(s@, start as int) == Ok::<(int, int), FrameError>(
                (v as int, p as int),
            ) && start < p <= s@.len(),
            Err(x) => decimal_line(s@, start as int) == Err::<(int, int), FrameError>(x),
        },
{
    match get_line(s, start) {
        Err(x) => Err(x),
        Ok(e) => {
            let line = &s[start..e];
            match str_from_utf8(line) {
                None => Err(FrameError::InvalidUtf8),
                Some(_) => match parse_i64(s, start, e) {
                    Some(v) => {
                        assert(e + 2 <= s.len());
                        Ok((v, e + 2))
                    },
                    None => Err(FrameError::InvalidInteger),
                },
            }
        },
    }
}

/// Reads the line at `start` as UTF-8 text; returns the text and where the
/// next line starts.
fn get_line_str(s: &[u8], start: usize) -> (r: Result<(String, usize), FrameError>)
    requires
        start <= s@.len(),
    ensures
        match r {
            Ok((t, p)) => text_line(s@, start as int) == Ok::<(Seq<u8>, int), FrameError>(
                (s@.subrange(start as int, p - 2), p as int),
            ) && t@ == decode_utf8(s@.subrange(start as int, p - 2)) && start + 2 <= p <= s@.len(),
            Err(x) => text_line(s@, start as int) == Err::<(Seq<u8>, int), FrameError>(x),
        },
{
    match get_line(s, start) {
        Err(x) => Err(x),
        Ok(e) => {
            let line = &s[start..e];
            match str_from_utf8(line) {
                None => Err(FrameError::InvalidUtf8),
                Some(t) => {
                    assert(e + 2 <= s.len());
                    Ok((t.to_owned(), e + 2))
                },
            }
        },
    }
}

/// Checks whether the bytes from `pos` on hold a whole frame; returns where it
/// ends. A length that no buffer can satisfy gives `LengthOverflow`.
pub fn check_frame(s: &[u8], pos: usize) -> (r: Result<usize, FrameError>)
    requires
        pos <= s@.len(),
    ensures
        match r {
            Ok(e) => check_spec(s@, pos as int) == Ok::<int, FrameError>(e as int) && pos < e
                <= s@.len(),
            Err(x) => check_spec(s@, pos as int) == Err::<int, FrameError>(x),
        },
    decreases s@.len() - pos,
{
    if pos >= s.len() {
        return Err(FrameError::Incomplete);
    }
    let t = s[pos];
    if t == 43 || t == 45 || t == 58 {
        match get_line(s, pos + 1) {
            Ok(e) => Ok(e + 2),
            Err(x) => Err(x),
        }
    } else if t == 36 {
        match get_decimal(s, pos + 1) {
            Err(x) => Err(x),
            Ok((n, p)) => {
                if n == -1 {
                    Ok(p)
                } else if n == -2 {
                    Err(FrameError::LengthOverflow)
                } else if n < -2 {
                    Err(FrameError::Incomplete)
                } else if ((s.len() - p) as u64) < (n as u64) + 2 {
                    Err(FrameError::Incomplete)
                } else {
                    Ok(p + (n as usize) + 2)
                }
            },
        }
    } else if t == 42 {
        match get_decimal(s, pos + 1) {
            Err(x) => Err(x),
            Ok((n, p)) => {
                let mut cur = p;
                let mut i: i64 = 0;
                while i < n
                    invariant
                        pos < p <= cur <= s@.len(),
                        0 <= i,
                        n >= 0 ==> i <= n,
                        check_spec(s@, pos as int) == check_items(s@, p as int, n as int),
                        check_items(s@, p as int, n as int) == check_items(
                            s@,
                            cur as int,
                            n - i,
                        ),
                    decreases n - i,
                {
                    match check_frame(s, cur) {
                        Err(x) => {
                            return Err(x);
                        },
                        Ok(e) => {
                            cur = e;
                        },
                    }
                    i = i + 1;
                }
                Ok(cur)
            },
        }
    } else if (65 <= t && t <= 90) || (97 <= t && t <= 122) {
        match get_line(s, pos) {
            Ok(e) => Ok(e + 2),
            Err(x) => Err(x),
        }
    } else {
        Err(FrameError::InvalidTypeByte(t))
    }
}

/// The width of a `White_Space` character's encoding at `i`, or 0.
fn white_space_at(s: &[u8], i: usize) -> (r: usize)
    requires
        i < s@.len(),
    ensures
        r as int == white_space_width(s@, i as int),
        r <= 3,
{
    let b = s[i];
    let len = s.len();
    if b == 9 || b == 10 || b == 11 || b == 12 || b == 13 || b == 32 {
        1
    } else if b == 0xC2 && len - i > 1 && (s[i + 1] == 0x85 || s[i + 1] == 0xA0) {
        2
    } else if b == 0xE1 && len - i > 2 && s[i + 1] == 0x9A && s[i + 2] == 0x80 {
        3
    } else if b == 0xE2 && len - i > 2 && ((s[i + 1] == 0x80 && ((0x80 <= s[i + 2] && s[i + 2]
        <= 0x8A) || s[i + 2] == 0xA8 || s[i + 2] == 0xA9 || s[i + 2] == 0xAF)) || (s[i + 1]
        == 0x81 && s[i + 2] == 0x9F)) {
        3
    } else if b == 0xE3 && len - i > 2 && s[i + 1] == 0x80 && s[i + 2] == 0x80 {
        3
    } else {
        0
    }
}

/// A copy of `s[lo..hi]`.
fn copy_range(s: &[u8], lo: usize, hi: usize) -> (r: Vec<u8>)
    requires
        lo <= hi <= s@.len(),
    ensures
        r@ == s@.subrange(lo as int, hi as int),
{
    let mut out: Vec<u8> = Vec::new();
    let mut i = lo;
    while i < hi
        invariant
            lo <= i <= hi <= s@.len(),
            out@ == s@.subrange(lo as int, i as int),
        decreases hi - i,
    {
        out.push(s[i]);
        i = i + 1;
        assert(out@ =~= s@.subrange(lo as int, i as int));
    }
    out
}

/// The words of an inline command, each as a bulk frame.
pub(crate) fn split_inline(line: &[u8]) -> (r: Vec<Frame>)
    ensures
        r@.len() == split_words(line@, 0).len(),
        forall|k: int|
            0 <= k < r@.len() ==> (#[trigger] r@[k])@ == FrameModel::Bulk(split_words(line@, 0)[k]),
{
    let len = line.len();
    let mut out: Vec<Frame> = Vec::new();
    let ghost mut words: Seq<Seq<u8>> = seq![];
    let mut i: usize = 0;
    while i < len
        invariant
            i <= len == line@.len(),
            words + split_words(line@, i as int) == split_words(line@, 0),
            out@.len() == words.len(),
            forall|k: int| 0 <= k < out@.len() ==> (#[trigger] out@[k])@ == FrameModel::Bulk(words[k]),
        decreases len - i,
    {
        let w = white_space_at(line, i);
        if w > 0 {
            i = i + w;
        } else {
            let mut j = i + 1;
            assert(word_end(line@, i as int) == word_end(line@, j as int));
            while j < len && white_space_at(line, j) == 0
                invariant
                    i < j <= len == line@.len(),
                    word_end(line@, i as int) == word_end(line@, j as int),
                decreases len - j,
            {
                j = j + 1;
            }
            let word = copy_range(line, i, j);
            let ghost old_words = words;
            proof {
                assert(word_end(line@, j as int) == j);
                words = words.push(line@.subrange(i as int, j as int));
                assert(split_words(line@, i as int) == seq![line@.subrange(i as int, j as int)]
                    + split_words(line@, j as int));
                assert(words + split_words(line@, j as int) =~= old_words + split_words(
                    line@,
                    i as int,
                ));
            }
            out.push(Frame::Bulk(word));
            i = j;
        }
    }
    assert(words =~= split_words(line@, 0));
    out
}

/// Reads the frame at `pos`, once `check_frame` found it whole; returns it and
/// where it ends.
pub fn parse_frame(s: &[u8], pos: usize) -> (r: Result<(Frame, usize), FrameError>)
    requires
        pos <= s@.len(),
    ensures
        match r {
            Ok((f, e)) => parse_spec(s@, pos as int) == Ok::<(FrameModel, int), FrameError>(
                (f@, e as int),
            ) && pos < e <= s@.len(),
            Err(x) => parse_spec(s@, pos as int) == Err::<(FrameModel, int), FrameError>(x),
        },
    decreases s@.len() - pos,
{
    if pos >= s.len() {
        return Err(FrameError::Incomplete);
    }
    let t = s[pos];
    if t == 43 || t == 45 {
        match get_line_str(s, pos + 1) {
            Err(x) => Err(x),
            Ok((text, e)) => {
                if t == 43 {
                    Ok((Frame::Simple(text), e))
                } else {
                    Ok((Frame::Error(text), e))
                }
            },
        }
    } else if t == 58 {
        match get_line_str(s, pos + 1) {
            Err(x) => Err(x),
            Ok((_, e)) => match parse_i64(s, pos + 1, e - 2) {
                Some(v) => Ok((Frame::Integer(v), e)),
                None => Err(FrameError::InvalidInteger),
            },
        }
    } else if t == 36 {
        match get_decimal(s, pos + 1) {
            Err(x) => Err(x),
            Ok((n, p)) => {
                if n == -1 {
                    Ok((Frame::Null, p))
                } else if n < -1 {
                    Err(FrameError::LengthOverflow)
                } else if ((s.len() - p) as u64) >= (n as u64) + 2 {
                    let end = p + n as usize;
                    let data = copy_range(s, p, end);
                    Ok((Frame::Bulk(data), end + 2))
                } else {
                    Err(FrameError::Incomplete)
                }
            },
        }
    } else if t == 42 {
        match get_decimal(s, pos + 1) {
            Err(x) => Err(x),
            Ok((n, p)) => {
                if n < 0 {
                    return Err(FrameError::LengthOverflow);
                }
                let mut items: Vec<Frame> = Vec::new();
                let ghost mut models: Seq<FrameModel> = seq![];
                let mut cur = p;
                let mut i: i64 = 0;
                while i < n
                    invariant
                        pos < p <= cur <= s@.len(),
                        0 <= i <= n,
                        items@.len() == models.len(),
                        parse_spec(s@, pos as int) == match parse_items(s@, p as int, n as int) {
                            Ok((items, e)) => Ok::<(FrameModel, int), FrameError>(
                                (FrameModel::Array(items), e),
                            ),
                            Err(x) => Err::<(FrameModel, int), FrameError>(x),
                        },
                        forall|k: int|
                            0 <= k < items@.len() ==> (#[trigger] items@[k])@ == models[k],
                        parse_items(s@, p as int, n as int) == match parse_items(
                            s@,
                            cur as int,
                            n - i,
                        ) {
                            Ok((rest, e)) => Ok::<(Seq<FrameModel>, int), FrameError>(
                                (models + rest, e),
                            ),
                            Err(x) => Err::<(Seq<FrameModel>, int), FrameError>(x),
                        },
                    decreases n - i,
                {
                    match parse_frame(s, cur) {
                        Err(x) => {
                            return Err(x);
                        },
                        Ok((f, e)) => {
                            proof {
                                let ghost m = f@;
                                match parse_items(s@, e as int, n - i - 1) {
                                    Ok((rest, e2)) => {
                                        assert(models.push(m) + rest =~= models + (seq![m]
                                            + rest));
                                    },
                                    Err(_) => {},
                                }
                                models = models.push(m);
                            }
                            items.push(f);
                            cur = e;
                        },
                    }
                    i = i + 1;
                }
                let result = Frame::Array(items);
                assert(result@ == FrameModel::Array(models)) by {
                    assert(match result@ {
                        FrameModel::Array(v) => v =~= models,
                        _ => false,
                    });
                }
                Ok((result, cur))
            },
        }
    } else if (65 <= t && t <= 90) || (97 <= t && t <= 122) {
        match get_line(s, pos) {
            Err(x) => Err(x),
            Ok(e) => {
                let line = &s[pos..e];
                match str_from_utf8(line) {
                    None => Err(FrameError::InvalidUtf8),
                    Some(_) => {
                        let words = split_inline(line);
                        if words.len() == 0 {
                            Err(FrameError::EmptyInline)
                        } else {
                            let result = Frame::Array(words);
                            assert(result@ == FrameModel::Array(
                                bulk_frames(split_words(line@, 0)),
                            )) by {
                                assert(match result@ {
                                    FrameModel::Array(v) => v =~= bulk_frames(
                                        split_words(line@, 0),
                                    ),
                                    _ => false,
                                });
                            }
                            Ok((result, e + 2))
                        }
                    },
                }
            },
        }
    } else {
        Err(FrameError::InvalidTypeByte(t))
    }
}


// ---------------------------------------------------------------------------
// Writing frames.
// ---------------------------------------------------------------------------

pub open spec fn crlf() -> Seq<u8> {
    seq![13u8, 10u8]
}

/// The bytes that encode a frame.
pub open spec fn encode_spec(f: FrameModel) -> Seq<u8>
    decreases f,
{
    match f {
        FrameModel::Simple(s) => seq![43u8] + encode_utf8(s) + crlf(),
        FrameModel::Error(s) => seq![45u8] + encode_utf8(s) + crlf(),
        FrameModel::Integer(n) => seq![58u8] + integer_text(n) + crlf(),
        FrameModel::Bulk(d) => seq![36u8] + decimal_text(d.len()) + crlf() + d + crlf(),
        FrameModel::Null => seq![36u8, 45u8, 49u8, 13u8, 10u8],
        FrameModel::Array(items) => seq![42u8] + decimal_text(items.len()) + crlf()
            + encode_items(items),
    }
}

/// The encodings of `items`, one after another.
pub open spec fn encode_items(items: Seq<FrameModel>) -> Seq<u8>
    decreases items,
{
    if items.len() == 0 {
        seq![]
    } else {
        encode_items(items.drop_last()) + encode_spec(items.last())
    }
}

fn write_crlf(dst: &mut BytesMut)
    ensures
        buffer_contents(*final(dst)) == buffer_contents(*old(dst)) + crlf(),
{
    buffer_push(dst, 13u8);
    buffer_push(dst, 10u8);
    assert(buffer_contents(*final(dst)) =~= buffer_contents(*old(dst)) + crlf());
}

/// Appends the encoding of `frame` to `dst`.
fn write_frame(frame: &Frame, dst: &mut BytesMut)
    ensures
        buffer_contents(*final(dst)) == buffer_contents(*old(dst)) + encode_spec(frame@),
    decreases frame,
{
    let ghost start = buffer_contents(*dst);
    match frame {
        Frame::Simple(s) => {
            buffer_push(dst, 43u8);
            buffer_extend(dst, s.as_str().as_bytes());
            write_crlf(dst);
            assert(buffer_contents(*dst) =~= start + encode_spec(frame@));
        },
        Frame::Error(s) => {
            buffer_push(dst, 45u8);
            buffer_extend(dst, s.as_str().as_bytes());
            write_crlf(dst);
            assert(buffer_contents(*dst) =~= start + encode_spec(frame@));
        },
        Frame::Integer(n) => {
            buffer_push(dst, 58u8);
            let digits = integer_to_text(*n);
            buffer_extend(dst, digits.as_slice());
            write_crlf(dst);
            assert(buffer_contents(*dst) =~= start + encode_spec(frame@));
        },
        Frame::Bulk(data) => {
            buffer_push(dst, 36u8);
            let digits = length_to_text(data.len());
            buffer_extend(dst, digits.as_slice());
            write_crlf(dst);
            buffer_extend(dst, data.as_slice());
            write_crlf(dst);
            assert(buffer_contents(*dst) =~= start + encode_spec(frame@));
        },
        Frame::Null => {
            buffer_push(dst, 36u8);
            buffer_push(dst, 45u8);
            buffer_push(dst, 49u8);
            write_crlf(dst);
            assert(buffer_contents(*dst) =~= start + encode_spec(frame@));
        },
        Frame::Array(items) => {
            buffer_push(dst, 42u8);
            let digits = length_to_text(items.len());
            buffer_extend(dst, digits.as_slice());
            write_crlf(dst);
            let ghost header = buffer_contents(*dst);
            let ghost models = match frame@ {
                FrameModel::Array(v) => v,
                _ => seq![],
            };
            let mut i: usize = 0;
            while i < items.len()
                invariant
                    i <= items@.len() == models.len(),
                    *frame is Array,
                    frame->Array_0 == *items,
                    forall|k: int| 0 <= k < models.len() ==> models[k] == (#[trigger] items@[k])@,
                    buffer_contents(*dst) == header + encode_items(models.take(i as int)),
                decreases items.len() - i,
            {
                proof {
                    assert(decreases_to!(*frame => frame->Array_0));
                    assert(decreases_to!(*items => items@));
                    assert(decreases_to!(items@ => items@[i as int]));
                }
                write_frame(&items[i], dst);
                assert(models.take(i + 1).drop_last() =~= models.take(i as int));
                i = i + 1;
                assert(buffer_contents(*dst) =~= header + encode_items(models.take(i as int)));
            }
            assert(models.take(i as int) =~= models);
            assert(buffer_contents(*dst) =~= start + encode_spec(frame@));
        },
    }
}

impl RespCodec {
    /// Reads one frame from the front of `src` and removes its bytes. `Ok(None)`
    /// means that the buffer holds no whole frame yet; it is left as it was.
    /// A buffer that is no frame, or that names a length no buffer can hold,
    /// is an error and is left as it was.
    pub fn decode(&mut self, src: &mut BytesMut) -> (r: Result<Option<Frame>, FrameError>)
        ensures
            decode_overflows(buffer_contents(*old(src))) ==> r is Err && r->Err_0
                == FrameError::LengthOverflow,
            match r {
                Ok(Some(f)) => match decode_spec(buffer_contents(*old(src))) {
                    Ok(Some((m, n))) => f@ == m && 0 < n <= buffer_contents(*old(src)).len()
                        && buffer_contents(*final(src))
                        == buffer_contents(*old(src)).subrange(
                        n,
                        buffer_contents(*old(src)).len() as int,
                    ),
                    _ => false,
                },
                Ok(None) => decode_spec(buffer_contents(*old(src))) == Ok::<
                    Option<(FrameModel, int)>,
                    FrameError,
                >(None) && buffer_contents(*final(src)) == buffer_contents(*old(src)),
                Err(x) => decode_spec(buffer_contents(*old(src))) == Err::<
                    Option<(FrameModel, int)>,
                    FrameError,
                >(x) && buffer_contents(*final(src)) == buffer_contents(*old(src)),
            },
    {
        let len = buffer_len(src);
        if len == 0 {
            return Ok(None);
        }
        let bytes = buffer_bytes(src);
        match check_frame(bytes, 0) {
            Err(FrameError::Incomplete) => Ok(None),
            Err(x) => Err(x),
            Ok(n) => match parse_frame(bytes, 0) {
                Err(x) => Err(x),
                Ok((f, _)) => {
                    buffer_advance(src, n);
                    Ok(Some(f))
                },
            },
        }
    }

    /// Whether decoding `src` would meet a length that no buffer can hold, the
    /// one case that `decode` does not take.
    pub fn decode_overflows(src: &BytesMut) -> (r: bool)
        ensures
            r == decode_overflows(buffer_contents(*src)),
    {
        let len = buffer_len(src);
        if len == 0 {
            return false;
        }
        let bytes = buffer_bytes(src);
        match check_frame(bytes, 0) {
            Err(FrameError::LengthOverflow) => true,
            Err(_) => false,
            Ok(_) => match parse_frame(bytes, 0) {
                Err(FrameError::LengthOverflow) => true,
                _ => false,
            },
        }
    }

    /// Appends the encoding of `frame` to `dst`.
    pub fn encode(&mut self, frame: Frame, dst: &mut BytesMut)
        ensures
            buffer_contents(*final(dst)) == buffer_contents(*old(dst)) + encode_spec(frame@),
    {
        write_frame(&frame, dst);
    }
}

} // verus!
