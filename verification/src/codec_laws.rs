use vstd::prelude::*;
use vstd::utf8::*;
use crate::codec::{
    check_items, check_spec, crlf, crlf_at, decimal_line, decode_overflows, decode_spec,
    encode_items, encode_spec, line_end, parse_items, parse_spec, text_line, bulk_frames,
    split_words,
};
use crate::frame::FrameModel;
use crate::num::{
    all_digits, decimal_text, integer_text, is_digit, lemma_decimal_text,
    lemma_parse_decimal_text, lemma_parse_integer_text, parse_i64_text,
};

verus! {

broadcast use {encode_utf8_valid_utf8, encode_utf8_decode_utf8};

/// Whether `b` holds a `\r\n` anywhere.
pub open spec fn has_crlf(b: Seq<u8>) -> bool {
    exists|i: int| crlf_at(b, i)
}

/// The frames that the encoding can carry: no text line holds `\r\n`, and
/// every number and length fits in an `i64`.
pub open spec fn encodable(f: FrameModel) -> bool
    decreases f,
{
    match f {
        FrameModel::Simple(s) => !has_crlf(encode_utf8(s)),
        FrameModel::Error(s) => !has_crlf(encode_utf8(s)),
        FrameModel::Integer(n) => i64::MIN <= n <= i64::MAX,
        FrameModel::Bulk(d) => d.len() <= i64::MAX,
        FrameModel::Null => true,
        FrameModel::Array(items) => items.len() <= i64::MAX && forall|k: int|
            0 <= k < items.len() ==> encodable(#[trigger] items[k]),
    }
}

/// A window of a window.
proof fn lemma_window(s: Seq<u8>, pos: int, enc: Seq<u8>, a: int, b: int)
    requires
        0 <= pos,
        pos + enc.len() <= s.len(),
        s.subrange(pos, pos + enc.len()) == enc,
        0 <= a <= b <= enc.len(),
    ensures
        s.subrange(pos + a, pos + b) == enc.subrange(a, b),
{
    assert forall|i: int| 0 <= i < b - a implies s.subrange(pos + a, pos + b)[i] == enc.subrange(
        a,
        b,
    )[i] by {
        assert(s.subrange(pos, pos + enc.len())[a + i] == enc[a + i]);
    }
    assert(s.subrange(pos + a, pos + b) =~= enc.subrange(a, b));
}

proof fn lemma_line_end_at(s: Seq<u8>, start: int, e: int)
    requires
        0 <= start <= e,
        crlf_at(s, e),
        forall|i: int| start <= i < e ==> !crlf_at(s, i),
    ensures
        line_end(s, start) == Some(e),
    decreases e - start,
{
    if start < e {
        lemma_line_end_at(s, start + 1, e);
    }
}

/// A line with no `\r\n` in it, followed by `\r\n`, ends where it should.
proof fn lemma_line(s: Seq<u8>, start: int, line: Seq<u8>)
    requires
        0 <= start,
        start + line.len() + 2 <= s.len(),
        s.subrange(start, start + line.len() + 2) == line + crlf(),
        !has_crlf(line),
    ensures
        line_end(s, start) == Some(start + line.len()),
        s.subrange(start, start + line.len()) == line,
{
    let e = start + line.len();
    let t = line + crlf();
    assert(s[e] == t[line.len() as int]);
    assert(s[e + 1] == t[line.len() + 1int]);
    assert forall|i: int| start <= i < e implies !crlf_at(s, i) by {
        assert(s[i] == t[i - start]);
        assert(s[i + 1] == t[i + 1 - start]);
        if i + 1 < e {
            assert(t[i - start] == line[i - start]);
            assert(t[i + 1 - start] == line[i + 1 - start]);
            if crlf_at(s, i) {
                assert(crlf_at(line, i - start));
            }
        }
    }
    lemma_line_end_at(s, start, e);
    assert(s.subrange(start, e) =~= line);
}

/// Bytes below 0x80 are valid UTF-8.
pub(crate) proof fn lemma_ascii_valid_utf8(b: Seq<u8>)
    requires
        forall|i: int| 0 <= i < b.len() ==> #[trigger] b[i] <= 0x7f,
    ensures
        valid_utf8(b),
{
    assert(b.subrange(0, 0) =~= Seq::<u8>::empty());
    assert(valid_utf8(b.subrange(0, 0)));
    assert(partial_valid_utf8(b, 0));
    assert forall|i: int| 0 <= 0 <= i < b.len() <= b.len() implies #[trigger] is_leading_byte_width_1(
        b[i],
    ) by {}
    partial_valid_utf8_extend_ascii_block(b, 0, b.len() as int);
    assert(b.subrange(0, b.len() as int) =~= b);
}

/// The text of an integer is ASCII with no `\r\n`.
proof fn lemma_integer_text_plain(n: int)
    ensures
        forall|i: int|
            0 <= i < integer_text(n).len() ==> #[trigger] integer_text(n)[i] <= 0x7f
                && integer_text(n)[i] != 13,
        !has_crlf(integer_text(n)),
{
    let t = integer_text(n);
    if n < 0 {
        let d = decimal_text((-n) as nat);
        lemma_decimal_text((-n) as nat);
        assert forall|i: int| 0 <= i < t.len() implies #[trigger] t[i] <= 0x7f && t[i] != 13 by {
            if i > 0 {
                assert(t[i] == d[i - 1]);
                assert(is_digit(d[i - 1]));
            }
        }
    } else {
        lemma_decimal_text(n as nat);
        assert forall|i: int| 0 <= i < t.len() implies #[trigger] t[i] <= 0x7f && t[i] != 13 by {
            assert(is_digit(t[i]));
        }
    }
    if has_crlf(t) {
        let i = choose|i: int| crlf_at(t, i);
        assert(t[i] == 13);
    }
}

/// A decimal line reads back as the integer it was written from.
proof fn lemma_decimal_line(s: Seq<u8>, start: int, n: int)
    requires
        0 <= start,
        i64::MIN <= n <= i64::MAX,
        start + integer_text(n).len() + 2 <= s.len(),
        s.subrange(start, start + integer_text(n).len() + 2) == integer_text(n) + crlf(),
    ensures
        decimal_line(s, start) == Ok::<(int, int), crate::codec::FrameError>(
            (n, start + integer_text(n).len() + 2),
        ),
        text_line(s, start) == Ok::<(Seq<u8>, int), crate::codec::FrameError>(
            (integer_text(n), start + integer_text(n).len() + 2),
        ),
{
    let t = integer_text(n);
    lemma_integer_text_plain(n);
    lemma_line(s, start, t);
    lemma_ascii_valid_utf8(t);
    lemma_parse_integer_text(n);
}

/// The encodings of items, read from the front.
proof fn lemma_encode_items_front(items: Seq<FrameModel>)
    requires
        items.len() > 0,
    ensures
        encode_items(items) == encode_spec(items[0]) + encode_items(items.drop_first()),
    decreases items.len(),
{
    if items.len() == 1 {
        assert(items.drop_last() =~= Seq::<FrameModel>::empty());
        assert(items.drop_first() =~= Seq::<FrameModel>::empty());
        assert(encode_items(items) =~= encode_spec(items[0]) + encode_items(items.drop_first()));
    } else {
        lemma_encode_items_front(items.drop_last());
        assert(items.drop_last().drop_first() =~= items.drop_first().drop_last());
        assert(items.drop_first().last() == items.last());
        assert(items.drop_last()[0] == items[0]);
        assert(encode_items(items) =~= encode_spec(items[0]) + encode_items(items.drop_first()));
    }
}

pub(crate) proof fn lemma_encode_len(f: FrameModel)
    ensures
        encode_spec(f).len() >= 3,
{
    match f {
        FrameModel::Integer(n) => {},
        FrameModel::Bulk(d) => {},
        FrameModel::Array(items) => {},
        _ => {},
    }
}

/// A frame's encoding, wherever it stands in a buffer, is found whole and read
/// back as that frame.
pub proof fn lemma_frame_at(s: Seq<u8>, pos: int, f: FrameModel)
    requires
        encodable(f),
        0 <= pos,
        pos + encode_spec(f).len() <= s.len(),
        s.subrange(pos, pos + encode_spec(f).len()) == encode_spec(f),
    ensures
        check_spec(s, pos) == Ok::<int, crate::codec::FrameError>(pos + encode_spec(f).len()),
        parse_spec(s, pos) == Ok::<(FrameModel, int), crate::codec::FrameError>(
            (f, pos + encode_spec(f).len()),
        ),
    decreases f,
{
    let enc = encode_spec(f);
    let end = pos + enc.len();
    assert(s[pos] == enc[0]);
    match f {
        FrameModel::Simple(t) => {
            let line = encode_utf8(t);
            lemma_window(s, pos, enc, 1, 1 + line.len() + 2int);
            assert(enc.subrange(1, 1 + line.len() + 2int) =~= line + crlf());
            lemma_line(s, pos + 1, line);
        },
        FrameModel::Error(t) => {
            let line = encode_utf8(t);
            lemma_window(s, pos, enc, 1, 1 + line.len() + 2int);
            assert(enc.subrange(1, 1 + line.len() + 2int) =~= line + crlf());
            lemma_line(s, pos + 1, line);
        },
        FrameModel::Integer(n) => {
            let line = integer_text(n);
            lemma_window(s, pos, enc, 1, 1 + line.len() + 2int);
            assert(enc.subrange(1, 1 + line.len() + 2int) =~= line + crlf());
            lemma_decimal_line(s, pos + 1, n);
        },
        FrameModel::Bulk(d) => {
            let n = d.len() as int;
            let line = decimal_text(d.len());
            assert(integer_text(n) == line);
            lemma_window(s, pos, enc, 1, 1 + line.len() + 2int);
            assert(enc.subrange(1, 1 + line.len() + 2int) =~= line + crlf());
            lemma_decimal_line(s, pos + 1, n);
            let p = pos + 1 + line.len() + 2;
            lemma_window(s, pos, enc, 1 + line.len() + 2int, 1 + line.len() + 2int + n);
            assert(enc.subrange(1 + line.len() + 2int, 1 + line.len() + 2int + n) =~= d);
        },
        FrameModel::Null => {
            let line = integer_text(-1);
            assert(line =~= seq![45u8, 49u8]) by {
                assert(decimal_text(1) =~= seq![49u8]);
            }
            lemma_window(s, pos, enc, 1, 1 + line.len() + 2int);
            assert(enc.subrange(1, 1 + line.len() + 2int) =~= line + crlf());
            lemma_decimal_line(s, pos + 1, -1);
        },
        FrameModel::Array(items) => {
            let n = items.len() as int;
            let line = decimal_text(items.len());
            assert(integer_text(n) == line);
            lemma_window(s, pos, enc, 1, 1 + line.len() + 2int);
            assert(enc.subrange(1, 1 + line.len() + 2int) =~= line + crlf());
            lemma_decimal_line(s, pos + 1, n);
            let p = pos + 1 + line.len() + 2;
            lemma_window(s, pos, enc, 1 + line.len() + 2int, enc.len() as int);
            assert(enc.subrange(1 + line.len() + 2int, enc.len() as int) =~= encode_items(items));
            lemma_items_at(s, p, items);
        },
    }
}

proof fn lemma_items_at(s: Seq<u8>, pos: int, items: Seq<FrameModel>)
    requires
        forall|k: int| 0 <= k < items.len() ==> encodable(#[trigger] items[k]),
        0 <= pos,
        pos + encode_items(items).len() <= s.len(),
        s.subrange(pos, pos + encode_items(items).len()) == encode_items(items),
    ensures
        check_items(s, pos, items.len() as int) == Ok::<int, crate::codec::FrameError>(
            pos + encode_items(items).len(),
        ),
        parse_items(s, pos, items.len() as int) == Ok::<(Seq<FrameModel>, int), crate::codec::FrameError>(
            (items, pos + encode_items(items).len()),
        ),
    decreases items,
{
    if items.len() > 0 {
        lemma_encode_items_front(items);
        let first = items[0];
        let rest = items.drop_first();
        let e = pos + encode_spec(first).len();
        let whole = encode_items(items);
        assert(s.subrange(pos, e) =~= encode_spec(first)) by {
            assert forall|i: int| 0 <= i < encode_spec(first).len() implies s.subrange(pos, e)[i]
                == encode_spec(first)[i] by {
                assert(s.subrange(pos, pos + whole.len())[i] == whole[i]);
            }
        }
        assert(s.subrange(e, e + encode_items(rest).len()) =~= encode_items(rest)) by {
            assert forall|i: int| 0 <= i < encode_items(rest).len() implies s.subrange(
                e,
                e + encode_items(rest).len(),
            )[i] == encode_items(rest)[i] by {
                assert(s.subrange(pos, pos + whole.len())[encode_spec(first).len() + i]
                    == whole[encode_spec(first).len() + i]);
            }
        }
        lemma_encode_len(first);
        assert(decreases_to!(items => items[0]));
        lemma_frame_at(s, pos, first);
        assert(decreases_to!(items => items.subrange(1, items.len() as int)));
        assert(rest == items.subrange(1, items.len() as int));
        lemma_items_at(s, e, rest);
        assert(seq![first] + rest =~= items);
    } else {
        assert(items =~= Seq::<FrameModel>::empty());
    }
}

/// Where checking finds a whole frame at `pos` and reading it succeeds, both
/// end at the same place: decoding removes exactly the bytes of the frame it
/// reads.
pub proof fn lemma_check_parse_agree(s: Seq<u8>, pos: int)
    ensures
        check_spec(s, pos) is Ok && parse_spec(s, pos) is Ok ==> parse_spec(s, pos)->Ok_0.1
            == check_spec(s, pos)->Ok_0,
    decreases s.len() - pos, 0int, 0int,
{
    if 0 <= pos < s.len() && s[pos] == 42 {
        match decimal_line(s, pos + 1) {
            Ok((n, p)) => {
                if pos < p <= s.len() {
                    lemma_items_agree(s, p, n);
                }
            },
            Err(_) => {},
        }
    }
}

proof fn lemma_items_agree(s: Seq<u8>, pos: int, n: int)
    ensures
        check_items(s, pos, n) is Ok && parse_items(s, pos, n) is Ok ==> parse_items(s, pos, n)->Ok_0.1
            == check_items(s, pos, n)->Ok_0,
    decreases s.len() - pos, 1int, n,
{
    if n > 0 {
        lemma_check_parse_agree(s, pos);
        match check_spec(s, pos) {
            Ok(e) => {
                if pos < e <= s.len() {
                    lemma_items_agree(s, e, n - 1);
                }
            },
            Err(_) => {},
        }
    }
}

/// A buffer that starts with an ASCII letter, upper or lower case, holds an
/// inline command: when its first line (up to the first `\r\n`, at `e`) is
/// UTF-8 text with at least one word, decoding gives the array of the line's
/// words as bulk strings and takes the line with its `\r\n`.
pub proof fn lemma_decode_inline(s: Seq<u8>, e: int)
    requires
        s.len() > 0,
        (65 <= s[0] <= 90) || (97 <= s[0] <= 122),
        crlf_at(s, e),
        forall|i: int| 0 <= i < e ==> !crlf_at(s, i),
        valid_utf8(s.subrange(0, e)),
        split_words(s.subrange(0, e), 0).len() > 0,
    ensures
        decode_spec(s) == Ok::<Option<(FrameModel, int)>, crate::codec::FrameError>(
            Some((FrameModel::Array(bulk_frames(split_words(s.subrange(0, e), 0))), e + 2)),
        ),
{
    lemma_line_end_at(s, 0, e);
}

/// A buffer whose first byte is none of `+ - : $ *` and no ASCII letter is no
/// frame: decoding rejects it, naming that byte.
pub proof fn lemma_decode_invalid_type(s: Seq<u8>)
    requires
        s.len() > 0,
        s[0] != 43 && s[0] != 45 && s[0] != 58 && s[0] != 36 && s[0] != 42,
        !((65 <= s[0] <= 90) || (97 <= s[0] <= 122)),
    ensures
        decode_spec(s) == Err::<Option<(FrameModel, int)>, crate::codec::FrameError>(
            crate::codec::FrameError::InvalidTypeByte(s[0]),
        ),
        !decode_overflows(s),
{
}

/// Decoding the encoding of a frame, whatever bytes follow it, gives the frame
/// back and takes exactly the bytes of its encoding.
pub proof fn lemma_decode_encode(f: FrameModel, rest: Seq<u8>)
    requires
        encodable(f),
    ensures
        decode_spec(encode_spec(f) + rest) == Ok::<Option<(FrameModel, int)>, crate::codec::FrameError>(
            Some((f, encode_spec(f).len() as int)),
        ),
        !decode_overflows(encode_spec(f) + rest),
{
    let s = encode_spec(f) + rest;
    lemma_encode_len(f);
    assert(s.subrange(0, encode_spec(f).len() as int) =~= encode_spec(f));
    lemma_frame_at(s, 0, f);
}


proof fn lemma_no_line_end(s: Seq<u8>, start: int)
    requires
        0 <= start,
        forall|i: int| start <= i ==> !crlf_at(s, i),
    ensures
        line_end(s, start) is None,
    decreases s.len() - start,
{
    if start + 1 < s.len() {
        lemma_no_line_end(s, start + 1);
    }
}

/// Where a buffer ends inside `line` followed by `\r\n`, before the `\n`, it
/// holds no line end from `start` on.
proof fn lemma_partial_line(s: Seq<u8>, start: int, line: Seq<u8>)
    requires
        0 <= start <= s.len(),
        s.len() - start < line.len() + 2,
        s.subrange(start, s.len() as int) == (line + crlf()).subrange(0, s.len() - start),
        !has_crlf(line),
    ensures
        line_end(s, start) is None,
{
    let t = line + crlf();
    assert forall|i: int| start <= i implies !crlf_at(s, i) by {
        if crlf_at(s, i) {
            let j = i - start;
            assert(s.subrange(start, s.len() as int)[j] == t[j]);
            assert(s.subrange(start, s.len() as int)[j + 1] == t[j + 1]);
            if j + 1 < line.len() {
                assert(t[j] == line[j] && t[j + 1] == line[j + 1]);
                assert(crlf_at(line, j));
            } else {
                assert(j + 1 == line.len());
                assert(t[j + 1] == 13);
            }
        }
    }
    lemma_no_line_end(s, start);
}

proof fn lemma_partial_line_frame(s: Seq<u8>, pos: int, line: Seq<u8>)
    requires
        0 <= pos < s.len(),
        s[pos] == 43 || s[pos] == 45 || s[pos] == 58,
        !has_crlf(line),
        s.len() - pos - 1 < line.len() + 2,
        s.subrange(pos + 1, s.len() as int) == (line + crlf()).subrange(0, s.len() - pos - 1),
    ensures
        check_spec(s, pos) == Err::<int, crate::codec::FrameError>(crate::codec::FrameError::Incomplete),
{
    lemma_partial_line(s, pos + 1, line);
}

proof fn lemma_partial_header(s: Seq<u8>, pos: int, line: Seq<u8>)
    requires
        0 <= pos < s.len(),
        s[pos] == 36 || s[pos] == 42,
        !has_crlf(line),
        s.len() - pos - 1 < line.len() + 2,
        s.subrange(pos + 1, s.len() as int) == (line + crlf()).subrange(0, s.len() - pos - 1),
    ensures
        check_spec(s, pos) == Err::<int, crate::codec::FrameError>(crate::codec::FrameError::Incomplete),
{
    lemma_partial_line(s, pos + 1, line);
}

proof fn lemma_partial_payload(s: Seq<u8>, pos: int, d: Seq<u8>)
    requires
        0 <= pos < s.len(),
        s[pos] == 36,
        d.len() <= i64::MAX,
        pos + 1 + decimal_text(d.len()).len() + 2 <= s.len(),
        s.subrange(pos + 1, pos + 1 + decimal_text(d.len()).len() + 2) == decimal_text(d.len())
            + crlf(),
        s.len() - (pos + 1 + decimal_text(d.len()).len() + 2) < d.len() + 2,
    ensures
        check_spec(s, pos) == Err::<int, crate::codec::FrameError>(crate::codec::FrameError::Incomplete),
{
    assert(integer_text(d.len() as int) == decimal_text(d.len()));
    lemma_decimal_line(s, pos + 1, d.len() as int);
}

proof fn lemma_partial_body(s: Seq<u8>, pos: int, items: Seq<FrameModel>)
    requires
        0 <= pos < s.len(),
        s[pos] == 42,
        items.len() <= i64::MAX,
        forall|k: int| 0 <= k < items.len() ==> encodable(#[trigger] items[k]),
        pos + 1 + decimal_text(items.len()).len() + 2 <= s.len(),
        s.subrange(pos + 1, pos + 1 + decimal_text(items.len()).len() + 2) == decimal_text(
            items.len(),
        ) + crlf(),
        s.len() - (pos + 1 + decimal_text(items.len()).len() + 2) < encode_items(items).len(),
        s.subrange(pos + 1 + decimal_text(items.len()).len() + 2, s.len() as int) == encode_items(
            items,
        ).subrange(0, s.len() - (pos + 1 + decimal_text(items.len()).len() + 2)),
    ensures
        check_spec(s, pos) == Err::<int, crate::codec::FrameError>(crate::codec::FrameError::Incomplete),
    decreases items, 3int,
{
    assert(integer_text(items.len() as int) == decimal_text(items.len()));
    lemma_decimal_line(s, pos + 1, items.len() as int);
    lemma_partial_items(s, pos + 1 + decimal_text(items.len()).len() + 2, items);
}

/// The bytes of `s` from `from` on, `len` of them, are those of `t` from `at` on.
proof fn lemma_shift(s: Seq<u8>, from: int, t: Seq<u8>, at: int, len: int)
    requires
        0 <= from,
        from + len <= s.len(),
        0 <= at,
        at + len <= t.len(),
        0 <= len,
        forall|j: int| from <= j < from + len ==> #[trigger] s[j] == t[j - from + at],
    ensures
        s.subrange(from, from + len) == t.subrange(at, at + len),
{
    assert forall|i: int| 0 <= i < len implies #[trigger] s.subrange(from, from + len)[i] == t.subrange(
        at,
        at + len,
    )[i] by {
        assert(s[from + i] == t[from + i - from + at]);
    }
    assert(s.subrange(from, from + len) =~= t.subrange(at, at + len));
}

/// A buffer that ends partway through a frame's encoding holds no whole frame.
pub proof fn lemma_partial_at(s: Seq<u8>, pos: int, f: FrameModel)
    requires
        encodable(f),
        0 <= pos <= s.len(),
        s.len() - pos < encode_spec(f).len(),
        s.subrange(pos, s.len() as int) == encode_spec(f).subrange(0, s.len() - pos),
    ensures
        check_spec(s, pos) == Err::<int, crate::codec::FrameError>(crate::codec::FrameError::Incomplete),
    decreases f, 1int,
{
    let enc = encode_spec(f);
    let a = s.len() - pos;
    if a == 0 {
        return;
    }
    assert forall|j: int| pos <= j < pos + a implies #[trigger] s[j] == enc[j - pos] by {
        assert(s.subrange(pos, s.len() as int)[j - pos] == enc.subrange(0, a)[j - pos]);
    }
    match f {
        FrameModel::Simple(t) => {
            let line = encode_utf8(t);
            let tail = line + crlf();
            assert forall|j: int| pos + 1 <= j < pos + 1 + a - 1 implies #[trigger] s[j] == tail[j - (pos + 1) + 0] by {
                assert(enc[j - pos] == tail[j - (pos + 1)]);
            }
            lemma_shift(s, pos + 1, tail, 0, a - 1);
            lemma_partial_line_frame(s, pos, line);
        },
        FrameModel::Error(t) => {
            let line = encode_utf8(t);
            let tail = line + crlf();
            assert forall|j: int| pos + 1 <= j < pos + 1 + a - 1 implies #[trigger] s[j] == tail[j - (pos + 1) + 0] by {
                assert(enc[j - pos] == tail[j - (pos + 1)]);
            }
            lemma_shift(s, pos + 1, tail, 0, a - 1);
            lemma_partial_line_frame(s, pos, line);
        },
        FrameModel::Integer(n) => {
            let line = integer_text(n);
            lemma_integer_text_plain(n);
            let tail = line + crlf();
            assert forall|j: int| pos + 1 <= j < pos + 1 + a - 1 implies #[trigger] s[j] == tail[j - (pos + 1) + 0] by {
                assert(enc[j - pos] == tail[j - (pos + 1)]);
            }
            lemma_shift(s, pos + 1, tail, 0, a - 1);
            lemma_partial_line_frame(s, pos, line);
        },
        FrameModel::Null => {
            let line = integer_text(-1);
            assert(line =~= seq![45u8, 49u8]) by {
                assert(decimal_text(1) =~= seq![49u8]);
            }
            lemma_integer_text_plain(-1);
            let tail = line + crlf();
            assert forall|j: int| pos + 1 <= j < pos + 1 + a - 1 implies #[trigger] s[j] == tail[j - (pos + 1) + 0] by {
                assert(enc[j - pos] == tail[j - (pos + 1)]);
            }
            lemma_shift(s, pos + 1, tail, 0, a - 1);
            lemma_partial_header(s, pos, line);
        },
        FrameModel::Bulk(d) => {
            let line = decimal_text(d.len());
            lemma_integer_text_plain(d.len() as int);
            assert(integer_text(d.len() as int) == line);
            let tail = line + crlf();
            let h = line.len() + 2int;
            if a - 1 < h {
                assert forall|j: int| pos + 1 <= j < pos + 1 + a - 1 implies #[trigger] s[j] == tail[j - (pos + 1) + 0] by {
                    assert(enc[j - pos] == tail[j - (pos + 1)]);
                }
                lemma_shift(s, pos + 1, tail, 0, a - 1);
                lemma_partial_header(s, pos, line);
            } else {
                assert forall|j: int| pos + 1 <= j < pos + 1 + h implies #[trigger] s[j] == tail[j - (pos + 1) + 0] by {
                    assert(enc[j - pos] == tail[j - (pos + 1)]);
                }
                lemma_shift(s, pos + 1, tail, 0, h);
                assert(tail.subrange(0, h) =~= tail);
                lemma_partial_payload(s, pos, d);
            }
        },
        FrameModel::Array(items) => {
            let line = decimal_text(items.len());
            lemma_integer_text_plain(items.len() as int);
            assert(integer_text(items.len() as int) == line);
            let tail = line + crlf();
            let h = line.len() + 2int;
            if a - 1 < h {
                assert forall|j: int| pos + 1 <= j < pos + 1 + a - 1 implies #[trigger] s[j] == tail[j - (pos + 1) + 0] by {
                    assert(enc[j - pos] == tail[j - (pos + 1)]);
                }
                lemma_shift(s, pos + 1, tail, 0, a - 1);
                lemma_partial_header(s, pos, line);
            } else {
                assert forall|j: int| pos + 1 <= j < pos + 1 + h implies #[trigger] s[j] == tail[j - (pos + 1) + 0] by {
                    assert(enc[j - pos] == tail[j - (pos + 1)]);
                }
                lemma_shift(s, pos + 1, tail, 0, h);
                assert(tail.subrange(0, h) =~= tail);
                let body = encode_items(items);
                let b = a - 1 - h;
                assert forall|j: int| pos + 1 + h <= j < pos + 1 + h + b implies #[trigger] s[j]
                    == body[j - (pos + 1 + h) + 0] by {
                    assert(enc[j - pos] == body[j - (pos + 1 + h)]);
                }
                lemma_shift(s, pos + 1 + h, body, 0, b);
                lemma_partial_body(s, pos, items);
            }
        },
    }
}

proof fn lemma_partial_items(s: Seq<u8>, pos: int, items: Seq<FrameModel>)
    requires
        forall|k: int| 0 <= k < items.len() ==> encodable(#[trigger] items[k]),
        0 <= pos <= s.len(),
        s.len() - pos < encode_items(items).len(),
        s.subrange(pos, s.len() as int) == encode_items(items).subrange(0, s.len() - pos),
    ensures
        check_items(s, pos, items.len() as int) == Err::<int, crate::codec::FrameError>(
            crate::codec::FrameError::Incomplete,
        ),
    decreases items, 2int,
{
    if items.len() == 0 {
        assert(encode_items(items).len() == 0);
        return;
    }
    lemma_encode_items_front(items);
    let first = items[0];
    let rest = items.drop_first();
    let whole = encode_items(items);
    let f1 = encode_spec(first);
    let a = s.len() - pos;
    assert(decreases_to!(items => items[0]));
    lemma_encode_len(first);
    if a < f1.len() {
        assert(s.subrange(pos, s.len() as int) =~= f1.subrange(0, a)) by {
            assert forall|i: int| 0 <= i < a implies s.subrange(pos, s.len() as int)[i] == f1.subrange(
                0,
                a,
            )[i] by {
                assert(whole[i] == f1[i]);
            }
        }
        lemma_partial_at(s, pos, first);
    } else {
        let e = pos + f1.len();
        assert(s.subrange(pos, e) =~= f1) by {
            assert forall|i: int| 0 <= i < f1.len() implies s.subrange(pos, e)[i] == f1[i] by {
                assert(s.subrange(pos, s.len() as int)[i] == whole.subrange(0, a)[i]);
                assert(whole[i] == f1[i]);
            }
        }
        lemma_frame_at(s, pos, first);
        let r = encode_items(rest);
        assert(s.subrange(e, s.len() as int) =~= r.subrange(0, s.len() - e)) by {
            assert forall|i: int| 0 <= i < s.len() - e implies s.subrange(e, s.len() as int)[i]
                == r.subrange(0, s.len() - e)[i] by {
                assert(s.subrange(pos, s.len() as int)[f1.len() + i] == whole.subrange(0, a)[f1.len()
                    + i]);
                assert(whole[f1.len() + i] == r[i]);
            }
        }
        assert(decreases_to!(items => items.subrange(1, items.len() as int)));
        assert(rest == items.subrange(1, items.len() as int));
        lemma_partial_items(s, e, rest);
    }
}

/// A buffer holding only the first bytes of a frame's encoding, some but not
/// all, decodes to no frame yet, and so is left for more bytes to arrive.
pub proof fn lemma_decode_partial(f: FrameModel, n: int)
    requires
        encodable(f),
        0 < n < encode_spec(f).len(),
    ensures
        decode_spec(encode_spec(f).subrange(0, n)) == Ok::<
            Option<(FrameModel, int)>,
            crate::codec::FrameError,
        >(None),
        !decode_overflows(encode_spec(f).subrange(0, n)),
{
    let s = encode_spec(f).subrange(0, n);
    assert(s.subrange(0, s.len() as int) =~= encode_spec(f).subrange(0, n));
    lemma_partial_at(s, 0, f);
}

} // verus!
