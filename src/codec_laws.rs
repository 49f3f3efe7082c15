use crate::decimal::{
    all_digits, decimal, digits_of, digits_value, i64_value, lemma_digits_of,
    lemma_i64_value_decimal, lemma_unsigned_value_decimal, numeral,
};
use crate::resp::{
    crlf, crlf_at, decode_spec, encode_frame, encode_frames, first_crlf, parse_frame, parse_frames,
    Frame,
};
use vstd::prelude::*;
use vstd::utf8::*;

verus! {

/// No line terminator (CR then LF) occurs in `b`.
pub open spec fn no_crlf(b: Seq<u8>) -> bool {
    forall|i: int| 0 <= i < b.len() - 1 ==> !(#[trigger] b[i] == 13 && b[i + 1] == 10)
}

/// A frame that the grammar can carry: texts hold no line terminator, bulk
/// data is UTF-8 text, and every length fits the field that the decoder reads
/// it into.
pub open spec fn well_formed(f: Frame) -> bool
    decreases f,
{
    match f {
        Frame::Simple(s) => no_crlf(encode_utf8(s)),
        Frame::Error(s) => no_crlf(encode_utf8(s)),
        Frame::Integer(_) => true,
        Frame::Bulk(None) => true,
        Frame::Bulk(Some(b)) => valid_utf8(b) && b.len() <= i64::MAX,
        Frame::Array(a) => a.len() <= usize::MAX && all_well_formed(a),
    }
}

pub open spec fn all_well_formed(a: Seq<Frame>) -> bool
    decreases a,
{
    a.len() > 0 ==> all_well_formed(a.drop_last()) && well_formed(a.last())
}

proof fn lemma_ascii_valid_utf8(b: Seq<u8>)
    requires
        forall|i: int| 0 <= i < b.len() ==> #[trigger] b[i] < 128,
    ensures
        valid_utf8(b),
    decreases b.len(),
{
    if b.len() > 0 {
        let b0 = b[0];
        assert((b0 & 0x7f) as u32 <= 0x7f) by (bit_vector);
        assert(valid_first_scalar(b));
        assert(pop_first_scalar(b) =~= b.subrange(1, b.len() as int));
        lemma_ascii_valid_utf8(b.subrange(1, b.len() as int));
    }
}

/// The text of a number is plain ASCII without line breaks.
pub proof fn lemma_decimal_plain(n: int)
    ensures
        forall|i: int| 0 <= i < decimal(n).len() ==> #[trigger] decimal(n)[i] < 128 && decimal(n)[i] != 13,
        valid_utf8(decimal(n)),
        no_crlf(decimal(n)),
{
    let s = decimal(n);
    if n < 0 {
        lemma_digits_of((-n) as nat);
        assert forall|i: int| 0 <= i < s.len() implies #[trigger] s[i] < 128 && s[i] != 13 by {
            if i > 0 {
                assert(s[i] == digits_of((-n) as nat)[i - 1]);
            }
        }
    } else {
        lemma_digits_of(n as nat);
    }
    lemma_ascii_valid_utf8(s);
}

proof fn lemma_first_crlf_from(b: Seq<u8>, from: int, p: int)
    requires
        0 <= from <= p,
        crlf_at(b, p),
        forall|j: int| from <= j < p ==> !#[trigger] crlf_at(b, j),
    ensures
        first_crlf(b, from) == Some(p),
    decreases p - from,
{
    if from < p {
        lemma_first_crlf_from(b, from + 1, p);
    }
}

/// In a line `tag`, `line`, CR LF, `more`, the first terminator is the one
/// after `line`.
proof fn lemma_first_crlf_line(tag: u8, line: Seq<u8>, more: Seq<u8>)
    requires
        tag != 13,
        no_crlf(line),
    ensures
        first_crlf(seq![tag] + line + crlf() + more, 0) == Some(1 + line.len() as int),
        (seq![tag] + line + crlf() + more).subrange(1, 1 + line.len() as int) == line,
        (seq![tag] + line + crlf() + more).subrange(3 + line.len() as int, (seq![tag] + line + crlf() + more).len() as int) == more,
{
    let b = seq![tag] + line + crlf() + more;
    let p = 1 + line.len() as int;
    assert(crlf_at(b, p));
    assert forall|j: int| 0 <= j < p implies !#[trigger] crlf_at(b, j) by {
        if j >= 1 && j < line.len() {
            assert(b[j] == line[j - 1] && b[j + 1] == line[j]);
        }
    }
    lemma_first_crlf_from(b, 0, p);
    assert(b.subrange(1, p) =~= line);
    assert(b.subrange(p + 2, b.len() as int) =~= more);
}

proof fn lemma_minus_one()
    ensures
        i64_value(seq![45u8, 49u8]) == Some(-1i64),
        valid_utf8(seq![45u8, 49u8]),
        no_crlf(seq![45u8, 49u8]),
{
    let s = seq![45u8, 49u8];
    assert(s.drop_first() =~= seq![49u8]);
    assert(seq![49u8].drop_last() =~= Seq::<u8>::empty());
    assert(seq![49u8].last() == 49u8);
    assert(digits_value(seq![49u8]) == 10 * digits_value(Seq::<u8>::empty()) + 1);
    assert(all_digits(seq![49u8]));
    assert(numeral(s) == Some((true, 1nat)));
    lemma_ascii_valid_utf8(s);
}

/// The frames of `a` encoded front to back.
proof fn lemma_encode_frames_front(a: Seq<Frame>)
    requires
        a.len() > 0,
    ensures
        encode_frames(a) == encode_frame(a[0]) + encode_frames(a.drop_first()),
    decreases a.len(),
{
    if a.len() > 1 {
        lemma_encode_frames_front(a.drop_last());
        assert(a.drop_last().drop_first() =~= a.drop_first().drop_last());
        assert(encode_frames(a.drop_first()) == encode_frames(a.drop_first().drop_last()) + encode_frame(
            a.drop_first().last(),
        ));
        assert(encode_frames(a) =~= encode_frame(a[0]) + encode_frames(a.drop_first()));
    } else {
        assert(a.drop_last() =~= Seq::<Frame>::empty());
        assert(a.drop_first() =~= Seq::<Frame>::empty());
        assert(encode_frames(a) =~= encode_frame(a[0]) + encode_frames(a.drop_first()));
    }
}

proof fn lemma_all_well_formed_front(a: Seq<Frame>)
    requires
        a.len() > 0,
        all_well_formed(a),
    ensures
        well_formed(a[0]),
        all_well_formed(a.drop_first()),
    decreases a.len(),
{
    if a.len() > 1 {
        lemma_all_well_formed_front(a.drop_last());
        assert(a.drop_last().drop_first() =~= a.drop_first().drop_last());
    } else {
        assert(a.drop_first() =~= Seq::<Frame>::empty());
    }
}

proof fn lemma_parse_text(f: Frame, more: Seq<u8>)
    requires
        well_formed(f),
        f is Simple || f is Error,
    ensures
        parse_frame(encode_frame(f) + more) == Ok::<(Frame, int), Seq<char>>(
            (f, encode_frame(f).len() as int),
        ),
{
    let b = encode_frame(f) + more;
    let (tag, s) = match f {
        Frame::Simple(s) => (43u8, s),
        Frame::Error(s) => (45u8, s),
        _ => (0u8, Seq::empty()),
    };
    let line = encode_utf8(s);
    lemma_first_crlf_line(tag, line, more);
    assert(b =~= seq![tag] + line + crlf() + more);
    encode_utf8_valid_utf8(s);
    encode_utf8_decode_utf8(s);
}

proof fn lemma_parse_integer(i: i64, more: Seq<u8>)
    ensures
        parse_frame(encode_frame(Frame::Integer(i)) + more) == Ok::<(Frame, int), Seq<char>>(
            (Frame::Integer(i), encode_frame(Frame::Integer(i)).len() as int),
        ),
{
    let b = encode_frame(Frame::Integer(i)) + more;
    let line = decimal(i as int);
    lemma_decimal_plain(i as int);
    lemma_first_crlf_line(58u8, line, more);
    assert(b =~= seq![58u8] + line + crlf() + more);
    lemma_i64_value_decimal(i);
}

proof fn lemma_parse_null(more: Seq<u8>)
    ensures
        parse_frame(encode_frame(Frame::Bulk(None)) + more) == Ok::<(Frame, int), Seq<char>>(
            (Frame::Bulk(None), 5),
        ),
{
    let b = encode_frame(Frame::Bulk(None)) + more;
    let line = seq![45u8, 49u8];
    lemma_minus_one();
    lemma_first_crlf_line(36u8, line, more);
    assert(b =~= seq![36u8] + line + crlf() + more);
}

proof fn lemma_parse_bulk(data: Seq<u8>, more: Seq<u8>)
    requires
        valid_utf8(data),
        data.len() <= i64::MAX,
    ensures
        parse_frame(encode_frame(Frame::Bulk(Some(data))) + more) == Ok::<(Frame, int), Seq<char>>(
            (Frame::Bulk(Some(data)), encode_frame(Frame::Bulk(Some(data))).len() as int),
        ),
{
    let b = encode_frame(Frame::Bulk(Some(data))) + more;
    let line = decimal(data.len() as int);
    lemma_decimal_plain(data.len() as int);
    let tail = data + crlf() + more;
    lemma_first_crlf_line(36u8, line, tail);
    assert(b =~= seq![36u8] + line + crlf() + tail);
    lemma_unsigned_value_decimal(data.len());
    let next = 3 + line.len() as int;
    let end = next + data.len() as int;
    assert(b.subrange(next, end) =~= data);
    assert(crlf_at(b, end));
}

/// A well-formed frame decodes from the front of its own wire form, whatever
/// follows it.
pub proof fn lemma_parse_encoded(f: Frame, more: Seq<u8>)
    requires
        well_formed(f),
    ensures
        parse_frame(encode_frame(f) + more) == Ok::<(Frame, int), Seq<char>>(
            (f, encode_frame(f).len() as int),
        ),
    decreases f, 0int,
{
    match f {
        Frame::Simple(_) => lemma_parse_text(f, more),
        Frame::Error(_) => lemma_parse_text(f, more),
        Frame::Integer(i) => lemma_parse_integer(i, more),
        Frame::Bulk(None) => lemma_parse_null(more),
        Frame::Bulk(Some(data)) => lemma_parse_bulk(data, more),
        Frame::Array(a) => {
            let b = encode_frame(f) + more;
            let line = decimal(a.len() as int);
            lemma_decimal_plain(a.len() as int);
            let tail = encode_frames(a) + more;
            lemma_first_crlf_line(42u8, line, tail);
            assert(b =~= seq![42u8] + line + crlf() + tail);
            lemma_unsigned_value_decimal(a.len());
            lemma_parse_encoded_all(a, more);
        },
    }
}

/// Well-formed frames decode one after the other from the front of their
/// wire form, whatever follows them.
pub proof fn lemma_parse_encoded_all(a: Seq<Frame>, more: Seq<u8>)
    requires
        all_well_formed(a),
    ensures
        parse_frames(encode_frames(a) + more, a.len()) == Ok::<(Seq<Frame>, int), Seq<char>>(
            (a, encode_frames(a).len() as int),
        ),
    decreases a, 1int,
{
    if a.len() == 0 {
        assert(a =~= Seq::<Frame>::empty());
    } else {
        lemma_encode_frames_front(a);
        lemma_all_well_formed_front(a);
        let first = encode_frame(a[0]);
        let rest = a.drop_first();
        let b = encode_frames(a) + more;
        assert(b =~= first + (encode_frames(rest) + more));
        lemma_parse_encoded(a[0], encode_frames(rest) + more);
        lemma_parse_encoded_all(rest, more);
        assert(b.subrange(first.len() as int, b.len() as int) =~= encode_frames(rest) + more);
        assert(seq![a[0]] + rest =~= a);
        lemma_encode_len_positive(a[0]);
    }
}

proof fn lemma_encode_len_positive(f: Frame)
    ensures
        encode_frame(f).len() > 0,
{
}

/// Decoding the wire form of a well-formed frame gives that frame back, with
/// no bytes left over.
pub proof fn lemma_round_trip(f: Frame)
    requires
        well_formed(f),
    ensures
        parse_frame(encode_frame(f)) == Ok::<(Frame, int), Seq<char>>(
            (f, encode_frame(f).len() as int),
        ),
        decode_spec(encode_frame(f)) == Ok::<Frame, Seq<char>>(f),
{
    lemma_parse_encoded(f, Seq::empty());
    assert(encode_frame(f) + Seq::<u8>::empty() =~= encode_frame(f));
}

} // verus!
