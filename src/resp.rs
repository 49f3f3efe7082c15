use crate::decimal::{decimal, i64_value, parse_i64, parse_usize, push_decimal, unsigned_value};
use vstd::prelude::*;
use vstd::slice::{slice_subrange, slice_to_vec};
use vstd::utf8::*;

verus! {

/// One unit of the wire protocol.
#[derive(Debug, PartialEq)]
pub enum RespMessage {
    /// A short status line, `+<text>\r\n`.
    SimpleString(String),
    /// An error line, `-<text>\r\n`.
    Error(String),
    /// A signed integer, `:<n>\r\n`.
    Integer(i64),
    /// Length-prefixed bytes, `$<len>\r\n<bytes>\r\n`, or the absent marker `$-1\r\n`.
    BulkString(Option<Vec<u8>>),
    /// A counted list of nested messages, `*<count>\r\n...`.
    Array(Vec<RespMessage>),
}

/// The mathematical value of a message.
pub enum Frame {
    Simple(Seq<char>),
    Error(Seq<char>),
    Integer(i64),
    Bulk(Option<Seq<u8>>),
    Array(Seq<Frame>),
}

pub open spec fn frame_of(m: RespMessage) -> Frame
    decreases m,
{
    match m {
        RespMessage::SimpleString(s) => Frame::Simple(s@),
        RespMessage::Error(s) => Frame::Error(s@),
        RespMessage::Integer(i) => Frame::Integer(i),
        RespMessage::BulkString(None) => Frame::Bulk(None),
        RespMessage::BulkString(Some(b)) => Frame::Bulk(Some(b@)),
        RespMessage::Array(a) => Frame::Array(frames_of(a@)),
    }
}

pub open spec fn frames_of(s: Seq<RespMessage>) -> Seq<Frame>
    decreases s,
{
    if s.len() == 0 {
        Seq::empty()
    } else {
        frames_of(s.drop_last()).push(frame_of(s.last()))
    }
}

impl View for RespMessage {
    type V = Frame;

    open spec fn view(&self) -> Frame {
        frame_of(*self)
    }
}

pub open spec fn crlf() -> Seq<u8> {
    seq![13u8, 10u8]
}

/// The bytes that stand for a frame on the wire.
pub open spec fn encode_frame(f: Frame) -> Seq<u8>
    decreases f,
{
    match f {
        Frame::Simple(s) => seq![43u8] + encode_utf8(s) + crlf(),
        Frame::Error(s) => seq![45u8] + encode_utf8(s) + crlf(),
        Frame::Integer(i) => seq![58u8] + decimal(i as int) + crlf(),
        Frame::Bulk(None) => seq![36u8, 45u8, 49u8] + crlf(),
        Frame::Bulk(Some(b)) => seq![36u8] + decimal(b.len() as int) + crlf() + b + crlf(),
        Frame::Array(a) => seq![42u8] + decimal(a.len() as int) + crlf() + encode_frames(a),
    }
}

/// The frames of `a`, encoded one after the other.
pub open spec fn encode_frames(a: Seq<Frame>) -> Seq<u8>
    decreases a,
{
    if a.len() == 0 {
        Seq::empty()
    } else {
        encode_frames(a.drop_last()) + encode_frame(a.last())
    }
}

pub open spec fn crlf_at(b: Seq<u8>, i: int) -> bool {
    0 <= i && i + 1 < b.len() && b[i] == 13 && b[i + 1] == 10
}

/// The first position at or after `from` where a line terminator starts.
pub open spec fn first_crlf(b: Seq<u8>, from: int) -> Option<int>
    decreases b.len() - from,
{
    if from < 0 || from + 1 >= b.len() {
        None
    } else if crlf_at(b, from) {
        Some(from)
    } else {
        first_crlf(b, from + 1)
    }
}

pub open spec fn missing_crlf(tag: u8) -> Seq<char> {
    if tag == 43 {
        "Missing CRLF for simple string"@
    } else if tag == 45 {
        "Missing CRLF for error message"@
    } else if tag == 58 {
        "Missing CRLF for integer"@
    } else if tag == 36 {
        "Missing CRLF in bulk string header"@
    } else {
        "Missing CRLF in array header"@
    }
}

pub open spec fn known_tag(tag: u8) -> bool {
    tag == 43 || tag == 45 || tag == 58 || tag == 36 || tag == 42
}

/// Decodes one frame from the front of `b`: the frame and how many bytes it
/// took, or the error text.
pub open spec fn parse_frame(b: Seq<u8>) -> Result<(Frame, int), Seq<char>>
    decreases b.len(), 0int, 0int,
    via parse_frame_decreases
{
    if b.len() == 0 {
        Err("Empty input"@)
    } else if !known_tag(b[0]) {
        Err("Invalid message type"@)
    } else {
        match first_crlf(b, 0) {
            None => Err(missing_crlf(b[0])),
            Some(pos) => {
                let line = b.subrange(1, pos);
                let next = pos + 2;
                if !valid_utf8(line) {
                    Err("Invalid UTF-8"@)
                } else if b[0] == 43 {
                    Ok((Frame::Simple(decode_utf8(line)), next))
                } else if b[0] == 45 {
                    Ok((Frame::Error(decode_utf8(line)), next))
                } else if b[0] == 58 {
                    match i64_value(line) {
                        Some(i) => Ok((Frame::Integer(i), next)),
                        None => Err("Invalid integer"@),
                    }
                } else if b[0] == 36 {
                    match i64_value(line) {
                        None => Err("Invalid bulk string length"@),
                        Some(n) => if n == -1 {
                            Ok((Frame::Bulk(None), next))
                        } else if n < 0 {
                            Err("Invalid bulk string length"@)
                        } else {
                            let end = next + n;
                            if !crlf_at(b, end) {
                                Err("Invalid bulk string data"@)
                            } else if !valid_utf8(b.subrange(next, end)) {
                                Err("Invalid UTF-8"@)
                            } else {
                                Ok((Frame::Bulk(Some(b.subrange(next, end))), end + 2))
                            }
                        },
                    }
                } else {
                    match unsigned_value(line) {
                        Some(n) => if n <= usize::MAX {
                            match parse_frames(b.subrange(next, b.len() as int), n) {
                                Ok((fs, k)) => Ok((Frame::Array(fs), next + k)),
                                Err(e) => Err(e),
                            }
                        } else {
                            Err("Invalid array length"@)
                        },
                        None => Err("Invalid array length"@),
                    }
                }
            },
        }
    }
}

#[via_fn]
proof fn parse_frame_decreases(b: Seq<u8>) {
    lemma_first_crlf_bounds(b, 0);
}

/// Decodes `n` frames one after the other from the front of `b`.
pub open spec fn parse_frames(b: Seq<u8>, n: nat) -> Result<(Seq<Frame>, int), Seq<char>>
    decreases b.len(), 1int, n,
{
    if n == 0 {
        Ok((Seq::empty(), 0))
    } else {
        match parse_frame(b) {
            Ok((f, k)) => if 0 < k <= b.len() {
                after(seq![f], k, parse_frames(b.subrange(k, b.len() as int), (n - 1) as nat))
            } else {
                Err("Invalid message type"@)
            },
            Err(e) => Err(e),
        }
    }
}

/// `r` with `fs` put before its frames and `k` added to its length.
pub open spec fn after(fs: Seq<Frame>, k: int, r: Result<(Seq<Frame>, int), Seq<char>>) -> Result<
    (Seq<Frame>, int),
    Seq<char>,
> {
    match r {
        Ok((gs, j)) => Ok((fs + gs, k + j)),
        Err(e) => Err(e),
    }
}

/// What decoding a whole buffer gives: one frame that uses every byte.
pub open spec fn decode_spec(b: Seq<u8>) -> Result<Frame, Seq<char>> {
    match parse_frame(b) {
        Ok((f, k)) => if k == b.len() {
            Ok(f)
        } else {
            Err("Trailing data"@)
        },
        Err(e) => Err(e),
    }
}

/// Relies on std::str::from_utf8: it accepts exactly the valid UTF-8 byte
/// sequences, and the text it returns is what those bytes encode.
#[verifier::external_body]
pub(crate) fn utf8_text(b: &[u8]) -> (r: Option<&str>)
    ensures
        r is Some <==> valid_utf8(b@),
        r matches Some(s) ==> s@ == decode_utf8(b@),
{
    std::str::from_utf8(b).ok()
}

/// Position of the first line terminator in `b`.
fn find_crlf(b: &[u8]) -> (r: Option<usize>)
    ensures
        match r {
            Some(p) => first_crlf(b@, 0) == Some(p as int),
            None => first_crlf(b@, 0) is None,
        },
{
    let mut i: usize = 0;
    while b.len() - i >= 2
        invariant
            i <= b@.len(),
            first_crlf(b@, 0) == first_crlf(b@, i as int),
        decreases b@.len() - i,
    {
        if b[i] == 13 && b[i + 1] == 10 {
            return Some(i);
        }
        i = i + 1;
    }
    None
}

fn missing_crlf_text(tag: u8) -> (r: String)
    ensures
        r@ == missing_crlf(tag),
{
    if tag == 43 {
        "Missing CRLF for simple string".to_string()
    } else if tag == 45 {
        "Missing CRLF for error message".to_string()
    } else if tag == 58 {
        "Missing CRLF for integer".to_string()
    } else if tag == 36 {
        "Missing CRLF in bulk string header".to_string()
    } else {
        "Missing CRLF in array header".to_string()
    }
}

/// Decodes one message from the front of `input` and hands back the bytes
/// that follow it.
pub fn parse_resp_recursive(input: &[u8]) -> (r: Result<(RespMessage, &[u8]), String>)
    ensures
        match r {
            Ok((m, rest)) => {
                &&& parse_frame(input@) == Ok::<(Frame, int), Seq<char>>(
                    (m@, input@.len() - rest@.len()),
                )
                &&& rest@.len() < input@.len()
                &&& rest@ == input@.subrange(input@.len() - rest@.len(), input@.len() as int)
            },
            Err(e) => parse_frame(input@) == Err::<(Frame, int), Seq<char>>(e@),
        },
    decreases input@.len(),
{
    if input.len() == 0 {
        return Err("Empty input".to_string());
    }
    let tag = input[0];
    if !(tag == 43 || tag == 45 || tag == 58 || tag == 36 || tag == 42) {
        return Err("Invalid message type".to_string());
    }
    let pos = match find_crlf(input) {
        Some(p) => p,
        None => {
            return Err(missing_crlf_text(tag));
        },
    };
    proof {
        lemma_first_crlf_bounds(input@, 0);
    }
    if pos < 1 {
        proof {
            assert(input@[0] != 13);
        }
        return Err("Invalid message type".to_string());
    }
    let line = slice_subrange(input, 1, pos);
    let next = pos + 2;
    let text = match utf8_text(line) {
        Some(t) => t,
        None => {
            return Err("Invalid UTF-8".to_string());
        },
    };
    let rest = slice_subrange(input, next, input.len());
    if tag == 43 {
        Ok((RespMessage::SimpleString(text.to_string()), rest))
    } else if tag == 45 {
        Ok((RespMessage::Error(text.to_string()), rest))
    } else if tag == 58 {
        match parse_i64(line) {
            Some(i) => Ok((RespMessage::Integer(i), rest)),
            None => Err("Invalid integer".to_string()),
        }
    } else if tag == 36 {
        let n = match parse_i64(line) {
            Some(n) => n,
            None => {
                return Err("Invalid bulk string length".to_string());
            },
        };
        if n == -1 {
            return Ok((RespMessage::BulkString(None), rest));
        }
        if n < 0 {
            return Err("Invalid bulk string length".to_string());
        }
        if n as u64 > (input.len() - next) as u64 {
            return Err("Invalid bulk string data".to_string());
        }
        let end: usize = next + n as usize;
        if !(input.len() - end >= 2 && input[end] == 13 && input[end + 1] == 10) {
            return Err("Invalid bulk string data".to_string());
        }
        let data = slice_subrange(input, next, end);
        if utf8_text(data).is_none() {
            return Err("Invalid UTF-8".to_string());
        }
        let after_data = slice_subrange(input, end + 2, input.len());
        Ok((RespMessage::BulkString(Some(slice_to_vec(data))), after_data))
    } else {
        let count = match parse_usize(line) {
            Some(c) => c,
            None => {
                return Err("Invalid array length".to_string());
            },
        };
        let ghost body = rest@;
        let mut remaining: &[u8] = rest;
        let mut elements: Vec<RespMessage> = Vec::new();
        let mut i: usize = 0;
        while i < count
            invariant
                i <= count,
                unsigned_value(line@) == Some(count as nat),
                valid_utf8(line@),
                input@.len() > 0,
                input@[0] == 42,
                first_crlf(input@, 0) == Some(pos as int),
                line@ == input@.subrange(1, pos as int),
                next == pos + 2,
                body == input@.subrange(next as int, input@.len() as int),
                remaining@.len() <= body.len(),
                remaining@ == body.subrange(body.len() - remaining@.len(), body.len() as int),
                next <= input@.len(),
                body.len() < input@.len(),
                parse_frames(body, count as nat) == after(
                    frames_of(elements@),
                    body.len() - remaining@.len(),
                    parse_frames(remaining@, (count - i) as nat),
                ),
            decreases count - i,
        {
            let ghost before = remaining@;
            match parse_resp_recursive(remaining) {
                Ok((m, tail)) => {
                    proof {
                        let k = before.len() - tail@.len();
                        assert(before.subrange(k, before.len() as int) == tail@);
                        assert(frames_of(elements@.push(m)) == frames_of(elements@).push(m@)) by {
                            assert(elements@.push(m).drop_last() =~= elements@);
                        }
                        assert(frames_of(elements@) + seq![m@] =~= frames_of(elements@).push(m@));
                        let r = parse_frames(tail@, (count - i - 1) as nat);
                        match r {
                            Ok((gs, j)) => {
                                assert(frames_of(elements@) + (seq![m@] + gs) =~= frames_of(
                                    elements@,
                                ).push(m@) + gs);
                            },
                            Err(e) => {},
                        }
                        assert(tail@ =~= body.subrange(body.len() - tail@.len(), body.len() as int));
                    }
                    elements.push(m);
                    remaining = tail;
                },
                Err(e) => {
                    proof {
                        assert(parse_frames(before, (count - i) as nat) == Err::<(Seq<Frame>, int), Seq<char>>(e@));
                        assert(parse_frames(body, count as nat) == Err::<(Seq<Frame>, int), Seq<char>>(e@));
                        assert(valid_utf8(line@));
                        assert(input@[0] == 42);
                        assert(unsigned_value(line@) == Some(count as nat));
                        assert(parse_frame(input@) == Err::<(Frame, int), Seq<char>>(e@));
                    }
                    return Err(e);
                },
            }
            i = i + 1;
        }
        proof {
            assert(after(frames_of(elements@), body.len() - remaining@.len(), parse_frames(remaining@, 0))
                == Ok::<(Seq<Frame>, int), Seq<char>>((frames_of(elements@), body.len() - remaining@.len()))) by {
                assert(frames_of(elements@) + Seq::<Frame>::empty() =~= frames_of(elements@));
            }
            assert(remaining@ =~= input@.subrange(input@.len() - remaining@.len(), input@.len() as int));
        }
        Ok((RespMessage::Array(elements), remaining))
    }
}

proof fn lemma_first_crlf_bounds(b: Seq<u8>, from: int)
    requires
        0 <= from,
    ensures
        first_crlf(b, from) matches Some(p) ==> from <= p && crlf_at(b, p),
    decreases b.len() - from,
{
    if from + 1 < b.len() && !crlf_at(b, from) {
        lemma_first_crlf_bounds(b, from + 1);
    }
}

/// Decodes a whole buffer into one message. Bytes left over after the message
/// are an error.
pub fn parse_resp(input: &[u8]) -> (r: Result<RespMessage, String>)
    ensures
        match r {
            Ok(m) => decode_spec(input@) == Ok::<Frame, Seq<char>>(m@),
            Err(e) => decode_spec(input@) == Err::<Frame, Seq<char>>(e@),
        },
{
    let (msg, remaining) = parse_resp_recursive(input)?;
    if remaining.len() != 0 {
        return Err("Trailing data".to_string());
    }
    Ok(msg)
}

pub proof fn lemma_frames_of_len(s: Seq<RespMessage>)
    ensures
        frames_of(s).len() == s.len(),
        forall|i: int| 0 <= i < s.len() ==> #[trigger] frames_of(s)[i] == s[i]@,
    decreases s.len(),
{
    if s.len() > 0 {
        lemma_frames_of_len(s.drop_last());
    }
}

fn append_bytes(out: &mut Vec<u8>, b: &[u8])
    ensures
        final(out)@ == old(out)@ + b@,
{
    let mut i: usize = 0;
    while i < b.len()
        invariant
            i <= b@.len(),
            out@ == old(out)@ + b@.subrange(0, i as int),
        decreases b@.len() - i,
    {
        out.push(b[i]);
        i = i + 1;
        assert(out@ =~= old(out)@ + b@.subrange(0, i as int));
    }
    assert(b@.subrange(0, i as int) =~= b@);
}

fn append_crlf(out: &mut Vec<u8>)
    ensures
        final(out)@ == old(out)@ + crlf(),
{
    out.push(13);
    out.push(10);
    assert(out@ =~= old(out)@ + crlf());
}

impl RespMessage {
    /// Appends the wire form of this message to `out`.
    pub fn write_to(&self, out: &mut Vec<u8>)
        ensures
            final(out)@ == old(out)@ + encode_frame(self@),
        decreases self,
    {
        let ghost start = out@;
        match self {
            RespMessage::SimpleString(s) => {
                out.push(43);
                append_bytes(out, s.as_str().as_bytes());
                append_crlf(out);
                assert(out@ =~= start + encode_frame(self@));
            },
            RespMessage::Error(s) => {
                out.push(45);
                append_bytes(out, s.as_str().as_bytes());
                append_crlf(out);
                assert(out@ =~= start + encode_frame(self@));
            },
            RespMessage::Integer(i) => {
                out.push(58);
                push_decimal(*i as i128, out);
                append_crlf(out);
                assert(out@ =~= start + encode_frame(self@));
            },
            RespMessage::BulkString(None) => {
                out.push(36);
                out.push(45);
                out.push(49);
                append_crlf(out);
                assert(out@ =~= start + (seq![36u8, 45u8, 49u8] + crlf()));
            },
            RespMessage::BulkString(Some(b)) => {
                out.push(36);
                push_decimal(b.len() as i128, out);
                append_crlf(out);
                append_bytes(out, b.as_slice());
                append_crlf(out);
                assert(out@ =~= start + encode_frame(self@));
            },
            RespMessage::Array(a) => {
                out.push(42);
                push_decimal(a.len() as i128, out);
                append_crlf(out);
                let ghost header = out@;
                let mut i: usize = 0;
                assert(decreases_to!(*self => *a));
                while i < a.len()
                    invariant
                        i <= a@.len(),
                        decreases_to!(*self => *a),
                        out@ == header + encode_frames(frames_of(a@.subrange(0, i as int))),
                    decreases a@.len() - i,
                {
                    let ghost before = out@;
                    proof {
                        vstd::std_specs::vec::axiom_vec_index_decreases(*a, i as int);
                    }
                    a[i].write_to(out);
                    proof {
                        let prev = a@.subrange(0, i as int);
                        let cur = a@.subrange(0, i + 1);
                        assert(cur.drop_last() =~= prev);
                        assert(frames_of(cur) == frames_of(prev).push(a@[i as int]@));
                        assert(frames_of(prev).push(a@[i as int]@).drop_last() =~= frames_of(prev));
                        assert(encode_frames(frames_of(cur)) == encode_frames(frames_of(prev))
                            + encode_frame(a@[i as int]@));
                        assert(out@ =~= header + encode_frames(frames_of(cur)));
                    }
                    i = i + 1;
                }
                assert(a@.subrange(0, i as int) =~= a@);
                proof {
                    lemma_frames_of_len(a@);
                }
                assert(out@ =~= start + encode_frame(self@));
            },
        }
        assert(out@ =~= start + encode_frame(self@));
    }

    /// The wire form of this message.
    pub fn encode(&self) -> (r: Vec<u8>)
        ensures
            r@ == encode_frame(self@),
    {
        let mut out: Vec<u8> = Vec::new();
        self.write_to(&mut out);
        assert(out@ =~= encode_frame(self@));
        out
    }
}

} // verus!
