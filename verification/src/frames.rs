//! Newline-delimited frames, gathered from chunks under a size limit.

use crate::scan;
use crate::scan::{parse_number, trim};
use crate::text::{decimal, join3};
use vstd::prelude::*;

verus! {

/// Ceiling on the length of one frame.
pub const DEFAULT_MAX_FRAME_BYTES: usize = 1_048_576;

/// Ceiling on the length of one response frame.
pub const DEFAULT_MAX_RESPONSE_FRAME_BYTES: usize = 1_048_576;

/// Frames that a connection handles before it yields.
pub const DEFAULT_FRAME_YIELD_EVERY: usize = 1_024;

/// What came of one chunk.
#[derive(Debug, Clone, Copy, PartialEq, Eq, Structural)]
pub enum FrameStep {
    /// No line end yet: the whole chunk belongs to the frame.
    Incomplete,
    /// The frame is complete, its newline at the end.
    Complete,
    /// The frame would outgrow the limit.
    Oversized,
}

/// The bytes of `chunk` through its first newline, or all of them.
pub open spec fn span(chunk: Seq<u8>) -> nat
    decreases chunk.len(),
{
    if chunk.len() == 0 {
        0
    } else if chunk[0] == 10 {
        1
    } else {
        1 + span(chunk.drop_first())
    }
}

/// Whether `chunk` holds a newline.
pub open spec fn ends_line(chunk: Seq<u8>) -> bool {
    exists|i: int| 0 <= i < chunk.len() && #[trigger] chunk[i] == 10
}

/// What a chunk does to a frame of which `buf` is there already.
pub open spec fn fed(buf: Seq<u8>, chunk: Seq<u8>, max_bytes: nat) -> (Seq<u8>, FrameStep) {
    if buf.len() + span(chunk) > max_bytes {
        (buf, FrameStep::Oversized)
    } else if ends_line(chunk) {
        (buf + chunk.take(span(chunk) as int), FrameStep::Complete)
    } else {
        (buf + chunk, FrameStep::Incomplete)
    }
}

/// The first newline ends the span.
proof fn lemma_span(chunk: Seq<u8>, i: int)
    requires
        0 <= i < chunk.len(),
        chunk[i] == 10,
        forall|j: int| 0 <= j < i ==> #[trigger] chunk[j] != 10,
    ensures
        span(chunk) == i + 1,
    decreases i,
{
    if i > 0 {
        assert(chunk[0] != 10);
        assert(chunk.drop_first()[i - 1] == chunk[i]);
        assert forall|j: int| 0 <= j < i - 1 implies #[trigger] chunk.drop_first()[j] != 10 by {
            assert(chunk[j + 1] != 10);
        }
        lemma_span(chunk.drop_first(), i - 1);
    }
}

/// Without a newline the span is everything.
proof fn lemma_span_all(chunk: Seq<u8>)
    requires
        !ends_line(chunk),
    ensures
        span(chunk) == chunk.len(),
    decreases chunk.len(),
{
    if chunk.len() > 0 {
        assert(chunk[0] != 10);
        assert(!ends_line(chunk.drop_first())) by {
            if ends_line(chunk.drop_first()) {
                let i = choose|i: int|
                    0 <= i < chunk.drop_first().len() && #[trigger] chunk.drop_first()[i] == 10;
                assert(chunk[i + 1] == 10);
            }
        }
        lemma_span_all(chunk.drop_first());
    }
}

/// Spans of a concatenation whose first part holds no newline.
proof fn lemma_span_append(head: Seq<u8>, tail: Seq<u8>)
    requires
        !ends_line(head),
    ensures
        span(head + tail) == head.len() + span(tail),
    decreases head.len(),
{
    if head.len() == 0 {
        assert(head + tail =~= tail);
    } else {
        assert(head[0] != 10);
        assert((head + tail).drop_first() =~= head.drop_first() + tail);
        assert(!ends_line(head.drop_first())) by {
            if ends_line(head.drop_first()) {
                let i = choose|i: int|
                    0 <= i < head.drop_first().len() && #[trigger] head.drop_first()[i] == 10;
                assert(head[i + 1] == 10);
            }
        }
        lemma_span_append(head.drop_first(), tail);
    }
}

/// How a stream is cut into chunks does not matter: a chunk without a newline
/// followed by another gives what the two give as one.
pub proof fn cutting_changes_nothing(buf: Seq<u8>, head: Seq<u8>, tail: Seq<u8>, max_bytes: nat)
    requires
        !ends_line(head),
    ensures
        fed(buf, head, max_bytes).1 == FrameStep::Oversized ==> fed(
            buf,
            head + tail,
            max_bytes,
        ).1 == FrameStep::Oversized,
        fed(buf, head, max_bytes).1 != FrameStep::Oversized ==> {
            let whole = fed(buf, head + tail, max_bytes);
            let rest = fed(fed(buf, head, max_bytes).0, tail, max_bytes);
            &&& rest.1 == whole.1
            &&& whole.1 != FrameStep::Oversized ==> rest.0 == whole.0
        },
{
    lemma_span_all(head);
    lemma_span_append(head, tail);
    assert(ends_line(head + tail) == ends_line(tail)) by {
        if ends_line(tail) {
            let i = choose|i: int| 0 <= i < tail.len() && #[trigger] tail[i] == 10;
            assert((head + tail)[head.len() + i] == 10);
        }
        if ends_line(head + tail) {
            let i = choose|i: int| 0 <= i < (head + tail).len() && #[trigger] (head + tail)[i] == 10;
            if i < head.len() {
                assert(head[i] == 10);
            } else {
                assert(tail[i - head.len()] == 10);
            }
        }
    }
    lemma_span_within(tail);
    assert(buf + (head + tail).take((head.len() + span(tail)) as int) =~= buf + head + tail.take(
        span(tail) as int,
    ));
    assert(buf + (head + tail) =~= buf + head + tail);
}

/// A span lies within its chunk.
proof fn lemma_span_within(chunk: Seq<u8>)
    ensures
        span(chunk) <= chunk.len(),
    decreases chunk.len(),
{
    if chunk.len() > 0 && chunk[0] != 10 {
        lemma_span_within(chunk.drop_first());
    }
}

/// A frame never outgrows the limit that it was gathered under.
pub proof fn frames_stay_bounded(buf: Seq<u8>, chunk: Seq<u8>, max_bytes: nat)
    requires
        buf.len() <= max_bytes,
    ensures
        fed(buf, chunk, max_bytes).0.len() <= max_bytes,
{
    lemma_span_within(chunk);
    if !ends_line(chunk) {
        lemma_span_all(chunk);
    }
}

/// Adds a chunk to the frame that `buf` gathers. The first number returned is
/// how many bytes of the chunk are used up.
pub fn feed(buf: &mut Vec<u8>, chunk: &[u8], max_bytes: usize) -> (r: (usize, FrameStep))
    ensures
        r.0 == span(chunk@),
        (final(buf)@, r.1) == fed(old(buf)@, chunk@, max_bytes as nat),
{
    let mut i: usize = 0;
    while i < chunk.len() && chunk[i] != 10
        invariant
            i <= chunk@.len(),
            forall|j: int| 0 <= j < i ==> #[trigger] chunk@[j] != 10,
        decreases chunk@.len() - i,
    {
        i = i + 1;
    }
    let found: bool = i < chunk.len();
    let take: usize = if found {
        i + 1
    } else {
        i
    };
    proof {
        if found {
            assert(chunk@[i as int] == 10);
            lemma_span(chunk@, i as int);
        } else {
            assert(!ends_line(chunk@));
            lemma_span_all(chunk@);
            assert(chunk@.take(take as int) =~= chunk@);
        }
    }
    if buf.len() > max_bytes || take > max_bytes - buf.len() {
        return (take, FrameStep::Oversized);
    }
    let ghost before = buf@;
    let mut k: usize = 0;
    while k < take
        invariant
            k <= take <= chunk@.len(),
            buf@ =~= before + chunk@.take(k as int),
        decreases take - k,
    {
        buf.push(chunk[k]);
        k = k + 1;
    }
    if found {
        (take, FrameStep::Complete)
    } else {
        (take, FrameStep::Incomplete)
    }
}

/// Whether the end of the stream ends a frame: a final record needs no newline.
pub fn ends_frame(buf: &Vec<u8>) -> (r: bool)
    ensures
        r == (buf@.len() > 0),
{
    buf.len() > 0
}

/// Whether `b` is a carriage return or a newline.
pub open spec fn line_byte(b: u8) -> bool {
    b == 10 || b == 13
}

/// `frame` without the line bytes at its end.
pub open spec fn payload(frame: Seq<u8>) -> Seq<u8>
    decreases frame.len(),
{
    if frame.len() > 0 && line_byte(frame.last()) {
        payload(frame.drop_last())
    } else {
        frame
    }
}

/// A payload ends in no line byte, and a frame is its payload and line bytes.
pub proof fn payload_ends_in_no_line_byte(frame: Seq<u8>)
    ensures
        payload(frame).len() > 0 ==> !line_byte(payload(frame).last()),
        payload(frame).len() <= frame.len(),
        payload(frame) == frame.take(payload(frame).len() as int),
        forall|i: int| payload(frame).len() <= i < frame.len() ==> line_byte(#[trigger] frame[i]),
    decreases frame.len(),
{
    if frame.len() > 0 && line_byte(frame.last()) {
        payload_ends_in_no_line_byte(frame.drop_last());
        let n = payload(frame).len() as int;
        assert(frame.drop_last().take(n) =~= frame.take(n));
        assert forall|i: int| n <= i < frame.len() implies line_byte(#[trigger] frame[i]) by {
            if i < frame.len() - 1 {
                assert(frame.drop_last()[i] == frame[i]);
            }
        }
    } else {
        assert(frame.take(frame.len() as int) =~= frame);
    }
}

/// `buf` without the line bytes at its end.
pub fn trim_response_frame(buf: &[u8]) -> (r: &[u8])
    ensures
        r@ == payload(buf@),
{
    let mut end: usize = buf.len();
    assert(buf@.take(end as int) =~= buf@);
    while end > 0 && (buf[end - 1] == 10 || buf[end - 1] == 13)
        invariant
            end <= buf@.len(),
            payload(buf@) == payload(buf@.take(end as int)),
        decreases end,
    {
        assert(buf@.take(end as int).drop_last() =~= buf@.take(end - 1));
        end = end - 1;
    }
    assert(buf@.subrange(0, end as int) =~= buf@.take(end as int));
    vstd::slice::slice_subrange(buf, 0, end)
}

/// The positive number that a setting gives, or a default.
pub open spec fn limit(setting: Option<Seq<char>>, default: nat) -> nat {
    match setting {
        Some(s) => match scan::number(scan::trimmed(s), usize::MAX as nat) {
            Some(n) => if n > 0 {
                n
            } else {
                default
            },
            None => default,
        },
        None => default,
    }
}

/// The positive number that a setting gives, or a default.
pub fn limit_from(setting: Option<&str>, default: usize) -> (r: usize)
    ensures
        r == limit(scan::shown_str(setting), default as nat),
{
    match setting {
        Some(s) => match parse_number(trim(s), usize::MAX as u64) {
            Some(n) => if n > 0 {
                n as usize
            } else {
                default
            },
            None => default,
        },
        None => default,
    }
}

/// The frame limit of a server, from the setting `LMX_MAX_FRAME_BYTES`.
pub fn max_frame_bytes(setting: Option<&str>) -> (r: usize)
    ensures
        r == limit(scan::shown_str(setting), DEFAULT_MAX_FRAME_BYTES as nat),
{
    limit_from(setting, DEFAULT_MAX_FRAME_BYTES)
}

/// The frames between two yields, from the setting `LMX_FRAME_YIELD_EVERY`.
pub fn frame_yield_every(setting: Option<&str>) -> (r: usize)
    ensures
        r == limit(scan::shown_str(setting), DEFAULT_FRAME_YIELD_EVERY as nat),
        r > 0,
{
    limit_from(setting, DEFAULT_FRAME_YIELD_EVERY)
}

/// The frame limit of a client, from the setting
/// `LMX_MAX_RESPONSE_FRAME_BYTES`, where it is absent from
/// `LMX_MAX_FRAME_BYTES`.
pub fn max_response_frame_bytes(response: Option<&str>, frame: Option<&str>) -> (r: usize)
    ensures
        r == limit(
            if response is Some {
                scan::shown_str(response)
            } else {
                scan::shown_str(frame)
            },
            DEFAULT_MAX_RESPONSE_FRAME_BYTES as nat,
        ),
{
    match response {
        Some(_) => limit_from(response, DEFAULT_MAX_RESPONSE_FRAME_BYTES),
        None => limit_from(frame, DEFAULT_MAX_RESPONSE_FRAME_BYTES),
    }
}

/// What is told of a frame that outgrows the limit.
pub fn oversized_message(max_bytes: usize) -> (r: String)
    ensures
        r@ == "frame exceeds "@ + crate::text::decimal_text(max_bytes as nat) + " bytes"@,
{
    join3("frame exceeds ", decimal(max_bytes as u64).as_str(), " bytes")
}

/// What is told of a response frame that outgrows the limit.
pub fn oversized_response_message(max_bytes: usize) -> (r: String)
    ensures
        r@ == "response frame exceeds "@ + crate::text::decimal_text(max_bytes as nat) + " bytes"@,
{
    join3("response frame exceeds ", decimal(max_bytes as u64).as_str(), " bytes")
}

/// A frame ends with the first newline of what comes, and takes nothing after it.
/// Without a newline all of it belongs to the frame. It is refused exactly if it would
/// outgrow the limit, and what was gathered stays.
pub proof fn a_frame_ends_at_its_first_newline(
    buf: Seq<u8>,
    chunk: Seq<u8>,
    max_bytes: nat,
    n: int,
)
    requires
        0 <= n <= chunk.len(),
        forall|i: int| 0 <= i < n ==> #[trigger] chunk[i] != 10,
        n < chunk.len() ==> chunk[n] == 10,
    ensures
        ({
            let used = if n < chunk.len() {
                n + 1
            } else {
                n
            };
            let r = fed(buf, chunk, max_bytes);
            &&& span(chunk) == used
            &&& r.1 == FrameStep::Oversized <==> buf.len() + used > max_bytes
            &&& r.1 == FrameStep::Oversized ==> r.0 == buf
            &&& r.1 != FrameStep::Oversized ==> r.0 == buf + chunk.take(used)
            &&& r.1 != FrameStep::Oversized ==> (r.1 == FrameStep::Complete <==> n < chunk.len())
        }),
{
    if n < chunk.len() {
        lemma_span(chunk, n);
    } else {
        assert(!ends_line(chunk));
        lemma_span_all(chunk);
        assert(chunk.take(n) =~= chunk);
    }
}

/// Line ends do not belong to what a frame says: with a newline behind it, alone or
/// after a carriage return, a text that ends in neither is the payload.
pub proof fn line_ends_do_not_count(text: Seq<u8>)
    requires
        text.len() > 0 ==> text.last() != 10 && text.last() != 13,
    ensures
        payload(text) == text,
        payload(text.push(10)) == text,
        payload(text.push(13).push(10)) == text,
{
    assert(payload(text) == text);
    assert(text.push(10).drop_last() =~= text);
    assert(text.push(13).push(10).drop_last() =~= text.push(13));
    assert(text.push(13).drop_last() =~= text);
    assert(payload(text.push(13)) == text);
}

/// A limit is the number that is set, without the blanks around it, if it is a positive
/// number; else the default.
pub proof fn limits_are_positive_numbers(setting: Option<Seq<char>>, default: nat)
    ensures
        setting is None ==> limit(setting, default) == default,
        setting matches Some(s) ==> {
            let n = scan::number(scan::trimmed(s), usize::MAX as nat);
            limit(setting, default) == if n is Some && n->0 > 0 {
                n->0
            } else {
                default
            }
        },
{
}

} // verus!
