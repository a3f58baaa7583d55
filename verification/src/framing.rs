//! MLLP (Minimal Lower Layer Protocol) framing: wrapping a payload in the
//! protocol's sentinel bytes before transmission, and stripping them from a
//! received buffer.

use crate::segments::lemma_bytes_deep_view;
use crate::segments::lemma_split_consumes_chunk;
use crate::segments::split_dropping_empty;
use crate::segments::split_dropping_empty_exec;
use crate::segments::split_dropping_empty_from;
use vstd::prelude::*;

verus! {

/// MLLP start-of-block sentinel, written once before the payload.
pub const START_BLOCK: u8 = 0x0B;

/// MLLP end-of-block sentinel, written after the payload.
pub const END_BLOCK: u8 = 0x1C;

/// MLLP end-of-data sentinel (carriage return), written last.
pub const END_DATA: u8 = 0x0D;

/// Line feed: with the carriage return, one of the two bytes that may end a
/// segment inside a message.
pub const LINE_FEED: u8 = 0x0A;

/// The bytes that `decode` treats as delimiters: the three MLLP sentinels
/// plus the line feed, so that segments separated by any line-ending
/// convention come apart.
pub open spec fn unframe_delims() -> Seq<u8> {
    seq![START_BLOCK, END_BLOCK, END_DATA, LINE_FEED]
}

/// The bytes that separate segments inside an unframed message: carriage
/// return, line feed, or both.
pub open spec fn line_delims() -> Seq<u8> {
    seq![END_DATA, LINE_FEED]
}

/// The segments of a received buffer: every sentinel or line-ending byte acts
/// as a delimiter, and empty segments are discarded.
pub open spec fn unframe_segments(s: Seq<u8>) -> Seq<Seq<u8>> {
    split_dropping_empty(unframe_delims(), s)
}

/// The non-empty segments of raw message text, split on line endings.
pub open spec fn message_lines(s: Seq<u8>) -> Seq<Seq<u8>> {
    split_dropping_empty(line_delims(), s)
}

/// The framed form of a payload: start sentinel, payload bytes unchanged,
/// end-of-block sentinel, end-of-data sentinel.
pub open spec fn frame_spec(p: Seq<u8>) -> Seq<u8> {
    seq![START_BLOCK] + p + seq![END_BLOCK, END_DATA]
}

/// Wrap `payload` in the MLLP envelope. No payload byte is altered.
pub fn encode(payload: &[u8]) -> (r: Vec<u8>)
    ensures
        r@ == frame_spec(payload@),
{
    let mut out: Vec<u8> = Vec::new();
    out.push(START_BLOCK);
    let mut i: usize = 0;
    while i < payload.len()
        invariant
            i <= payload@.len(),
            out@ == seq![START_BLOCK] + payload@.take(i as int),
        decreases payload@.len() - i,
    {
        out.push(payload[i]);
        assert(payload@.take(i + 1) == payload@.take(i as int).push(payload@[i as int]));
        i += 1;
    }
    out.push(END_BLOCK);
    out.push(END_DATA);
    assert(out@ =~= frame_spec(payload@));
    out
}

/// Strip the MLLP envelope from a received buffer and split what remains
/// into segments. Every occurrence of the three sentinel bytes is removed,
/// the rest is split on line endings, and empty segments are discarded,
/// order preserved. An empty buffer yields no segments.
pub fn decode(received: &[u8]) -> (r: Vec<Vec<u8>>)
    ensures
        r.deep_view() == unframe_segments(received@),
{
    let mut delims: Vec<u8> = Vec::new();
    delims.push(START_BLOCK);
    delims.push(END_BLOCK);
    delims.push(END_DATA);
    delims.push(LINE_FEED);
    assert(delims@ =~= unframe_delims());
    split_dropping_empty_exec(delims.as_slice(), received)
}

/// Split raw message text into its non-empty segments, one per line,
/// whichever line-ending convention the text uses.
pub fn split_message_lines(text: &[u8]) -> (r: Vec<Vec<u8>>)
    ensures
        r.deep_view() == message_lines(text@),
{
    let mut delims: Vec<u8> = Vec::new();
    delims.push(END_DATA);
    delims.push(LINE_FEED);
    assert(delims@ =~= line_delims());
    split_dropping_empty_exec(delims.as_slice(), text)
}

/// How the payload is laid out inside the MLLP envelope. The wire form is
/// the same either way for a payload whose segments already end in the
/// end-of-data byte; the per-segment form re-terminates every segment,
/// whatever line endings the text came with.
#[derive(Clone, Copy, PartialEq, Eq, Structural, Debug)]
pub enum TransmissionStrategy {
    /// Write each segment of the message in turn, each terminated by the
    /// end-of-data byte.
    PerSegment,
    /// Write the message text once, byte for byte.
    WholePayload,
}

/// Each segment followed by `sep`, concatenated in order.
pub open spec fn join_each_terminated(segs: Seq<Seq<u8>>, sep: Seq<u8>) -> Seq<u8>
    decreases segs.len(),
{
    if segs.len() == 0 {
        Seq::empty()
    } else {
        join_each_terminated(segs.drop_last(), sep) + segs.last() + sep
    }
}

/// The exact bytes put on the wire for `payload` under `strategy`.
pub open spec fn wire_form(payload: Seq<u8>, strategy: TransmissionStrategy) -> Seq<u8> {
    match strategy {
        TransmissionStrategy::WholePayload => frame_spec(payload),
        TransmissionStrategy::PerSegment => frame_spec(
            join_each_terminated(message_lines(payload), seq![END_DATA]),
        ),
    }
}

/// Produce the full framed buffer to transmit for `payload` under the chosen
/// strategy: one envelope, with the payload laid out as `wire_form` says.
pub fn encode_for_transmission(payload: &[u8], strategy: TransmissionStrategy) -> (r: Vec<u8>)
    ensures
        r@ == wire_form(payload@, strategy),
{
    match strategy {
        TransmissionStrategy::WholePayload => encode(payload),
        TransmissionStrategy::PerSegment => {
            let lines = split_message_lines(payload);
            let ghost lv = lines.deep_view();
            let mut body: Vec<u8> = Vec::new();
            let mut k: usize = 0;
            proof {
                assert(lv.take(0) =~= Seq::<Seq<u8>>::empty());
                assert(body@ =~= join_each_terminated(lv.take(0), seq![END_DATA]));
            }
            while k < lines.len()
                invariant
                    k <= lines@.len(),
                    lv == lines.deep_view(),
                    lv == message_lines(payload@),
                    body@ == join_each_terminated(lv.take(k as int), seq![END_DATA]),
                decreases lines@.len() - k,
            {
                let line = &lines[k];
                let ghost pre = body@;
                let mut j: usize = 0;
                while j < line.len()
                    invariant
                        j <= line@.len(),
                        body@ == pre + line@.take(j as int),
                    decreases line@.len() - j,
                {
                    body.push(line[j]);
                    proof {
                        assert(line@.take(j + 1) == line@.take(j as int).push(line@[j as int]));
                        assert(pre + line@.take(j + 1) =~= (pre + line@.take(j as int)).push(
                            line@[j as int],
                        ));
                    }
                    j += 1;
                }
                body.push(END_DATA);
                proof {
                    lemma_bytes_deep_view(lines@[k as int]);
                    assert(line@.take(line@.len() as int) =~= line@);
                    assert(lv.take(k + 1).drop_last() =~= lv.take(k as int));
                    assert(lv.take(k + 1).last() == lv[k as int]);
                    assert(body@ =~= join_each_terminated(lv.take(k as int), seq![END_DATA])
                        + lv[k as int] + seq![END_DATA]);
                }
                k += 1;
            }
            proof {
                assert(lv.take(lines@.len() as int) =~= lv);
            }
            encode(body.as_slice())
        },
    }
}

/// The segments joined into one buffer with `sep` between consecutive
/// segments: the payload form of a message whose segments are known.
pub open spec fn join_with(segs: Seq<Seq<u8>>, sep: Seq<u8>) -> Seq<u8>
    decreases segs.len(),
{
    if segs.len() == 0 {
        Seq::empty()
    } else if segs.len() == 1 {
        segs[0]
    } else {
        segs[0] + sep + join_with(segs.skip(1), sep)
    }
}

/// A segment that survives framing intact: non-empty, and free of the
/// sentinel and line-ending bytes that `decode` treats as delimiters.
pub open spec fn wire_safe_segment(seg: Seq<u8>) -> bool {
    &&& seg.len() > 0
    &&& forall|j: int| 0 <= j < seg.len() ==> !unframe_delims().contains(#[trigger] seg[j])
}

proof fn lemma_unframe_joined(segs: Seq<Seq<u8>>)
    requires
        segs.len() > 0,
        forall|k: int| 0 <= k < segs.len() ==> wire_safe_segment(#[trigger] segs[k]),
    ensures
        split_dropping_empty_from(
            unframe_delims(),
            join_with(segs, seq![END_DATA]) + seq![END_BLOCK, END_DATA],
            Seq::empty(),
        ) == segs,
    decreases segs.len(),
{
    let d = unframe_delims();
    let tail: Seq<u8> = seq![END_BLOCK, END_DATA];
    let c = segs[0];
    assert(wire_safe_segment(segs[0]));
    assert(c.len() > 0);
    if segs.len() == 1 {
        assert(join_with(segs, seq![END_DATA]) == c);
        lemma_split_consumes_chunk(d, c, tail, Seq::empty());
        assert(Seq::<u8>::empty() + c =~= c);
        let t2: Seq<u8> = seq![END_DATA];
        assert(d.contains(tail[0]));
        assert(tail.skip(1) =~= t2);
        assert(d.contains(t2[0]));
        assert(t2.skip(1) =~= Seq::<u8>::empty());
        assert(split_dropping_empty_from(d, Seq::<u8>::empty(), Seq::<u8>::empty())
            == Seq::<Seq<u8>>::empty());
        assert(split_dropping_empty_from(d, t2, Seq::<u8>::empty()) == Seq::<Seq<u8>>::empty());
        assert(split_dropping_empty_from(d, tail, c) == seq![c] + split_dropping_empty_from(
            d,
            t2,
            Seq::<u8>::empty(),
        ));
        assert(seq![c] + Seq::<Seq<u8>>::empty() =~= seq![c]);
        assert(seq![c] =~= segs);
    } else {
        let rest = segs.skip(1);
        let jrest = join_with(rest, seq![END_DATA]);
        let m = seq![END_DATA] + (jrest + tail);
        assert(join_with(segs, seq![END_DATA]) + tail =~= c + m);
        lemma_split_consumes_chunk(d, c, m, Seq::empty());
        assert(Seq::<u8>::empty() + c =~= c);
        assert(d.contains(m[0]));
        assert(m.skip(1) =~= jrest + tail);
        assert(split_dropping_empty_from(d, m, c) == seq![c] + split_dropping_empty_from(
            d,
            jrest + tail,
            Seq::<u8>::empty(),
        ));
        assert forall|k: int| 0 <= k < rest.len() implies wire_safe_segment(
            #[trigger] rest[k],
        ) by {
            assert(rest[k] == segs[k + 1]);
        }
        lemma_unframe_joined(rest);
        assert(seq![c] + rest =~= segs);
    }
}

/// Framing round trip: a payload made of wire-safe segments joined by the
/// end-of-data byte comes back out of `decode` as exactly those segments.
pub proof fn lemma_encode_decode_round_trip(segs: Seq<Seq<u8>>)
    requires
        segs.len() > 0,
        forall|k: int| 0 <= k < segs.len() ==> wire_safe_segment(#[trigger] segs[k]),
    ensures
        unframe_segments(frame_spec(join_with(segs, seq![END_DATA]))) == segs,
{
    let d = unframe_delims();
    let p = join_with(segs, seq![END_DATA]);
    let f = frame_spec(p);
    assert(d.contains(f[0]));
    assert(f.skip(1) =~= p + seq![END_BLOCK, END_DATA]);
    lemma_unframe_joined(segs);
}

/// Payload round trip: unframing the framed form of such a payload and
/// re-joining the segments on the same line ending reproduces the payload.
pub proof fn lemma_payload_round_trip(segs: Seq<Seq<u8>>)
    requires
        segs.len() > 0,
        forall|k: int| 0 <= k < segs.len() ==> wire_safe_segment(#[trigger] segs[k]),
    ensures
        join_with(unframe_segments(frame_spec(join_with(segs, seq![END_DATA]))), seq![END_DATA])
            == join_with(segs, seq![END_DATA]),
{
    lemma_encode_decode_round_trip(segs);
}

} // verus!
