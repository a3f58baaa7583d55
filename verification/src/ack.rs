//! The acknowledgment interpreter: turning the raw bytes a listener sends
//! back into a classification of its reply code.
//!
//! Validation is by content, not by position: the first segment that is a
//! header segment supplies the separator, and the first segment containing
//! the acknowledgment identifier is the one interpreted, whatever the
//! segment count.

use crate::errors::Hl7Error;
use crate::errors::SegmentKind;
use crate::framing::decode;
use crate::framing::unframe_segments;
use crate::header::identify_separator;
use crate::header::is_header_segment;
use crate::header::is_header_segment_spec;
use crate::segments::lemma_bytes_deep_view;
use crate::segments::split_keeping_empty;
use crate::segments::split_keeping_empty_exec;
use vstd::prelude::*;

verus! {

/// The classification of an acknowledgment reply code.
#[derive(Clone, Copy, PartialEq, Eq, Structural, Debug)]
pub enum AckResult {
    /// Code "AA": the message was received successfully.
    Accepted,
    /// Code "AE": the receiving application had a problem processing the
    /// message; the sender must correct it.
    ApplicationError,
    /// Code "AR": a problem with required header fields of the message.
    RejectedFormat,
    /// Any other code. Not an error: a valid outcome reported as such.
    Unrecognized,
}

/// The three-byte acknowledgment segment identifier, "MSA".
pub open spec fn msa_id() -> Seq<u8> {
    seq![0x4Du8, 0x53u8, 0x41u8]
}

/// The classification of a reply code: an exact lookup, no case folding.
pub open spec fn classify_spec(code: Seq<u8>) -> AckResult {
    if code == seq![0x41u8, 0x41u8] {
        AckResult::Accepted
    } else if code == seq![0x41u8, 0x45u8] {
        AckResult::ApplicationError
    } else if code == seq![0x41u8, 0x52u8] {
        AckResult::RejectedFormat
    } else {
        AckResult::Unrecognized
    }
}

/// Classify a reply code: "AA" accepted, "AE" application error, "AR"
/// rejected format; anything else, another length included, is
/// unrecognized.
pub fn classify_code(code: &[u8]) -> (r: AckResult)
    ensures
        r == classify_spec(code@),
{
    if code.len() == 2 {
        let a = code[0];
        let b = code[1];
        proof {
            assert(code@ =~= seq![code@[0], code@[1]]);
        }
        if a == 0x41 && b == 0x41 {
            proof {
                assert(code@ =~= seq![0x41u8, 0x41u8]);
            }
            AckResult::Accepted
        } else if a == 0x41 && b == 0x45 {
            proof {
                assert(code@ =~= seq![0x41u8, 0x45u8]);
            }
            AckResult::ApplicationError
        } else if a == 0x41 && b == 0x52 {
            proof {
                assert(code@ =~= seq![0x41u8, 0x52u8]);
            }
            AckResult::RejectedFormat
        } else {
            proof {
                if code@ == seq![0x41u8, 0x41u8] {
                    assert(code@[0] == 0x41u8 && code@[1] == 0x41u8);
                }
                if code@ == seq![0x41u8, 0x45u8] {
                    assert(code@[0] == 0x41u8 && code@[1] == 0x45u8);
                }
                if code@ == seq![0x41u8, 0x52u8] {
                    assert(code@[0] == 0x41u8 && code@[1] == 0x52u8);
                }
            }
            AckResult::Unrecognized
        }
    } else {
        proof {
            if code@ == seq![0x41u8, 0x41u8] {
                assert(code@.len() == 2);
            }
            if code@ == seq![0x41u8, 0x45u8] {
                assert(code@.len() == 2);
            }
            if code@ == seq![0x41u8, 0x52u8] {
                assert(code@.len() == 2);
            }
        }
        AckResult::Unrecognized
    }
}

/// Whether `needle` occurs in `hay` as a contiguous run of bytes.
pub open spec fn contains_sub(hay: Seq<u8>, needle: Seq<u8>) -> bool {
    exists|i: int|
        0 <= i && i + needle.len() <= hay.len() && #[trigger] hay.subrange(i, i + needle.len())
            == needle
}

/// Whether `needle` occurs at position `i` of `hay`.
fn match_at(hay: &[u8], needle: &[u8], i: usize) -> (r: bool)
    requires
        i + needle@.len() <= hay@.len(),
    ensures
        r == (hay@.subrange(i as int, i as int + needle@.len()) == needle@),
{
    let hlen = hay.len();
    let mut j: usize = 0;
    while j < needle.len()
        invariant
            hlen == hay@.len(),
            j <= needle@.len(),
            i + needle@.len() <= hay@.len(),
            forall|jj: int| 0 <= jj < j ==> hay@[i + jj] == #[trigger] needle@[jj],
        decreases needle@.len() - j,
    {
        if hay[i + j] != needle[j] {
            proof {
                assert(hay@.subrange(i as int, i as int + needle@.len())[j as int] == hay@[
                    i + j
                ]);
            }
            return false;
        }
        j += 1;
    }
    proof {
        assert(hay@.subrange(i as int, i as int + needle@.len()) =~= needle@);
    }
    true
}

/// Whether `needle` occurs anywhere in `hay`, case-sensitively.
pub fn contains_sub_exec(hay: &[u8], needle: &[u8]) -> (r: bool)
    ensures
        r == contains_sub(hay@, needle@),
{
    if needle.len() > hay.len() {
        return false;
    }
    if needle.len() == 0 {
        proof {
            assert(hay@.subrange(0, 0 + needle@.len() as int) =~= needle@);
            assert(contains_sub(hay@, needle@));
        }
        return true;
    }
    let mut i: usize = 0;
    while i <= hay.len() - needle.len()
        invariant
            1 <= needle@.len() <= hay@.len(),
            i <= hay@.len() - needle@.len() + 1,
            forall|ii: int|
                0 <= ii < i ==> #[trigger] hay@.subrange(ii, ii + needle@.len()) != needle@,
        decreases hay@.len() - needle@.len() - i + 1,
    {
        if match_at(hay, needle, i) {
            proof {
                assert(contains_sub(hay@, needle@));
            }
            return true;
        }
        i += 1;
    }
    proof {
        if contains_sub(hay@, needle@) {
            let w = choose|ii: int|
                0 <= ii && ii + needle@.len() <= hay@.len() && #[trigger] hay@.subrange(
                    ii,
                    ii + needle@.len(),
                ) == needle@;
            assert(hay@.subrange(w, w + needle@.len()) != needle@);
        }
    }
    false
}

/// The index of the first header segment, or the length if none is one.
pub open spec fn first_header_idx(segs: Seq<Seq<u8>>) -> int
    decreases segs.len(),
{
    if segs.len() == 0 {
        0
    } else if is_header_segment_spec(segs[0]) {
        0
    } else {
        1 + first_header_idx(segs.skip(1))
    }
}

/// The index of the first segment containing the acknowledgment identifier,
/// or the length if none does.
pub open spec fn first_ack_idx(segs: Seq<Seq<u8>>) -> int
    decreases segs.len(),
{
    if segs.len() == 0 {
        0
    } else if contains_sub(segs[0], msa_id()) {
        0
    } else {
        1 + first_ack_idx(segs.skip(1))
    }
}

proof fn lemma_first_header_idx(segs: Seq<Seq<u8>>, k: int)
    requires
        0 <= k <= segs.len(),
        forall|j: int| 0 <= j < k ==> !is_header_segment_spec(#[trigger] segs[j]),
        k == segs.len() || is_header_segment_spec(segs[k]),
    ensures
        first_header_idx(segs) == k,
    decreases segs.len(),
{
    if segs.len() == 0 {
    } else if is_header_segment_spec(segs[0]) {
        assert(k == 0);
    } else {
        assert(k >= 1);
        assert forall|j: int| 0 <= j < k - 1 implies !is_header_segment_spec(
            #[trigger] segs.skip(1)[j],
        ) by {
            assert(segs.skip(1)[j] == segs[j + 1]);
        }
        if k < segs.len() {
            assert(segs.skip(1)[k - 1] == segs[k]);
        }
        lemma_first_header_idx(segs.skip(1), k - 1);
    }
}

proof fn lemma_first_ack_idx(segs: Seq<Seq<u8>>, k: int)
    requires
        0 <= k <= segs.len(),
        forall|j: int| 0 <= j < k ==> !contains_sub(#[trigger] segs[j], msa_id()),
        k == segs.len() || contains_sub(segs[k], msa_id()),
    ensures
        first_ack_idx(segs) == k,
    decreases segs.len(),
{
    if segs.len() == 0 {
    } else if contains_sub(segs[0], msa_id()) {
        assert(k == 0);
    } else {
        assert(k >= 1);
        assert forall|j: int| 0 <= j < k - 1 implies !contains_sub(
            #[trigger] segs.skip(1)[j],
            msa_id(),
        ) by {
            assert(segs.skip(1)[j] == segs[j + 1]);
        }
        if k < segs.len() {
            assert(segs.skip(1)[k - 1] == segs[k]);
        }
        lemma_first_ack_idx(segs.skip(1), k - 1);
    }
}

/// The index of the first header segment of `segs`, or their number.
fn find_first_header(segs: &Vec<Vec<u8>>) -> (r: usize)
    ensures
        r <= segs@.len(),
        r as int == first_header_idx(segs.deep_view()),
{
    let mut k: usize = 0;
    while k < segs.len()
        invariant
            k <= segs@.len(),
            forall|j: int|
                0 <= j < k ==> !is_header_segment_spec(#[trigger] segs.deep_view()[j]),
        decreases segs@.len() - k,
    {
        let found = is_header_segment(segs[k].as_slice());
        proof {
            lemma_bytes_deep_view(segs@[k as int]);
        }
        if found {
            proof {
                lemma_first_header_idx(segs.deep_view(), k as int);
            }
            return k;
        }
        k += 1;
    }
    proof {
        lemma_first_header_idx(segs.deep_view(), k as int);
    }
    k
}

/// The index of the first segment of `segs` containing "MSA", or their
/// number.
fn find_first_ack(segs: &Vec<Vec<u8>>) -> (r: usize)
    ensures
        r <= segs@.len(),
        r as int == first_ack_idx(segs.deep_view()),
{
    let mut pat: Vec<u8> = Vec::new();
    pat.push(0x4D);
    pat.push(0x53);
    pat.push(0x41);
    proof {
        assert(pat@ =~= msa_id());
    }
    let mut k: usize = 0;
    while k < segs.len()
        invariant
            pat@ == msa_id(),
            k <= segs@.len(),
            forall|j: int|
                0 <= j < k ==> !contains_sub(#[trigger] segs.deep_view()[j], msa_id()),
        decreases segs@.len() - k,
    {
        let found = contains_sub_exec(segs[k].as_slice(), pat.as_slice());
        proof {
            lemma_bytes_deep_view(segs@[k as int]);
        }
        if found {
            proof {
                lemma_first_ack_idx(segs.deep_view(), k as int);
            }
            return k;
        }
        k += 1;
    }
    proof {
        lemma_first_ack_idx(segs.deep_view(), k as int);
    }
    k
}

/// What interpreting a received buffer yields, step by step: unframe,
/// locate the header and acknowledgment segments, split the acknowledgment
/// on the separator the respondent's header declares, classify the second
/// field.
pub open spec fn interpret_spec(received: Seq<u8>) -> Result<AckResult, Hl7Error> {
    if received.len() == 0 {
        Err(Hl7Error::NoDataReceived)
    } else {
        let segs = unframe_segments(received);
        let h = first_header_idx(segs);
        let a = first_ack_idx(segs);
        if h >= segs.len() {
            Err(Hl7Error::MissingSegment(SegmentKind::Header))
        } else if a >= segs.len() {
            Err(Hl7Error::MissingSegment(SegmentKind::Acknowledgment))
        } else if segs[h].len() < 4 {
            Err(Hl7Error::MalformedHeader)
        } else {
            let tokens = split_keeping_empty(segs[h][3], segs[a]);
            if tokens.len() < 2 {
                Err(Hl7Error::TruncatedAckSegment)
            } else {
                Ok(classify_spec(tokens[1]))
            }
        }
    }
}

/// Interpret a raw acknowledgment buffer received from the transport.
///
/// An empty buffer carries no data. Otherwise the buffer is unframed; a
/// header segment must be present to declare the separator (re-detected
/// here, since the respondent's separator may differ from the sender's),
/// and a segment containing "MSA" must be present to carry the reply code,
/// which is the second separator-delimited field of that segment.
pub fn interpret(received: &[u8]) -> (r: Result<AckResult, Hl7Error>)
    ensures
        r == interpret_spec(received@),
{
    if received.len() == 0 {
        return Err(Hl7Error::NoDataReceived);
    }
    let segs = decode(received);
    let h_idx = find_first_header(&segs);
    if h_idx >= segs.len() {
        return Err(Hl7Error::MissingSegment(SegmentKind::Header));
    }
    let a_idx = find_first_ack(&segs);
    if a_idx >= segs.len() {
        return Err(Hl7Error::MissingSegment(SegmentKind::Acknowledgment));
    }
    proof {
        lemma_bytes_deep_view(segs@[h_idx as int]);
        lemma_bytes_deep_view(segs@[a_idx as int]);
    }
    let sep = match identify_separator(segs[h_idx].as_slice()) {
        Ok(s) => s,
        Err(_) => {
            return Err(Hl7Error::MalformedHeader);
        },
    };
    let tokens = split_keeping_empty_exec(sep, segs[a_idx].as_slice());
    if tokens.len() < 2 {
        return Err(Hl7Error::TruncatedAckSegment);
    }
    proof {
        lemma_bytes_deep_view(tokens@[1]);
    }
    let result = classify_code(tokens[1].as_slice());
    Ok(result)
}

} // verus!
