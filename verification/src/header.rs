//! The header segment parser: recognising a header segment, locating the
//! field separator it declares, and extracting its fixed set of fields.

use crate::errors::Hl7Error;
use crate::framing::message_lines;
use crate::framing::split_message_lines;
use crate::segments::lemma_bytes_deep_view;
use crate::segments::lemma_split_keeping_len;
use crate::segments::split_keeping_empty;
use crate::segments::split_keeping_empty_exec;
use vstd::prelude::*;

verus! {

/// ASCII whitespace: space, and the control bytes tab through carriage
/// return, exactly the ASCII bytes that `str::trim` removes.
pub open spec fn is_ascii_whitespace(b: u8) -> bool {
    b == 0x20 || (0x09 <= b && b <= 0x0D)
}

/// `s` without its leading ASCII whitespace.
pub open spec fn trim_start_spec(s: Seq<u8>) -> Seq<u8>
    decreases s.len(),
{
    if s.len() > 0 && is_ascii_whitespace(s[0]) {
        trim_start_spec(s.skip(1))
    } else {
        s
    }
}

/// `s` without its trailing ASCII whitespace.
pub open spec fn trim_end_spec(s: Seq<u8>) -> Seq<u8>
    decreases s.len(),
{
    if s.len() > 0 && is_ascii_whitespace(s.last()) {
        trim_end_spec(s.drop_last())
    } else {
        s
    }
}

/// `s` without leading and trailing ASCII whitespace.
pub open spec fn trim_spec(s: Seq<u8>) -> Seq<u8> {
    trim_end_spec(trim_start_spec(s))
}

/// A byte mapped to its ASCII upper-case form.
pub open spec fn to_upper(b: u8) -> u8 {
    if 0x61 <= b && b <= 0x7A {
        (b - 0x20) as u8
    } else {
        b
    }
}

/// A byte sequence mapped to ASCII upper case.
pub open spec fn upper_seq(s: Seq<u8>) -> Seq<u8> {
    s.map_values(|b: u8| to_upper(b))
}

/// The three-byte header segment identifier, "MSH".
pub open spec fn msh_id() -> Seq<u8> {
    seq![0x4Du8, 0x53u8, 0x48u8]
}

/// Whether `seg` is a header segment: case-insensitively and after trimming
/// surrounding whitespace, it starts with the header identifier.
pub open spec fn is_header_segment_spec(seg: Seq<u8>) -> bool {
    upper_seq(msh_id()).is_prefix_of(upper_seq(trim_spec(seg)))
}

proof fn lemma_trim_start(s: Seq<u8>, k: int)
    requires
        0 <= k <= s.len(),
        forall|i: int| 0 <= i < k ==> is_ascii_whitespace(#[trigger] s[i]),
        k == s.len() || !is_ascii_whitespace(s[k]),
    ensures
        trim_start_spec(s) == s.skip(k),
    decreases k,
{
    if k == 0 {
        assert(s.skip(0) =~= s);
    } else {
        assert(is_ascii_whitespace(s[0]));
        assert forall|i: int| 0 <= i < k - 1 implies is_ascii_whitespace(
            #[trigger] s.skip(1)[i],
        ) by {
            assert(s.skip(1)[i] == s[i + 1]);
        }
        if k < s.len() {
            assert(s.skip(1)[k - 1] == s[k]);
        }
        lemma_trim_start(s.skip(1), k - 1);
        assert(s.skip(1).skip(k - 1) =~= s.skip(k));
    }
}

proof fn lemma_trim_end(s: Seq<u8>, h: int)
    requires
        0 <= h <= s.len(),
        forall|i: int| h <= i < s.len() ==> is_ascii_whitespace(#[trigger] s[i]),
        h == 0 || !is_ascii_whitespace(s[h - 1]),
    ensures
        trim_end_spec(s) == s.take(h),
    decreases s.len() - h,
{
    if h == s.len() {
        assert(s.take(h) =~= s);
    } else {
        assert(is_ascii_whitespace(s.last()));
        assert forall|i: int| h <= i < s.drop_last().len() implies is_ascii_whitespace(
            #[trigger] s.drop_last()[i],
        ) by {
            assert(s.drop_last()[i] == s[i]);
        }
        if h > 0 {
            assert(s.drop_last()[h - 1] == s[h - 1]);
        }
        lemma_trim_end(s.drop_last(), h);
        assert(s.drop_last().take(h) =~= s.take(h));
    }
}

/// Whether `b` is ASCII whitespace.
fn ascii_whitespace(b: u8) -> (r: bool)
    ensures
        r == is_ascii_whitespace(b),
{
    b == 0x20 || (b >= 0x09 && b <= 0x0D)
}

/// The byte mapped to its ASCII upper-case form.
fn upper_byte(b: u8) -> (r: u8)
    ensures
        r == to_upper(b),
{
    if b >= 0x61 && b <= 0x7A {
        b - 0x20
    } else {
        b
    }
}

/// The bounds of `line` with surrounding ASCII whitespace trimmed away.
fn trimmed_bounds(line: &[u8]) -> (r: (usize, usize))
    ensures
        r.0 <= r.1 <= line@.len(),
        trim_spec(line@) == line@.subrange(r.0 as int, r.1 as int),
{
    let mut lo: usize = 0;
    while lo < line.len() && ascii_whitespace(line[lo])
        invariant
            lo <= line@.len(),
            forall|i: int| 0 <= i < lo ==> is_ascii_whitespace(#[trigger] line@[i]),
        decreases line@.len() - lo,
    {
        lo += 1;
    }
    let mut hi: usize = line.len();
    while hi > lo && ascii_whitespace(line[hi - 1])
        invariant
            lo <= hi <= line@.len(),
            forall|i: int| hi <= i < line@.len() ==> is_ascii_whitespace(#[trigger] line@[i]),
        decreases hi,
    {
        hi -= 1;
    }
    proof {
        lemma_trim_start(line@, lo as int);
        let t = line@.skip(lo as int);
        assert forall|i: int| hi - lo <= i < t.len() implies is_ascii_whitespace(
            #[trigger] t[i],
        ) by {
            assert(t[i] == line@[i + lo]);
        }
        if hi > lo {
            assert(t[hi - lo - 1] == line@[hi - 1]);
        }
        lemma_trim_end(t, hi - lo);
        assert(t.take(hi - lo) =~= line@.subrange(lo as int, hi as int));
    }
    (lo, hi)
}

/// Whether `line`, trimmed of surrounding whitespace and compared without
/// regard to ASCII case, starts with `pat`.
pub fn is_segment(pat: &[u8], line: &[u8]) -> (r: bool)
    ensures
        r == upper_seq(pat@).is_prefix_of(upper_seq(trim_spec(line@))),
{
    let (lo, hi) = trimmed_bounds(line);
    let ghost t = trim_spec(line@);
    if pat.len() > hi - lo {
        proof {
            assert(upper_seq(pat@).len() == pat@.len());
            assert(upper_seq(t).len() == t.len());
        }
        return false;
    }
    let mut j: usize = 0;
    while j < pat.len()
        invariant
            j <= pat@.len(),
            pat@.len() <= hi - lo,
            lo <= hi <= line@.len(),
            t == trim_spec(line@),
            t == line@.subrange(lo as int, hi as int),
            forall|jj: int| 0 <= jj < j ==> to_upper(pat@[jj]) == to_upper(
                #[trigger] line@[lo + jj],
            ),
        decreases pat@.len() - j,
    {
        if upper_byte(pat[j]) != upper_byte(line[lo + j]) {
            proof {
                assert(upper_seq(pat@).len() == pat@.len());
                assert(upper_seq(t).len() == t.len());
                if upper_seq(pat@).is_prefix_of(upper_seq(t)) {
                    assert(upper_seq(pat@)[j as int] == upper_seq(t).subrange(
                        0,
                        pat@.len() as int,
                    )[j as int]);
                    assert(upper_seq(t)[j as int] == to_upper(t[j as int]));
                    assert(t[j as int] == line@[lo + j]);
                    assert(upper_seq(pat@)[j as int] == to_upper(pat@[j as int]));
                }
            }
            return false;
        }
        j += 1;
    }
    proof {
        assert(upper_seq(pat@).len() == pat@.len());
        assert(upper_seq(t).len() == t.len());
        assert forall|jj: int| 0 <= jj < pat@.len() implies upper_seq(pat@)[jj] == upper_seq(
            t,
        ).subrange(0, pat@.len() as int)[jj] by {
            assert(t[jj] == line@[lo + jj]);
            assert(to_upper(pat@[jj]) == to_upper(line@[lo + jj]));
        }
        assert(upper_seq(pat@) =~= upper_seq(t).subrange(0, pat@.len() as int));
    }
    true
}

/// Whether `segment` is a header segment: trimmed and case-insensitively,
/// it starts with "MSH".
pub fn is_header_segment(segment: &[u8]) -> (r: bool)
    ensures
        r == is_header_segment_spec(segment@),
{
    let mut pat: Vec<u8> = Vec::new();
    pat.push(0x4D);
    pat.push(0x53);
    pat.push(0x48);
    proof {
        assert(pat@ =~= msh_id());
    }
    is_segment(pat.as_slice(), segment)
}

/// The field separator a header segment declares: the byte at its fourth
/// position. A segment with fewer than four bytes is malformed.
pub fn identify_separator(segment: &[u8]) -> (r: Result<u8, Hl7Error>)
    ensures
        segment@.len() >= 4 ==> r == Ok::<u8, Hl7Error>(segment@[3]),
        segment@.len() < 4 ==> r == Err::<u8, Hl7Error>(Hl7Error::MalformedHeader),
{
    if segment.len() < 4 {
        Err(Hl7Error::MalformedHeader)
    } else {
        Ok(segment[3])
    }
}

/// The number of fields a header record always has.
pub const HEADER_FIELD_COUNT: usize = 22;

/// The token list brought to exactly 22 entries: truncated if longer,
/// padded with empty fields if shorter.
pub open spec fn pad_or_truncate_fields(tokens: Seq<Seq<u8>>) -> Seq<Seq<u8>> {
    if tokens.len() >= 22 {
        tokens.take(22)
    } else {
        tokens + Seq::new((22 - tokens.len()) as nat, |i: int| Seq::<u8>::empty())
    }
}

/// The 22 fields of a header segment: the segment split on the separator it
/// declares at its fourth position, with the separator itself inserted as a
/// literal token at index 1 (the split consumes it as a delimiter rather
/// than a token), then truncated or padded to exactly 22 entries.
pub open spec fn header_fields(seg: Seq<u8>) -> Seq<Seq<u8>> {
    pad_or_truncate_fields(split_keeping_empty(seg[3], seg).insert(1, seq![seg[3]]))
}

/// The fixed-arity header record: the 22 positional fields of a message
/// header segment, by name. Missing trailing fields are empty, never absent.
pub struct MshSegmentHeader {
    pub message_segment_header: Vec<u8>,
    pub field_separator: Vec<u8>,
    pub encoding_characters: Vec<u8>,
    pub sending_application: Vec<u8>,
    pub sending_facility: Vec<u8>,
    pub receiving_application: Vec<u8>,
    pub receiving_facility: Vec<u8>,
    pub date_time_message: Vec<u8>,
    pub security: Vec<u8>,
    pub message_type: Vec<u8>,
    pub message_control_id: Vec<u8>,
    pub processing_id: Vec<u8>,
    pub hl7_version: Vec<u8>,
    pub sequence_number: Vec<u8>,
    pub separation_pointer: Vec<u8>,
    pub accept_acknowledgement_type: Vec<u8>,
    pub application_acknowledgement_type: Vec<u8>,
    pub country_code: Vec<u8>,
    pub character_set: Vec<u8>,
    pub principle_language: Vec<u8>,
    pub alternative_character_set: Vec<u8>,
    pub message_profile_identifier: Vec<u8>,
}

impl MshSegmentHeader {
    /// The record's fields in positional order.
    pub open spec fn fields(&self) -> Seq<Seq<u8>> {
        seq![
            self.message_segment_header@,
            self.field_separator@,
            self.encoding_characters@,
            self.sending_application@,
            self.sending_facility@,
            self.receiving_application@,
            self.receiving_facility@,
            self.date_time_message@,
            self.security@,
            self.message_type@,
            self.message_control_id@,
            self.processing_id@,
            self.hl7_version@,
            self.sequence_number@,
            self.separation_pointer@,
            self.accept_acknowledgement_type@,
            self.application_acknowledgement_type@,
            self.country_code@,
            self.character_set@,
            self.principle_language@,
            self.alternative_character_set@,
            self.message_profile_identifier@,
        ]
    }
}

/// Detach and return the first token, leaving the rest in place.
fn take_first(tokens: &mut Vec<Vec<u8>>) -> (r: Vec<u8>)
    requires
        old(tokens)@.len() > 0,
    ensures
        final(tokens)@.len() == old(tokens)@.len() - 1,
        r@ == old(tokens).deep_view()[0],
        final(tokens).deep_view() == old(tokens).deep_view().skip(1),
{
    let r = tokens.remove(0);
    proof {
        lemma_bytes_deep_view(r);
        assert(tokens.deep_view() =~= old(tokens).deep_view().skip(1));
    }
    r
}

/// Parse a header segment into its 22-field record.
///
/// A segment that is not a header segment is rejected as such; one too
/// short to declare a field separator is malformed. Otherwise the segment
/// is split on its declared separator, the separator is inserted as the
/// field at index 1, and the token list is truncated or padded with empty
/// fields to exactly 22, assigned to the named fields in fixed order.
pub fn parse(header_segment: &[u8]) -> (r: Result<MshSegmentHeader, Hl7Error>)
    ensures
        !is_header_segment_spec(header_segment@) ==> r == Err::<MshSegmentHeader, Hl7Error>(
            Hl7Error::NotAHeaderSegment,
        ),
        is_header_segment_spec(header_segment@) && header_segment@.len() < 4 ==> r == Err::<
            MshSegmentHeader,
            Hl7Error,
        >(Hl7Error::MalformedHeader),
        is_header_segment_spec(header_segment@) && header_segment@.len() >= 4 ==> (r matches Ok(h)
            && h.fields() == header_fields(header_segment@)),
{
    if !is_header_segment(header_segment) {
        return Err(Hl7Error::NotAHeaderSegment);
    }
    let sep = match identify_separator(header_segment) {
        Ok(s) => s,
        Err(e) => {
            return Err(e);
        },
    };
    let mut tokens = split_keeping_empty_exec(sep, header_segment);
    proof {
        lemma_split_keeping_len(sep, header_segment@, Seq::empty());
    }
    let mut sep_tok: Vec<u8> = Vec::new();
    sep_tok.push(sep);
    let ghost raw = tokens.deep_view();
    let ghost st_vec = sep_tok;
    tokens.insert(1, sep_tok);
    proof {
        lemma_bytes_deep_view(st_vec);
        assert(st_vec@ =~= seq![sep]);
        assert forall|i: int| 0 <= i < tokens.deep_view().len() implies tokens.deep_view()[i]
            == raw.insert(1, seq![sep])[i] by {
            if i == 1 {
                assert(tokens@[1] == st_vec);
            }
        }
        assert(tokens.deep_view() =~= raw.insert(1, seq![sep]));
    }
    let ghost ins = tokens.deep_view();
    if tokens.len() >= HEADER_FIELD_COUNT {
        tokens.truncate(HEADER_FIELD_COUNT);
        proof {
            assert(tokens.deep_view() =~= ins.take(22));
        }
    } else {
        proof {
            assert(tokens.deep_view() =~= ins + Seq::new(
                (tokens@.len() - ins.len()) as nat,
                |i: int| Seq::<u8>::empty(),
            ));
        }
        while tokens.len() < HEADER_FIELD_COUNT
            invariant
                ins.len() <= tokens@.len() <= 22,
                tokens.deep_view() == ins + Seq::new(
                    (tokens@.len() - ins.len()) as nat,
                    |i: int| Seq::<u8>::empty(),
                ),
            decreases 22 - tokens@.len(),
        {
            let ghost prev = tokens.deep_view();
            let empty_tok: Vec<u8> = Vec::new();
            tokens.push(empty_tok);
            proof {
                lemma_bytes_deep_view(tokens@[tokens@.len() - 1]);
                assert(tokens.deep_view() =~= prev.push(Seq::<u8>::empty()));
                assert(prev.push(Seq::<u8>::empty()) =~= ins + Seq::new(
                    (tokens@.len() - ins.len()) as nat,
                    |i: int| Seq::<u8>::empty(),
                ));
            }
        }
    }
    let ghost target = header_fields(header_segment@);
    proof {
        assert(tokens.deep_view() == target);
        assert(target.len() == 22);
        assert(tokens.deep_view() =~= target.skip(0));
    }
    let t0 = take_first(&mut tokens);
    proof {
        assert(t0@ == target.skip(0)[0] && target.skip(0)[0] == target[0]);
        assert(target.skip(0).skip(1) =~= target.skip(1));
    }
    let t1 = take_first(&mut tokens);
    proof {
        assert(t1@ == target.skip(1)[0] && target.skip(1)[0] == target[1]);
        assert(target.skip(1).skip(1) =~= target.skip(2));
    }
    let t2 = take_first(&mut tokens);
    proof {
        assert(t2@ == target.skip(2)[0] && target.skip(2)[0] == target[2]);
        assert(target.skip(2).skip(1) =~= target.skip(3));
    }
    let t3 = take_first(&mut tokens);
    proof {
        assert(t3@ == target.skip(3)[0] && target.skip(3)[0] == target[3]);
        assert(target.skip(3).skip(1) =~= target.skip(4));
    }
    let t4 = take_first(&mut tokens);
    proof {
        assert(t4@ == target.skip(4)[0] && target.skip(4)[0] == target[4]);
        assert(target.skip(4).skip(1) =~= target.skip(5));
    }
    let t5 = take_first(&mut tokens);
    proof {
        assert(t5@ == target.skip(5)[0] && target.skip(5)[0] == target[5]);
        assert(target.skip(5).skip(1) =~= target.skip(6));
    }
    let t6 = take_first(&mut tokens);
    proof {
        assert(t6@ == target.skip(6)[0] && target.skip(6)[0] == target[6]);
        assert(target.skip(6).skip(1) =~= target.skip(7));
    }
    let t7 = take_first(&mut tokens);
    proof {
        assert(t7@ == target.skip(7)[0] && target.skip(7)[0] == target[7]);
        assert(target.skip(7).skip(1) =~= target.skip(8));
    }
    let t8 = take_first(&mut tokens);
    proof {
        assert(t8@ == target.skip(8)[0] && target.skip(8)[0] == target[8]);
        assert(target.skip(8).skip(1) =~= target.skip(9));
    }
    let t9 = take_first(&mut tokens);
    proof {
        assert(t9@ == target.skip(9)[0] && target.skip(9)[0] == target[9]);
        assert(target.skip(9).skip(1) =~= target.skip(10));
    }
    let t10 = take_first(&mut tokens);
    proof {
        assert(t10@ == target.skip(10)[0] && target.skip(10)[0] == target[10]);
        assert(target.skip(10).skip(1) =~= target.skip(11));
    }
    let t11 = take_first(&mut tokens);
    proof {
        assert(t11@ == target.skip(11)[0] && target.skip(11)[0] == target[11]);
        assert(target.skip(11).skip(1) =~= target.skip(12));
    }
    let t12 = take_first(&mut tokens);
    proof {
        assert(t12@ == target.skip(12)[0] && target.skip(12)[0] == target[12]);
        assert(target.skip(12).skip(1) =~= target.skip(13));
    }
    let t13 = take_first(&mut tokens);
    proof {
        assert(t13@ == target.skip(13)[0] && target.skip(13)[0] == target[13]);
        assert(target.skip(13).skip(1) =~= target.skip(14));
    }
    let t14 = take_first(&mut tokens);
    proof {
        assert(t14@ == target.skip(14)[0] && target.skip(14)[0] == target[14]);
        assert(target.skip(14).skip(1) =~= target.skip(15));
    }
    let t15 = take_first(&mut tokens);
    proof {
        assert(t15@ == target.skip(15)[0] && target.skip(15)[0] == target[15]);
        assert(target.skip(15).skip(1) =~= target.skip(16));
    }
    let t16 = take_first(&mut tokens);
    proof {
        assert(t16@ == target.skip(16)[0] && target.skip(16)[0] == target[16]);
        assert(target.skip(16).skip(1) =~= target.skip(17));
    }
    let t17 = take_first(&mut tokens);
    proof {
        assert(t17@ == target.skip(17)[0] && target.skip(17)[0] == target[17]);
        assert(target.skip(17).skip(1) =~= target.skip(18));
    }
    let t18 = take_first(&mut tokens);
    proof {
        assert(t18@ == target.skip(18)[0] && target.skip(18)[0] == target[18]);
        assert(target.skip(18).skip(1) =~= target.skip(19));
    }
    let t19 = take_first(&mut tokens);
    proof {
        assert(t19@ == target.skip(19)[0] && target.skip(19)[0] == target[19]);
        assert(target.skip(19).skip(1) =~= target.skip(20));
    }
    let t20 = take_first(&mut tokens);
    proof {
        assert(t20@ == target.skip(20)[0] && target.skip(20)[0] == target[20]);
        assert(target.skip(20).skip(1) =~= target.skip(21));
    }
    let t21 = take_first(&mut tokens);
    proof {
        assert(t21@ == target.skip(21)[0] && target.skip(21)[0] == target[21]);
    }
    let record = MshSegmentHeader {
        message_segment_header: t0,
        field_separator: t1,
        encoding_characters: t2,
        sending_application: t3,
        sending_facility: t4,
        receiving_application: t5,
        receiving_facility: t6,
        date_time_message: t7,
        security: t8,
        message_type: t9,
        message_control_id: t10,
        processing_id: t11,
        hl7_version: t12,
        sequence_number: t13,
        separation_pointer: t14,
        accept_acknowledgement_type: t15,
        application_acknowledgement_type: t16,
        country_code: t17,
        character_set: t18,
        principle_language: t19,
        alternative_character_set: t20,
        message_profile_identifier: t21,
    };
    proof {
        assert(record.fields() =~= target);
    }
    Ok(record)
}

/// Validate raw message text and parse its header.
///
/// The text is split into non-empty segments on line endings; the first
/// segment must be a header segment, which is then parsed. Text without a
/// single non-empty segment has no header segment and is rejected as such.
pub fn parse_message(text: &[u8]) -> (r: Result<MshSegmentHeader, Hl7Error>)
    ensures
        ({
            let lines = message_lines(text@);
            &&& lines.len() == 0 ==> r == Err::<MshSegmentHeader, Hl7Error>(
                Hl7Error::NotAHeaderSegment,
            )
            &&& lines.len() > 0 && !is_header_segment_spec(lines[0]) ==> r == Err::<
                MshSegmentHeader,
                Hl7Error,
            >(Hl7Error::NotAHeaderSegment)
            &&& lines.len() > 0 && is_header_segment_spec(lines[0]) && lines[0].len() < 4 ==> r
                == Err::<MshSegmentHeader, Hl7Error>(Hl7Error::MalformedHeader)
            &&& lines.len() > 0 && is_header_segment_spec(lines[0]) && lines[0].len() >= 4 ==> (
            r matches Ok(h) && h.fields() == header_fields(lines[0]))
        }),
{
    let lines = split_message_lines(text);
    if lines.len() == 0 {
        return Err(Hl7Error::NotAHeaderSegment);
    }
    let first = &lines[0];
    proof {
        lemma_bytes_deep_view(lines@[0]);
        assert(lines@[0]@ == message_lines(text@)[0]);
    }
    parse(first.as_slice())
}

} // verus!
