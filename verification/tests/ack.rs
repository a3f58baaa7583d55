use send_hl7::ack::{classify_code, contains_sub_exec, interpret, AckResult};
use send_hl7::errors::{Hl7Error, SegmentKind};
use send_hl7::framing::encode;

fn framed_response(text: &[u8]) -> Vec<u8> {
    encode(text)
}

#[test]
fn classify_recognizes_the_three_codes() {
    assert_eq!(classify_code(b"AA"), AckResult::Accepted);
    assert_eq!(classify_code(b"AE"), AckResult::ApplicationError);
    assert_eq!(classify_code(b"AR"), AckResult::RejectedFormat);
}

#[test]
fn classify_is_exact() {
    assert_eq!(classify_code(b"ZZ"), AckResult::Unrecognized);
    assert_eq!(classify_code(b"aa"), AckResult::Unrecognized);
    assert_eq!(classify_code(b"AAA"), AckResult::Unrecognized);
    assert_eq!(classify_code(b"A"), AckResult::Unrecognized);
    assert_eq!(classify_code(b""), AckResult::Unrecognized);
}

#[test]
fn substring_search_is_case_sensitive() {
    assert!(contains_sub_exec(b"xxMSAyy", b"MSA"));
    assert!(contains_sub_exec(b"MSA", b"MSA"));
    assert!(!contains_sub_exec(b"msa", b"MSA"));
    assert!(!contains_sub_exec(b"MS", b"MSA"));
    assert!(contains_sub_exec(b"anything", b""));
}

#[test]
fn accepted_acknowledgment() {
    let reply = framed_response(
        b"MSH|^~\\&|AppB|FacB|AppA|FacA|20230101||ACK|9|P|2.3\rMSA|AA|123456|Message successfully received.|",
    );
    assert_eq!(interpret(&reply), Ok(AckResult::Accepted));
}

#[test]
fn application_error_acknowledgment() {
    let reply = framed_response(b"MSH|^~\\&|B|F|A|F|20230101||ACK|9|P|2.3\rMSA|AE|123456|error|");
    assert_eq!(interpret(&reply), Ok(AckResult::ApplicationError));
}

#[test]
fn rejected_acknowledgment() {
    let reply = framed_response(b"MSH|^~\\&|B|F|A|F|20230101||ACK|9|P|2.3\rMSA|AR|123456|bad|");
    assert_eq!(interpret(&reply), Ok(AckResult::RejectedFormat));
}

#[test]
fn unknown_code_is_a_valid_outcome() {
    let reply = framed_response(b"MSH|^~\\&|B|F|A|F|20230101||ACK|9|P|2.3\rMSA|ZZ|123456|?|");
    assert_eq!(interpret(&reply), Ok(AckResult::Unrecognized));
}

#[test]
fn empty_response_means_no_data() {
    assert_eq!(interpret(b""), Err(Hl7Error::NoDataReceived));
}

#[test]
fn single_segment_response_misses_the_ack_segment() {
    let reply = framed_response(b"MSH|^~\\&|B|F|A|F|20230101||ACK|9|P|2.3");
    assert_eq!(
        interpret(&reply),
        Err(Hl7Error::MissingSegment(SegmentKind::Acknowledgment))
    );
}

#[test]
fn response_without_header_misses_the_header_segment() {
    let reply = framed_response(b"MSA|AA|123456|ok|");
    assert_eq!(
        interpret(&reply),
        Err(Hl7Error::MissingSegment(SegmentKind::Header))
    );
}

#[test]
fn sentinel_only_response_misses_the_header_segment() {
    assert_eq!(
        interpret(b"\x0b\x1c\x0d"),
        Err(Hl7Error::MissingSegment(SegmentKind::Header))
    );
}

#[test]
fn ack_segment_without_code_is_truncated() {
    let reply = framed_response(b"MSH|^~\\&|B|F\rMSA");
    assert_eq!(interpret(&reply), Err(Hl7Error::TruncatedAckSegment));
}

#[test]
fn header_too_short_for_separator_is_malformed() {
    let reply = framed_response(b"MSH\rMSA|AA|1|ok|");
    assert_eq!(interpret(&reply), Err(Hl7Error::MalformedHeader));
}

#[test]
fn respondent_separator_may_differ() {
    let reply = framed_response(b"MSH#^~\\&#B#F\rMSA#AA#1#ok#");
    assert_eq!(interpret(&reply), Ok(AckResult::Accepted));
}
