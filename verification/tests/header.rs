use send_hl7::errors::Hl7Error;
use send_hl7::header::{identify_separator, is_header_segment, is_segment, parse, parse_message};

#[test]
fn separator_detection() {
    let segment = b"MSH|^~\\&|AppA|FacA|AppB|FacB|20230101||ADT^A01|123|P|2.3";
    assert_eq!(identify_separator(segment), Ok(b'|'));
}

#[test]
fn separator_requires_four_bytes() {
    assert_eq!(identify_separator(b"MSH"), Err(Hl7Error::MalformedHeader));
    assert_eq!(identify_separator(b""), Err(Hl7Error::MalformedHeader));
}

#[test]
fn segment_identification_is_case_insensitive_and_trimmed() {
    assert!(is_segment(b"msh", b"MSH|^~\\&|AppA"));
    assert!(is_segment(b"msh", b"  msh|^~\\&|AppA  "));
    assert!(is_segment(b"MSH", b"\tMsH|rest"));
    assert!(!is_segment(b"msh", b"PID|1||12345"));
    assert!(!is_segment(b"msh", b""));
    assert!(is_header_segment(b"MSH|^~\\&|AppA"));
    assert!(!is_header_segment(b"MSA|AA|1"));
}

#[test]
fn parse_extracts_fields_in_order() {
    let segment = b"MSH|^~\\&|AppA|FacA|AppB|FacB|20230101||ADT^A01|123|P|2.3";
    let record = parse(segment).unwrap();
    assert_eq!(record.message_segment_header, b"MSH".to_vec());
    assert_eq!(record.field_separator, b"|".to_vec());
    assert_eq!(record.encoding_characters, b"^~\\&".to_vec());
    assert_eq!(record.sending_application, b"AppA".to_vec());
    assert_eq!(record.sending_facility, b"FacA".to_vec());
    assert_eq!(record.receiving_application, b"AppB".to_vec());
    assert_eq!(record.receiving_facility, b"FacB".to_vec());
    assert_eq!(record.date_time_message, b"20230101".to_vec());
    assert_eq!(record.security, b"".to_vec());
    assert_eq!(record.message_type, b"ADT^A01".to_vec());
    assert_eq!(record.message_control_id, b"123".to_vec());
    assert_eq!(record.processing_id, b"P".to_vec());
    assert_eq!(record.hl7_version, b"2.3".to_vec());
    assert_eq!(record.sequence_number, b"".to_vec());
}

#[test]
fn parse_pads_missing_trailing_fields_with_empty_strings() {
    // Ten |-delimited tokens, the last one empty.
    let segment = b"MSH|^~\\&|AppA|FacA|AppB|FacB|20230101|ADT^A01|123|";
    let record = parse(segment).unwrap();
    let fields = [
        record.message_segment_header,
        record.field_separator,
        record.encoding_characters,
        record.sending_application,
        record.sending_facility,
        record.receiving_application,
        record.receiving_facility,
        record.date_time_message,
        record.security,
        record.message_type,
        record.message_control_id,
        record.processing_id,
        record.hl7_version,
        record.sequence_number,
        record.separation_pointer,
        record.accept_acknowledgement_type,
        record.application_acknowledgement_type,
        record.country_code,
        record.character_set,
        record.principle_language,
        record.alternative_character_set,
        record.message_profile_identifier,
    ];
    assert_eq!(fields.len(), 22);
    assert_eq!(fields[0], b"MSH".to_vec());
    assert_eq!(fields[9], b"123".to_vec());
    for k in 10..22 {
        assert_eq!(fields[k], b"".to_vec(), "field {k} should be empty");
    }
}

#[test]
fn parse_truncates_extra_tokens() {
    // Thirty |-delimited tokens: t00 through t29, t00 replaced by MSH.
    let mut segment: Vec<u8> = b"MSH".to_vec();
    for k in 1..30 {
        segment.push(b'|');
        segment.extend_from_slice(format!("t{k:02}").as_bytes());
    }
    let record = parse(&segment).unwrap();
    assert_eq!(record.message_segment_header, b"MSH".to_vec());
    assert_eq!(record.field_separator, b"|".to_vec());
    assert_eq!(record.encoding_characters, b"t01".to_vec());
    // Field 21 is token 20 of the raw split; tokens 21 through 29 are gone.
    assert_eq!(record.message_profile_identifier, b"t20".to_vec());
}

#[test]
fn parse_rejects_non_header_segment() {
    assert!(matches!(parse(b"PID|1||12345"), Err(Hl7Error::NotAHeaderSegment)));
}

#[test]
fn parse_rejects_header_without_separator() {
    assert!(matches!(parse(b"MSH"), Err(Hl7Error::MalformedHeader)));
}

#[test]
fn message_with_non_header_first_line_is_rejected() {
    let text = b"PID|1||12345\rMSH|^~\\&|AppA";
    assert!(matches!(parse_message(text), Err(Hl7Error::NotAHeaderSegment)));
}

#[test]
fn empty_message_text_is_rejected() {
    assert!(matches!(parse_message(b""), Err(Hl7Error::NotAHeaderSegment)));
    assert!(matches!(parse_message(b"\r\n\r\n"), Err(Hl7Error::NotAHeaderSegment)));
}

#[test]
fn message_with_leading_blank_lines_parses_first_real_segment() {
    let text = b"\r\nMSH|^~\\&|AppA|FacA\rPID|1\r";
    let record = parse_message(text).unwrap();
    assert_eq!(record.sending_application, b"AppA".to_vec());
}
