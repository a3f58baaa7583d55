use send_hl7::framing::{decode, encode, encode_for_transmission, TransmissionStrategy};

#[test]
fn encode_wraps_payload_in_sentinels() {
    let payload = b"MSH|^~\\&|AppA|FacA|AppB|FacB";
    let framed = encode(payload);
    assert_eq!(framed[0], 0x0B);
    assert_eq!(&framed[1..framed.len() - 2], payload);
    assert_eq!(framed[framed.len() - 2], 0x1C);
    assert_eq!(framed[framed.len() - 1], 0x0D);
    assert_eq!(framed.len(), payload.len() + 3);
}

#[test]
fn decode_of_empty_buffer_is_empty() {
    let segments = decode(b"");
    assert!(segments.is_empty());
}

#[test]
fn decode_strips_sentinels_and_splits_lines() {
    let received = b"\x0bMSH|^~\\&|A\rMSA|AA|1\x1c\x0d";
    let segments = decode(received);
    assert_eq!(segments.len(), 2);
    assert_eq!(segments[0], b"MSH|^~\\&|A".to_vec());
    assert_eq!(segments[1], b"MSA|AA|1".to_vec());
}

#[test]
fn decode_discards_empty_segments() {
    let received = b"\r\n\x0b\x1c\rA\r\r\nB\r";
    let segments = decode(received);
    assert_eq!(segments.len(), 2);
    assert_eq!(segments[0], b"A".to_vec());
    assert_eq!(segments[1], b"B".to_vec());
}

#[test]
fn round_trip_reproduces_payload() {
    let payload = b"MSH|^~\\&|AppA\rPID|1||12345\rOBX|1|TX|note";
    let framed = encode(payload);
    let segments = decode(&framed);
    assert_eq!(segments.len(), 3);
    let rejoined: Vec<u8> = segments.join(&0x0Du8);
    assert_eq!(rejoined, payload.to_vec());
}

#[test]
fn whole_payload_strategy_matches_encode() {
    let payload = b"MSH|^~\\&|A\rPID|1";
    assert_eq!(
        encode_for_transmission(payload, TransmissionStrategy::WholePayload),
        encode(payload)
    );
}

#[test]
fn per_segment_strategy_reterminates_every_line() {
    let payload = b"MSH|^~\\&|A\nPID|1\n";
    let framed = encode_for_transmission(payload, TransmissionStrategy::PerSegment);
    assert_eq!(framed, encode(b"MSH|^~\\&|A\rPID|1\r"));
}
