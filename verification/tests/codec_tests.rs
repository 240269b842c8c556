//! Wire-format tests: exact bytes, round trips, strictness of the parser,
//! and conformance with the reference SCALE implementation.

use parity_scale_codec::{Compact, Encode};
use prediction_market::calldata::{bet_call_data, claim_call_data, resolution_call_data};
use prediction_market::protocol::{
    decode_resolution_result, encode_resolution_request, encode_resolution_result,
};
use prediction_market::scale::{decode_compact, encode_compact, push_le, read_le};
use prediction_market::{MarketError, MarketResolutionRequest, ResolutionResult};

#[test]
fn little_endian_round_trip() {
    let mut out: Vec<u8> = Vec::new();
    push_le(&mut out, 0x0102_0304_0506_0708, 8);
    assert_eq!(out, vec![0x08, 0x07, 0x06, 0x05, 0x04, 0x03, 0x02, 0x01]);
    assert_eq!(read_le(&out, 0, 8), 0x0102_0304_0506_0708);
}

#[test]
fn compact_encoding_boundary_values_round_trip() {
    let values: Vec<u64> = vec![
        0,
        1,
        63,
        64,
        16383,
        16384,
        0x3FFF_FFFF,
        0x4000_0000,
        0xFFFF_FFFF,
        0x1_0000_0000,
        0xFF_FFFF_FFFF,
        0x100_0000_0000,
        u64::MAX,
    ];
    for v in values {
        let mut out: Vec<u8> = Vec::new();
        encode_compact(&mut out, v);
        let (parsed, end) = decode_compact(&out, 0).unwrap();
        assert_eq!(parsed, v);
        assert_eq!(end, out.len());
    }
}

#[test]
fn compact_encoding_matches_reference_implementation() {
    let values: Vec<u64> = vec![0, 1, 63, 64, 16383, 16384, 0x3FFF_FFFF, 0x4000_0000, u64::MAX];
    for v in values {
        let mut ours: Vec<u8> = Vec::new();
        encode_compact(&mut ours, v);
        let reference = Compact(v).encode();
        assert_eq!(ours, reference, "compact encoding of {}", v);
    }
}

#[test]
fn compact_parser_rejects_non_canonical_encodings() {
    // A two-byte encoding of five: canonical form is the single byte 20.
    assert!(decode_compact(&vec![0x15, 0x00], 0).is_none());
    // A four-byte encoding of a value that fits two bytes.
    assert!(decode_compact(&vec![0x02, 0x01, 0x00, 0x00], 0).is_none());
    // A truncated two-byte encoding.
    assert!(decode_compact(&vec![0x01], 0).is_none());
    // An empty buffer.
    assert!(decode_compact(&vec![], 0).is_none());
}

#[test]
fn resolution_result_exact_wire_bytes() {
    let result = ResolutionResult {
        market_id: 1,
        winning_option: 1,
        confidence_pct: 95,
        evidence_summary: "Team B won 3-1".into(),
    };
    let bytes = encode_resolution_result(&result);
    let mut expected: Vec<u8> = vec![1, 0, 0, 0, 0, 0, 0, 0, 1, 95, 14 * 4];
    expected.extend_from_slice(b"Team B won 3-1");
    assert_eq!(bytes, expected);
}

#[test]
fn resolution_result_matches_reference_encoding() {
    let result = ResolutionResult {
        market_id: 7,
        winning_option: 2,
        confidence_pct: 88,
        evidence_summary: "all sources agree".into(),
    };
    let ours = encode_resolution_result(&result);
    let reference = (7u64, 2u8, 88u8, String::from("all sources agree")).encode();
    assert_eq!(ours, reference);
}

#[test]
fn resolution_request_matches_reference_encoding() {
    let request = MarketResolutionRequest {
        market_id: 3,
        question: "Will it rain tomorrow?".into(),
        options: vec!["Yes".into(), "No".into()],
        resolution_criteria: "Official forecast at noon".into(),
        resolution_source: "https://example.org/weather".into(),
    };
    let ours = encode_resolution_request(&request);
    let reference = (
        3u64,
        String::from("Will it rain tomorrow?"),
        vec![String::from("Yes"), String::from("No")],
        String::from("Official forecast at noon"),
        String::from("https://example.org/weather"),
    )
        .encode();
    assert_eq!(ours, reference);
}

#[test]
fn resolution_result_round_trip() {
    let result = ResolutionResult {
        market_id: 42,
        winning_option: 3,
        confidence_pct: 77,
        evidence_summary: "unanimous \u{00e9}vidence".into(),
    };
    let bytes = encode_resolution_result(&result);
    let parsed = decode_resolution_result(&bytes).unwrap();
    assert_eq!(parsed.market_id, 42);
    assert_eq!(parsed.winning_option, 3);
    assert_eq!(parsed.confidence_pct, 77);
    assert_eq!(parsed.evidence_summary, "unanimous \u{00e9}vidence");
}

#[test]
fn resolution_result_decode_ignores_trailing_bytes() {
    let result = ResolutionResult {
        market_id: 9,
        winning_option: 0,
        confidence_pct: 10,
        evidence_summary: "x".into(),
    };
    let mut bytes = encode_resolution_result(&result);
    bytes.extend_from_slice(&[0xAA, 0xBB]);
    let parsed = decode_resolution_result(&bytes).unwrap();
    assert_eq!(parsed.market_id, 9);
    assert_eq!(parsed.evidence_summary, "x");
}

#[test]
fn resolution_result_decode_rejects_bad_input() {
    // Too short for the fixed head.
    assert_eq!(decode_resolution_result(&vec![0; 9]).unwrap_err(), MarketError::DecodeError);
    // Claims one byte of evidence but carries none.
    let mut bytes = vec![0u8; 10];
    bytes.push(1 * 4);
    assert_eq!(decode_resolution_result(&bytes).unwrap_err(), MarketError::DecodeError);
    // Evidence bytes that are not valid UTF-8.
    let mut bytes = vec![0u8; 10];
    bytes.push(1 * 4);
    bytes.push(0xFF);
    assert_eq!(decode_resolution_result(&bytes).unwrap_err(), MarketError::DecodeError);
    // The reference implementation rejects those payloads too.
    assert!(<(u64, u8, u8, String) as parity_scale_codec::Decode>::decode(&mut &vec![0u8; 9][..])
        .is_err());
}

#[test]
fn call_data_layouts() {
    assert_eq!(resolution_call_data(5), vec![0x03, 0, 0, 1, 5, 0, 0, 0, 0, 0, 0, 0]);
    assert_eq!(claim_call_data(5), vec![0x05, 0, 0, 1, 5, 0, 0, 0, 0, 0, 0, 0]);
    assert_eq!(
        bet_call_data(1, 2, 100),
        vec![0x02, 0, 0, 1, 1, 0, 0, 0, 0, 0, 0, 0, 2, 100, 0, 0, 0, 0, 0, 0, 0]
    );
}
