use op_pool::protocol::{
    check_decoded_len, classify_read_failure, exchange_outcome, frame_request, has_request_body,
    parse_response, push_varint, read_varint, ProtocolError, ProtocolSchema, VarintRead,
};

fn varint_bytes(n: u64) -> Vec<u8> {
    let mut out = Vec::new();
    push_varint(&mut out, n);
    out
}

#[test]
fn metadata_requests_carry_no_body() {
    assert!(!has_request_body(ProtocolSchema::MetadataV1));
    assert!(has_request_body(ProtocolSchema::PooledUserOpHashesV1));
    assert!(has_request_body(ProtocolSchema::PooledUserOpsByHashV1));
}

#[test]
fn varint_encodes_small_values_in_one_byte() {
    assert_eq!(varint_bytes(0), vec![0]);
    assert_eq!(varint_bytes(127), vec![127]);
    assert_eq!(varint_bytes(128), vec![128, 1]);
    assert_eq!(varint_bytes(300), vec![0xAC, 0x02]);
}

#[test]
fn varint_round_trips() {
    for n in [0u64, 1, 127, 128, 300, 16384, u64::MAX] {
        let bytes = varint_bytes(n);
        match read_varint(&bytes, 0) {
            VarintRead::Value(v, e) => {
                assert_eq!(v, n);
                assert_eq!(e, bytes.len());
            }
            _ => panic!("varint failed to round-trip"),
        }
    }
}

#[test]
fn frame_is_length_then_payload() {
    let framed = frame_request(300, &vec![9, 8, 7]);
    assert_eq!(framed, vec![0xAC, 0x02, 9, 8, 7]);
}

#[test]
fn parse_response_reads_expected_chunks() {
    // two chunks: status 0, len 2, payload; status 0, len 1, payload
    let bytes = vec![0, 2, 0xAA, 0xBB, 0, 1, 0xCC];
    let chunks = parse_response(&bytes, 2, 1024).expect("well-formed response");
    assert_eq!(chunks, vec![vec![0xAA, 0xBB], vec![0xCC]]);
}

#[test]
fn oversized_chunk_claim_is_rejected() {
    // claim of max_chunk_size + 1 terminates the exchange, whatever follows
    let max: u64 = 200;
    let mut bytes = vec![0u8];
    bytes.extend_from_slice(&varint_bytes(max + 1));
    bytes.extend(std::iter::repeat(0u8).take((max + 1) as usize));
    let result = parse_response(&bytes, 1, max);
    assert_eq!(result, Err(ProtocolError::ChunkTooLarge));
}

#[test]
fn early_end_is_an_incomplete_stream() {
    let bytes = vec![0, 5, 1, 2];
    assert_eq!(parse_response(&bytes, 1, 1024), Err(ProtocolError::IncompleteStream));
    let empty: Vec<u8> = Vec::new();
    assert_eq!(parse_response(&empty, 1, 1024), Err(ProtocolError::IncompleteStream));
}

#[test]
fn nonzero_status_is_an_inbound_error() {
    let bytes = vec![3, 1, 0xAA];
    assert_eq!(parse_response(&bytes, 1, 1024), Err(ProtocolError::InboundError(3)));
}

#[test]
fn trailing_bytes_are_a_decode_error() {
    let bytes = vec![0, 1, 0xAA, 0xFF];
    assert_eq!(parse_response(&bytes, 1, 1024), Err(ProtocolError::DecodeError));
}

#[test]
fn overall_deadline_beats_everything() {
    let outcome = exchange_outcome(true, Some(Ok(vec![vec![1]])));
    assert_eq!(outcome, Err(ProtocolError::StreamTimeout));
}

#[test]
fn closed_stream_without_item_is_incomplete() {
    assert_eq!(exchange_outcome(false, None), Err(ProtocolError::IncompleteStream));
    assert_eq!(exchange_outcome(false, Some(Ok(vec![vec![7]]))), Ok(vec![vec![7]]));
}

#[test]
fn first_byte_deadline_is_a_read_timeout() {
    assert_eq!(classify_read_failure(true), ProtocolError::ReadTimeout);
    assert_eq!(classify_read_failure(false), ProtocolError::DecodeError);
}

#[test]
fn decompressed_chunk_is_held_to_the_ceiling() {
    assert!(check_decoded_len(1024, 1024).is_ok());
    assert_eq!(check_decoded_len(1025, 1024), Err(ProtocolError::ChunkTooLarge));
}
