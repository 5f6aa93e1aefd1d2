use std::io::{self, Cursor};
use vault_manifest::manifest::Manifest;
use vault_manifest::wire::{
    expect_chunks_response, expect_get_chunks_request, expect_manifest_request,
    expect_manifest_response, GossipRequest, GossipResponse, ProtocolError,
};
use vault_manifest::wire::{
    chunk_request, bound_line, bound_to_string, decode_chunk_payload, expect_line, read_line, encode_chunk_payloads, read_bounded_line,
    read_bounded_to_string, PayloadError, WireError, MAX_MESSAGE_BYTES,
};

#[test]
fn read_bounded_line_reads_a_normal_line_and_leaves_the_rest() {
    let mut r = Cursor::new(b"first line\nsecond line\n".to_vec());
    assert_eq!(read_bounded_line(&mut r).unwrap(), "first line\n");
    assert_eq!(read_bounded_line(&mut r).unwrap(), "second line\n");
}

#[test]
fn read_bounded_line_refuses_an_over_limit_line_instead_of_growing_without_bound() {
    let mut oversized = vec![b'x'; MAX_MESSAGE_BYTES + 10];
    oversized.push(b'\n');
    let mut r = Cursor::new(oversized);
    let err = read_bounded_line(&mut r).expect_err("an over-limit line must be refused");
    assert!(err.is_invalid_data());
    assert!(err.message().contains("MAX_MESSAGE_BYTES"), "names the ceiling: {}", err.message());
}

#[test]
fn read_bounded_line_accepts_a_line_exactly_at_the_limit() {
    let mut at_limit = vec![b'x'; MAX_MESSAGE_BYTES - 1];
    at_limit.push(b'\n');
    let mut r = Cursor::new(at_limit.clone());
    let line = read_bounded_line(&mut r).expect("a line exactly at the limit is accepted");
    assert_eq!(line.len(), MAX_MESSAGE_BYTES);
}

#[test]
fn read_bounded_to_string_reads_normally_and_refuses_over_limit() {
    let mut r = Cursor::new(b"hello world".to_vec());
    assert_eq!(read_bounded_to_string(&mut r).unwrap(), "hello world");

    let oversized = vec![b'y'; MAX_MESSAGE_BYTES + 1];
    let mut r = Cursor::new(oversized);
    let err = read_bounded_to_string(&mut r).expect_err("over-limit stdin must be refused");
    assert!(err.is_invalid_data());
    assert!(err.message().contains("MAX_MESSAGE_BYTES"));
}

#[test]
fn read_bounded_line_on_closed_input_is_an_empty_line() {
    let mut r = Cursor::new(Vec::<u8>::new());
    assert_eq!(read_bounded_line(&mut r).unwrap(), "");
}

#[test]
fn read_bounded_to_string_refuses_bytes_that_are_not_utf8() {
    let mut r = Cursor::new(vec![0x66, 0xff, 0x6f]);
    let err = read_bounded_to_string(&mut r).expect_err("not UTF-8");
    assert!(err.is_invalid_data());
    assert!(matches!(err, WireError::NotUtf8 { .. }));
}

#[test]
fn bound_line_passes_short_lines_and_errors_through() {
    assert_eq!(bound_line(Ok("abc\n".to_string())).unwrap(), "abc\n");
    let e = bound_line(Err(io::Error::new(io::ErrorKind::TimedOut, "slow"))).unwrap_err();
    assert!(!e.is_invalid_data());
    match e {
        WireError::Read(inner) => assert_eq!(inner.kind(), io::ErrorKind::TimedOut),
        other => panic!("expected the read error, got {other:?}"),
    }
    assert!(matches!(bound_line(Ok("x".repeat(MAX_MESSAGE_BYTES + 1))), Err(WireError::TooLarge)));
}

#[test]
fn bound_to_string_decodes_utf8() {
    assert_eq!(bound_to_string(Ok("héllo".as_bytes().to_vec())).unwrap(), "héllo");
    assert!(bound_to_string(Ok(vec![0xc3])).is_err());
}

#[test]
fn chunk_payloads_round_trip_through_base64() {
    let found = vec![("h1".to_string(), b"hello".to_vec()), ("h2".to_string(), vec![0u8, 255, 7])];
    let encoded = encode_chunk_payloads(found.clone());
    assert_eq!(encoded[0], ("h1".to_string(), "aGVsbG8=".to_string()));
    assert_eq!(encoded[1].0, "h2");
    for ((_, text), (_, bytes)) in encoded.iter().zip(found.iter()) {
        match decode_chunk_payload(text) {
            Ok(b) => assert_eq!(&b, bytes),
            Err(_) => panic!("valid base64 must decode"),
        }
    }
}

#[test]
fn a_payload_that_is_not_base64_is_refused() {
    match decode_chunk_payload("not base64!") {
        Err(PayloadError::NotBase64 { message }) => assert!(!message.is_empty()),
        Ok(_) => panic!("must be refused"),
    }
}

#[test]
fn gossip_messages_out_of_turn_are_refused() {
    let r = expect_manifest_response(GossipResponse::Chunks { chunks: vec![] });
    assert_eq!(r.err(), Some(ProtocolError::ExpectedManifestResponse));
    assert!(expect_manifest_response(GossipResponse::Manifest { manifest: Manifest::new() }).is_ok());
    let r = expect_chunks_response(GossipResponse::Manifest { manifest: Manifest::new() });
    assert_eq!(r.err(), Some(ProtocolError::ExpectedChunksResponse));
    let c = expect_chunks_response(GossipResponse::Chunks { chunks: vec![("h".to_string(), "eA==".to_string())] });
    assert_eq!(c.unwrap(), vec![("h".to_string(), "eA==".to_string())]);
    let r = expect_manifest_request(GossipRequest::GetChunks { hashes: vec![] });
    assert_eq!(r.err(), Some(ProtocolError::ExpectedManifestRequestFirst));
    let r = expect_get_chunks_request(GossipRequest::Manifest { manifest: Manifest::new() });
    assert_eq!(r.err(), Some(ProtocolError::ExpectedGetChunksRequestSecond));
    assert_eq!(expect_get_chunks_request(GossipRequest::GetChunks { hashes: vec!["a".to_string()] }).unwrap(), vec!["a".to_string()]);
    assert_eq!(ProtocolError::ExpectedManifestResponse.message(), "expected a manifest response");
    assert_eq!(ProtocolError::ExpectedGetChunksRequestSecond.message(), "expected a get_chunks request second");
}

#[test]
fn a_bounded_line_stops_at_the_first_newline() {
    let mut r = Cursor::new(b"a\nb\nc".to_vec());
    assert_eq!(read_bounded_line(&mut r).unwrap(), "a\n");
    assert_eq!(read_bounded_line(&mut r).unwrap(), "b\n");
    assert_eq!(read_bounded_line(&mut r).unwrap(), "c");
}

#[test]
fn the_too_large_error_names_the_bound() {
    assert_eq!(WireError::TooLarge.message(), "gossip message exceeds MAX_MESSAGE_BYTES (268435456)");
    assert!(WireError::TooLarge.is_invalid_data());
}

#[test]
fn a_hash_requested_twice_is_answered_once() {
    let found = vec![
        ("h".to_string(), b"one".to_vec()),
        ("g".to_string(), b"x".to_vec()),
        ("h".to_string(), b"two".to_vec()),
    ];
    let encoded = encode_chunk_payloads(found);
    assert_eq!(encoded.len(), 2);
    assert!(encoded.contains(&("h".to_string(), "dHdv".to_string())));
    assert!(encoded.contains(&("g".to_string(), "eA==".to_string())));
}

#[test]
fn a_peer_line_on_closed_input_is_a_closed_error() {
    let mut r = Cursor::new(b"hello\n".to_vec());
    assert_eq!(read_line(&mut r).unwrap(), "hello\n");
    let err = read_line(&mut r).expect_err("a closed connection gives no line");
    assert!(err.is_closed());
    assert!(!err.is_invalid_data());
    assert_eq!(err.message(), "peer closed the connection");
}

#[test]
fn expect_line_passes_other_results_on() {
    assert_eq!(expect_line(Ok("x\n".to_string())).unwrap(), "x\n");
    assert!(matches!(expect_line(Ok(String::new())), Err(WireError::Closed)));
    assert!(matches!(expect_line(Err(WireError::TooLarge)), Err(WireError::TooLarge)));
}

#[test]
fn chunk_bytes_survive_the_base64_trip() {
    let found = vec![
        ("h1".to_string(), vec![0u8, 1, 2, 250, 255]),
        ("h2".to_string(), b"hello".to_vec()),
        ("h1".to_string(), vec![9u8; 7]),
    ];
    let out = encode_chunk_payloads(found);
    assert_eq!(out.len(), 2);
    for (hash, text) in &out {
        let bytes = decode_chunk_payload(text).ok().expect("the text decodes");
        match hash.as_str() {
            "h1" => assert_eq!(bytes, vec![9u8; 7]),
            "h2" => assert_eq!(bytes, b"hello".to_vec()),
            other => panic!("unexpected hash {other}"),
        }
    }
}

#[test]
fn the_read_limit_is_one_past_the_bound() {
    assert_eq!(vault_manifest::wire::read_limit(), MAX_MESSAGE_BYTES as u64 + 1);
}

#[test]
fn no_missing_chunk_means_no_chunk_request() {
    assert!(chunk_request(vec![]).is_none());
    match chunk_request(vec!["a".to_string(), "b".to_string()]) {
        Some(GossipRequest::GetChunks { hashes }) => assert_eq!(hashes, vec!["a", "b"]),
        _ => panic!("expected a chunk request"),
    }
}
