use snarkos_network::codec::{decode, encode, encode_frame, read_frame};
use snarkos_network::errors::CodecError;
use snarkos_network::message::{BlockHeaderHash, Payload, PeerAddress, Verack, Version};

fn hash(seed: u8) -> BlockHeaderHash {
    let mut bytes = vec![seed; 32];
    bytes[0] = seed.wrapping_add(1);
    BlockHeaderHash::new(bytes)
}

fn all_payloads() -> Vec<Payload> {
    vec![
        Payload::Block(vec![1, 2, 3]),
        Payload::GetBlocks(vec![hash(1), hash(2)]),
        Payload::GetMemoryPool,
        Payload::GetPeers,
        Payload::GetSync(vec![hash(3)]),
        Payload::MemoryPool(vec![vec![9, 9], vec![], vec![1]]),
        Payload::Ping(2),
        Payload::Pong,
        Payload::Sync(vec![hash(4), hash(5), hash(6)]),
        Payload::SyncBlock(vec![7; 40]),
        Payload::Transaction(vec![]),
        Payload::Verack(Verack::new(0xdead_beef_dead_beef)),
        Payload::Version(Version::new(1, 4131, 7, 42)),
        Payload::Peers(vec![PeerAddress::new(0x7f000001, 4131), PeerAddress::new(9, 80)]),
    ]
}

#[test]
fn decode_inverts_encode_for_every_variant() {
    for payload in all_payloads() {
        let bytes = encode(&payload).unwrap();
        let back = decode(&bytes).unwrap();
        assert_eq!(back, payload);
    }
}

#[test]
fn encode_inverts_decode_for_valid_frames() {
    for payload in all_payloads() {
        let bytes = encode(&payload).unwrap();
        let back = decode(&bytes).unwrap();
        let bytes_again = encode(&back).unwrap();
        assert_eq!(bytes_again, bytes);
    }
}

#[test]
fn ping_has_its_documented_wire_shape() {
    // Tag 6, then the height as four little-endian bytes.
    let bytes = encode(&Payload::Ping(2)).unwrap();
    assert_eq!(bytes, vec![6, 2, 0, 0, 0]);
    assert_eq!(decode(&vec![6, 2, 0, 0, 0]).unwrap(), Payload::Ping(2));
}

#[test]
fn decode_rejects_unknown_tags() {
    assert_eq!(decode(&vec![14]), Err(CodecError::MalformedFrame));
    assert_eq!(decode(&vec![255, 0, 0]), Err(CodecError::MalformedFrame));
}

#[test]
fn decode_rejects_empty_input() {
    assert_eq!(decode(&vec![]), Err(CodecError::MalformedFrame));
}

#[test]
fn decode_rejects_trailing_bytes() {
    let mut bytes = encode(&Payload::Pong).unwrap();
    bytes.push(0);
    assert_eq!(decode(&bytes), Err(CodecError::MalformedFrame));
}

#[test]
fn decode_rejects_truncated_fields() {
    // A block claiming four payload bytes but carrying three.
    let bytes = vec![0u8, 4, 0, 0, 0, 1, 2, 3];
    assert_eq!(decode(&bytes), Err(CodecError::MalformedFrame));
}

#[test]
fn decode_rejects_wrong_hash_count() {
    // A sync list claiming two hashes but carrying one.
    let mut bytes = vec![8u8, 2, 0, 0, 0];
    bytes.extend_from_slice(&[0u8; 32]);
    assert_eq!(decode(&bytes), Err(CodecError::MalformedFrame));
}

#[test]
fn encode_refuses_oversize_payloads() {
    let big = vec![0u8; 16 * 1024 * 1024];
    assert_eq!(encode(&Payload::Block(big)), Err(CodecError::EncodingTooLarge));
}

#[test]
fn frame_prefixes_the_payload_length() {
    let frame = encode_frame(&Payload::Pong).unwrap();
    assert_eq!(frame, vec![1, 0, 0, 0, 7]);
}

#[test]
fn read_frame_takes_one_frame_and_counts_consumed_bytes() {
    let mut buffer = encode_frame(&Payload::Ping(7)).unwrap();
    let extra = encode_frame(&Payload::Pong).unwrap();
    buffer.extend_from_slice(&extra);

    let (payload_bytes, consumed) = read_frame(&buffer).unwrap();
    assert_eq!(consumed, 9);
    assert_eq!(decode(&payload_bytes).unwrap(), Payload::Ping(7));

    let rest: Vec<u8> = buffer[consumed..].to_vec();
    let (payload_bytes, consumed) = read_frame(&rest).unwrap();
    assert_eq!(consumed, 5);
    assert_eq!(decode(&payload_bytes).unwrap(), Payload::Pong);
}

#[test]
fn read_frame_answers_need_more_on_partial_input() {
    assert_eq!(read_frame(&vec![5, 0]), Err(CodecError::NeedMore));
    // A full length prefix, but not yet the five payload bytes.
    assert_eq!(read_frame(&vec![5, 0, 0, 0, 6, 2]), Err(CodecError::NeedMore));
}

#[test]
fn read_frame_rejects_oversize_declared_lengths() {
    // 17 MiB declared.
    let declared: u32 = 17 * 1024 * 1024;
    let bytes = declared.to_le_bytes().to_vec();
    assert_eq!(read_frame(&bytes), Err(CodecError::FrameTooLarge));
}
