use relnet::header::{
    decode_datagram, encode_datagram, parse_confirmations, DatagramHeader, DatagramId,
    ProtocolError,
};
use relnet::messages::{HEADER_SIZE, MAX_DATAGRAM_SIZE, MAX_MESSAGE_SIZE};

#[test]
fn id_encoding_is_big_endian_three_bytes() {
    let id = DatagramId::try_from_u32(1042).unwrap();
    assert_eq!(id.to_bytes(), &[0, 4, 18]);
    assert_eq!(id.to_u32(), 1042);
    let id = DatagramId::try_from_u32(0xAABBCC).unwrap();
    assert_eq!(id.to_bytes(), &[0xAA, 0xBB, 0xCC]);
}

#[test]
fn id_construction_rejects_values_out_of_range() {
    assert!(DatagramId::try_from_u32(16777215).is_ok());
    assert!(DatagramId::try_from_u32(16777216).is_err());
    assert!(DatagramId::try_from_u32(u32::MAX).is_err());
}

#[test]
fn id_roundtrip_and_wraparound() {
    let id = DatagramId::try_from_u32(123456).unwrap();
    let b = id.to_bytes();
    assert_eq!(DatagramId::from_bytes(b[0], b[1], b[2]).to_u32(), 123456);
    let last = DatagramId::try_from_u32(16777215).unwrap();
    assert_eq!(last.wrapping_next().to_u32(), 0);
    assert_eq!(DatagramId::try_from_u32(7).unwrap().wrapping_next().to_u32(), 8);
}

#[test]
fn datagram_roundtrip() {
    let payload = vec![9u8, 8, 7, 6, 5];
    let header = DatagramHeader::Data {
        reliable: true,
        id: DatagramId::try_from_u32(1042).unwrap(),
    };
    let wire = encode_datagram(header, &payload).unwrap();
    assert_eq!(wire.len(), payload.len() + HEADER_SIZE);
    let (h, p) = decode_datagram(&wire).unwrap();
    assert_eq!(h, header);
    assert_eq!(p, payload);

    let wire = encode_datagram(DatagramHeader::Confirmation, &vec![0u8, 0, 43]).unwrap();
    let (h, p) = decode_datagram(&wire).unwrap();
    assert_eq!(h, DatagramHeader::Confirmation);
    assert_eq!(p, vec![0u8, 0, 43]);
}

#[test]
fn encode_rejects_oversized_payload() {
    let payload = vec![0u8; MAX_MESSAGE_SIZE + 1];
    assert_eq!(
        encode_datagram(DatagramHeader::Confirmation, &payload),
        Err(ProtocolError::Oversize)
    );
    let payload = vec![0u8; MAX_MESSAGE_SIZE];
    assert!(encode_datagram(DatagramHeader::Confirmation, &payload).is_ok());
}

#[test]
fn decode_rejects_malformed_datagrams() {
    assert_eq!(decode_datagram(&vec![0u8, 0, 0]), Err(ProtocolError::TooShort));
    assert_eq!(
        decode_datagram(&vec![0u8; MAX_DATAGRAM_SIZE + 1]),
        Err(ProtocolError::Oversize)
    );
    // An unrecognized kind tag is a protocol error, not a panic.
    assert_eq!(
        decode_datagram(&vec![3u8, 0, 0, 0, 1, 2]),
        Err(ProtocolError::UnknownKind)
    );
}

#[test]
fn confirmation_payload_parses_to_ids() {
    let data = vec![0u8, 4, 18, 0, 0, 43];
    let ids = parse_confirmations(&data).unwrap();
    assert_eq!(ids.len(), 2);
    assert_eq!(ids[0].to_u32(), 1042);
    assert_eq!(ids[1].to_u32(), 43);
    assert_eq!(
        parse_confirmations(&vec![1u8, 2, 3, 4]),
        Err(ProtocolError::Misaligned)
    );
}
