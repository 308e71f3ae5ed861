use rustdds::messages::serialized_payload::RepresentationIdentifier;
use rustdds::serialization::Endianness;
use rustdds::structure::inline_qos::{KeyHash, StatusInfo, StatusInfoEnum};

#[test]
fn inline_qos_status_info() {
    // Little endian
    let si_bytes = StatusInfo::empty()
        .with(StatusInfoEnum::Disposed)
        .with(StatusInfoEnum::Unregistered)
        .into_cdr_bytes(Endianness::LittleEndian)
        .unwrap();

    let bytes: Vec<u8> = vec![0x00, 0x00, 0x00, 0x03];
    assert_eq!(si_bytes, bytes);

    let status_info = StatusInfo::from_cdr_bytes(&bytes, RepresentationIdentifier::CDR_LE).unwrap();
    assert_eq!(
        status_info,
        StatusInfo::empty()
            .with(StatusInfoEnum::Disposed)
            .with(StatusInfoEnum::Unregistered)
    );

    // Big endian
    let si_bytes = StatusInfo::empty()
        .with(StatusInfoEnum::Disposed)
        .with(StatusInfoEnum::Unregistered)
        .into_cdr_bytes(Endianness::BigEndian)
        .unwrap();

    let bytes: Vec<u8> = vec![0x00, 0x00, 0x00, 0x03];
    assert_eq!(si_bytes, bytes);

    let status_info = StatusInfo::from_cdr_bytes(&bytes, RepresentationIdentifier::CDR_BE).unwrap();
    assert_eq!(
        status_info,
        StatusInfo::empty()
            .with(StatusInfoEnum::Disposed)
            .with(StatusInfoEnum::Unregistered)
    );
}

#[test]
fn inline_qos_key_hash() {
    // Little endian
    let hbytes = KeyHash::new(1)
        .into_cdr_bytes(Endianness::LittleEndian)
        .unwrap();

    let bytes: Vec<u8> = vec![
        0x01, 0x00, 0x00, 0x00, 0x00, 0x00, 0x00, 0x00, 0x00, 0x00, 0x00, 0x00, 0x00, 0x00, 0x00,
        0x00,
    ];
    assert_eq!(hbytes, bytes);

    let key_hash = KeyHash::from_cdr_bytes(&bytes, RepresentationIdentifier::CDR_LE).unwrap();
    assert_eq!(KeyHash::new(1), key_hash);

    // Big endian
    let hbytes = KeyHash::new(1)
        .into_cdr_bytes(Endianness::BigEndian)
        .unwrap();
    let bytes: Vec<u8> = vec![
        0x00, 0x00, 0x00, 0x00, 0x00, 0x00, 0x00, 0x00, 0x00, 0x00, 0x00, 0x00, 0x00, 0x00, 0x00,
        0x01,
    ];
    assert_eq!(hbytes, bytes);
    let key_hash = KeyHash::from_cdr_bytes(&bytes, RepresentationIdentifier::CDR_BE).unwrap();
    assert_eq!(KeyHash::new(1), key_hash);
}
