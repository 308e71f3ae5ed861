use rustdds::dds::ddsdata::DDSData;
use rustdds::dds::traits::{Key, Keyed, SerializerAdapter};
use rustdds::messages::serialized_payload::{RepresentationIdentifier, SerializedPayload};
use rustdds::serialization::{Endianness, Error};
use rustdds::structure::cache_change::ChangeKind;
use rustdds::structure::guid::EntityId;
use rustdds::structure::inline_qos::{KeyHash, StatusInfo, StatusInfoEnum, STATUS_INFO_ALL_FLAGS};
use rustdds::structure::time::Timestamp;
use rustdds::test::random_data::{RandomData, RandomDataCdr};
use rustdds::test::shape_type::{ShapeType, ShapeTypeCdr};

#[test]
fn new_sample_is_alive_and_unaddressed() {
    let payload = SerializedPayload::new(RepresentationIdentifier::CDR_BE, vec![1, 2, 3]);
    let data = DDSData::new(payload.clone());
    assert_eq!(data.change_kind, ChangeKind::ALIVE);
    assert_eq!(data.value_key_hash, 0);
    assert_eq!(*data.reader_id(), EntityId::unknown());
    assert_eq!(*data.writer_id(), EntityId::unknown());
    assert!(data.value() == Some(payload));
    assert_eq!(data.data().as_ref(), &[1, 2, 3]);
    // the clock is read: the sample is of this century
    assert!(data.source_timestamp().seconds > 1_000_000_000);
}

#[test]
fn payload_holds_what_it_was_made_of() {
    let payload = SerializedPayload::new(RepresentationIdentifier::PL_CDR_LE, vec![9, 8, 7]);
    assert_eq!(payload.representation_identifier, 3);
    assert_eq!(payload.representation_options, [0, 0]);
    assert_eq!(payload.value.as_ref(), &[9, 8, 7]);
    assert!(payload == payload.clone());
    assert!(payload != SerializedPayload::new(RepresentationIdentifier::PL_CDR_LE, vec![9, 8]));
    assert!(payload != SerializedPayload::new(RepresentationIdentifier::CDR_LE, vec![9, 8, 7]));
}

#[test]
fn disposed_sample_takes_kind_and_key() {
    let status = StatusInfo::empty().with(StatusInfoEnum::Unregistered);
    let data = DDSData::new_disposed(Some(status), Some(KeyHash::new(77)));
    assert_eq!(data.change_kind, ChangeKind::NOT_ALIVE_UNREGISTERED);
    assert_eq!(data.value_key_hash, 77);
    assert!(data.value().is_none());
    assert!(data.data().is_empty());

    let plain = DDSData::new_disposed(None, None);
    assert_eq!(plain.change_kind, ChangeKind::ALIVE);
    assert_eq!(plain.value_key_hash, 0);

    let at = Timestamp { seconds: 5, fraction: 6 };
    let both = StatusInfo::empty().with(StatusInfoEnum::Disposed).with(StatusInfoEnum::Unregistered);
    let timed = DDSData::new_disposed_with_timestamp(Some(both), None, at);
    assert_eq!(timed.change_kind, ChangeKind::NOT_ALIVE_DISPOSED);
    assert_eq!(timed.source_timestamp(), at);
}

#[test]
fn sample_of_a_value_is_serialized() {
    let value = RandomData { a: 2, b: "hi".to_string() };
    let at = Timestamp { seconds: 1, fraction: 2 };
    let data = DDSData::from::<RandomData, RandomDataCdr>(&value, Some(at));
    assert_eq!(data.source_timestamp(), at);
    assert_eq!(data.change_kind, ChangeKind::ALIVE);
    let payload = data.value().unwrap();
    assert_eq!(payload.representation_identifier, RepresentationIdentifier::CDR_LE.to_u16());
    assert_eq!(
        payload.value.as_ref(),
        &[2, 0, 0, 0, 0, 0, 0, 0, 3, 0, 0, 0, b'h', b'i', 0]
    );
    let now = DDSData::from::<RandomData, RandomDataCdr>(&value, None);
    assert!(now.source_timestamp().seconds > 1_000_000_000);
}

#[test]
fn dispose_of_a_key_carries_its_hash() {
    let at = Timestamp { seconds: 3, fraction: 4 };
    let data = DDSData::from_dispose::<ShapeType, ShapeTypeCdr>(5, Some(at));
    assert_eq!(data.change_kind, ChangeKind::NOT_ALIVE_DISPOSED);
    assert_eq!(data.change_kind(), ChangeKind::NOT_ALIVE_DISPOSED);
    // the payload holds the key alone
    let payload = data.value().unwrap();
    assert_eq!(payload.representation_identifier, RepresentationIdentifier::CDR_LE.to_u16());
    assert_eq!(payload.representation_options, [0, 0]);
    assert_eq!(payload.value.as_ref(), &[5, 0, 0, 0]);
    assert_eq!(data.data().as_ref(), &[5, 0, 0, 0]);
    assert_eq!(data.value_key_hash, 5u128 << 96);
    assert_eq!(data.value_key_hash(), 5i32.into_hash_key());
    assert_eq!(data.source_timestamp(), at);
    assert_eq!(ShapeType::new(5).get_key(), 5);
    assert_eq!(ShapeTypeCdr::to_bytes(&ShapeType::new(-2)), Ok(vec![0xfe, 0xff, 0xff, 0xff]));
    assert_eq!(ShapeTypeCdr::to_bytes(&7i32), Ok(vec![7, 0, 0, 0]));

    let wide = DDSData::from_dispose::<RandomData, RandomDataCdr>(-2, None);
    assert_eq!(wide.change_kind(), ChangeKind::NOT_ALIVE_DISPOSED);
    assert_eq!(wide.value().unwrap().value.as_ref(), &[0xfe, 0xff, 0xff, 0xff, 0xff, 0xff, 0xff, 0xff]);
    assert_eq!(wide.value_key_hash(), (-2i64).into_hash_key());
    assert!(wide.source_timestamp().seconds > 1_000_000_000);

    let named = DDSData::new_dispose_with_timestamp(
        SerializedPayload::new(RepresentationIdentifier::CDR_BE, vec![0, 0, 0, 9]),
        KeyHash::new(9),
        at,
    );
    assert_eq!(named.change_kind(), ChangeKind::NOT_ALIVE_DISPOSED);
    assert_eq!(named.value_key_hash(), 9);
    assert_eq!(named.data().as_ref(), &[0, 0, 0, 9]);
    assert_eq!(named.source_timestamp(), at);
}

#[test]
fn endpoints_can_be_named() {
    let mut data = DDSData::new_disposed(None, None);
    let reader = EntityId::createCustomEntityID([1, 2, 3], 7);
    let writer = EntityId::createCustomEntityID([4, 5, 6], 2);
    data.set_reader_id(reader);
    data.set_writer_id(writer);
    assert_eq!(*data.reader_id(), reader);
    assert_eq!(*data.writer_id(), writer);
    let copy = data.clone();
    assert!(copy == data);
    data.set_writer_id(reader);
    assert!(copy != data);
}

#[test]
fn status_flags() {
    let empty = StatusInfo::empty();
    assert!(!empty.contains(StatusInfoEnum::Disposed));
    assert_eq!(empty.change_kind(), ChangeKind::ALIVE);
    let filtered = empty.with(StatusInfoEnum::Filtered);
    assert!(filtered.contains(StatusInfoEnum::Filtered));
    assert!(!filtered.contains(StatusInfoEnum::Unregistered));
    assert_eq!(filtered.change_kind(), ChangeKind::ALIVE);
    assert_eq!(filtered.into_cdr_bytes(Endianness::BigEndian).unwrap(), vec![0, 0, 0, 4]);
    let unregistered = filtered.with(StatusInfoEnum::Unregistered);
    assert_eq!(unregistered.change_kind(), ChangeKind::NOT_ALIVE_UNREGISTERED);
    let disposed = unregistered.with(StatusInfoEnum::Disposed);
    assert_eq!(disposed.change_kind(), ChangeKind::NOT_ALIVE_DISPOSED);
    assert_eq!(disposed.into_cdr_bytes(Endianness::LittleEndian).unwrap(), vec![0, 0, 0, 7]);
    assert_eq!(StatusInfoEnum::Disposed.bits(), 1);
    assert_eq!(StatusInfoEnum::Unregistered.bits(), 2);
    assert_eq!(StatusInfoEnum::Filtered.bits(), 4);
    assert_eq!(STATUS_INFO_ALL_FLAGS, 7);
}

#[test]
fn status_decoding_errors() {
    let le = RepresentationIdentifier::CDR_LE;
    assert_eq!(StatusInfo::from_cdr_bytes(&vec![0, 0, 3], le), Err(Error::Eof));
    assert_eq!(
        StatusInfo::from_cdr_bytes(&vec![0, 0, 0, 8], le),
        Err(Error::InvalidFlags(8))
    );
    assert_eq!(
        StatusInfo::from_cdr_bytes(&vec![0, 0, 0, 1], RepresentationIdentifier::XML),
        Err(Error::UnknownRepresentation)
    );
    // reserved octets are carried, octets behind the fourth are not read
    let carried = StatusInfo::from_cdr_bytes(&vec![5, 6, 7, 2, 99], RepresentationIdentifier::PL_CDR_BE)
        .unwrap();
    assert_eq!(carried.into_cdr_bytes(Endianness::BigEndian).unwrap(), vec![5, 6, 7, 2]);
}

#[test]
fn key_hash_decoding() {
    let octets: Vec<u8> = (1..=16).collect();
    let be = KeyHash::from_cdr_bytes(&octets, RepresentationIdentifier::PL_CDR_BE).unwrap();
    assert_eq!(be.value(), 0x0102030405060708090a0b0c0d0e0f10);
    let le = KeyHash::from_cdr_bytes(&octets, RepresentationIdentifier::PL_CDR_LE).unwrap();
    assert_eq!(le.value(), 0x100f0e0d0c0b0a090807060504030201);
    assert_eq!(be.into_cdr_bytes(Endianness::BigEndian).unwrap(), octets);
    assert_eq!(le.into_cdr_bytes(Endianness::LittleEndian).unwrap(), octets);
    // any other encoding gives the hash of no key, whatever the octets
    let other = KeyHash::from_cdr_bytes(&vec![1, 2], RepresentationIdentifier::XML).unwrap();
    assert_eq!(other, KeyHash::empty());
    assert_eq!(
        KeyHash::from_cdr_bytes(&octets[..15].to_vec(), RepresentationIdentifier::CDR_BE),
        Err(Error::IOError)
    );
    assert_eq!(KeyHash::empty().value(), 0);
}

#[test]
fn representation_identifiers() {
    let all = [
        (RepresentationIdentifier::CDR_BE, 0x0000),
        (RepresentationIdentifier::CDR_LE, 0x0001),
        (RepresentationIdentifier::PL_CDR_BE, 0x0002),
        (RepresentationIdentifier::PL_CDR_LE, 0x0003),
        (RepresentationIdentifier::XML, 0x0004),
        (RepresentationIdentifier::CDR2_BE, 0x0010),
        (RepresentationIdentifier::CDR2_LE, 0x0011),
        (RepresentationIdentifier::PL_CDR2_BE, 0x0012),
        (RepresentationIdentifier::PL_CDR2_LE, 0x0013),
        (RepresentationIdentifier::D_CDR_BE, 0x0014),
        (RepresentationIdentifier::D_CDR_LE, 0x0015),
    ];
    for (id, n) in all {
        assert_eq!(id.to_u16(), n);
        assert_eq!(RepresentationIdentifier::try_from_u16(n), Ok(id));
    }
    assert_eq!(RepresentationIdentifier::try_from_u16(5), Err(5));
    assert_eq!(
        RepresentationIdentifier::CDR_LE.cdr_endianness(),
        Some(Endianness::LittleEndian)
    );
    assert_eq!(
        RepresentationIdentifier::PL_CDR_BE.cdr_endianness(),
        Some(Endianness::BigEndian)
    );
    assert_eq!(RepresentationIdentifier::CDR2_LE.cdr_endianness(), None);
}

#[test]
fn timestamps() {
    assert_eq!(Timestamp::time_invalid(), Timestamp { seconds: u32::MAX, fraction: u32::MAX });
    assert_eq!(Timestamp::time_zero(), Timestamp { seconds: 0, fraction: 0 });
    assert_eq!(
        Timestamp::from_unix_time(10, 500_000_000),
        Timestamp { seconds: 10, fraction: 0x8000_0000 }
    );
    assert_eq!(
        Timestamp::from_unix_time((1u64 << 32) + 3, 999_999_999),
        Timestamp { seconds: 3, fraction: 4_294_967_291 }
    );
    let a = Timestamp::now();
    assert!(a.seconds > 1_000_000_000);
}
