use rustdds::dds::qos::{Deadline, Durability, History, Ownership, QosPolicies, Reliability};
use rustdds::discovery::announcement::{
    participant_announced, reader_announced, writer_announced, EndpointNews, ParticipantNews,
};
use rustdds::discovery::data_types::{DiscoveredEndpointData, SPDPDiscoveredParticipantData};
use rustdds::discovery::discovery::participant_dispose;
use rustdds::discovery::discovery_db::DiscoveryDB;
use rustdds::discovery::parameter_list::{get_parameter_list, put_parameter_list, Parameter};
use rustdds::discovery::wire::{
    endpoint_payload, key_hash_of_guid, participant_payload, read_endpoint,
    read_endpoint_payload, read_guid_of_key_hash, read_participant, read_participant_payload,
    write_endpoint, write_participant, MAX_TEXT_OCTETS,
};
use rustdds::messages::serialized_payload::{RepresentationIdentifier, SerializedPayload};
use rustdds::serialization::{Endianness, Error};
use rustdds::structure::cache_change::{CacheChange, ChangeKind};
use rustdds::structure::guid::{EntityId, GuidPrefix, GUID};
use rustdds::structure::locator::Locator;
use rustdds::structure::sequence_number::SequenceNumber;
use rustdds::structure::time::{Duration, Timestamp};

fn wire_guid(participant: u8, entity: u8, kind: u8) -> GUID {
    GUID::new_with_prefix_and_id(
        GuidPrefix::new(vec![participant; 12]),
        EntityId::createCustomEntityID([0, 0, entity], kind),
    )
}

fn wire_participant(n: u8) -> SPDPDiscoveredParticipantData {
    SPDPDiscoveredParticipantData {
        participant_guid: GUID::new_with_prefix_and_id(
            GuidPrefix::new(vec![n; 12]),
            EntityId::participant(),
        ),
        protocol_major: 2,
        protocol_minor: 3,
        vendor_id0: 1,
        vendor_id1: 18,
        default_unicast_locators: vec![Locator::udp_v4(127, 0, 0, 1, 7411)],
        default_multicast_locators: vec![],
        metatraffic_unicast_locators: vec![],
        metatraffic_multicast_locators: vec![],
        lease_duration: Duration::from_secs(100),
    }
}

fn full_participant() -> SPDPDiscoveredParticipantData {
    SPDPDiscoveredParticipantData {
        participant_guid: wire_guid(9, 1, 0xc1),
        protocol_major: 2,
        protocol_minor: 4,
        vendor_id0: 0xab,
        vendor_id1: 0xcd,
        default_unicast_locators: vec![
            Locator::udp_v4(10, 0, 0, 1, 7411),
            Locator::udp_v4(10, 0, 0, 2, 7413),
        ],
        default_multicast_locators: vec![Locator::udp_v4(239, 255, 0, 1, 7401)],
        metatraffic_unicast_locators: vec![Locator::udp_v4(10, 0, 0, 1, 7410)],
        metatraffic_multicast_locators: vec![
            Locator::udp_v4(239, 255, 0, 1, 7400),
            Locator { kind: -1, port: 0xffff_ffff, address: [0xee; 16] },
        ],
        lease_duration: Duration { seconds: -3, fraction: 0x8000_0001 },
    }
}

fn same_participant(a: &SPDPDiscoveredParticipantData, b: &SPDPDiscoveredParticipantData) -> bool {
    a.participant_guid == b.participant_guid
        && a.protocol_major == b.protocol_major
        && a.protocol_minor == b.protocol_minor
        && a.vendor_id0 == b.vendor_id0
        && a.vendor_id1 == b.vendor_id1
        && a.default_unicast_locators == b.default_unicast_locators
        && a.default_multicast_locators == b.default_multicast_locators
        && a.metatraffic_unicast_locators == b.metatraffic_unicast_locators
        && a.metatraffic_multicast_locators == b.metatraffic_multicast_locators
        && a.lease_duration == b.lease_duration
}

fn wire_endpoint(g: GUID, topic: &str, typ: &str, qos: QosPolicies) -> DiscoveredEndpointData {
    DiscoveredEndpointData {
        guid: g,
        topic_name: topic.to_string(),
        data_type_name: typ.to_string(),
        qos,
        unicast_locators: vec![Locator::udp_v4(10, 0, 0, 7, 7411)],
        multicast_locators: vec![Locator::udp_v4(239, 255, 0, 1, 7401)],
    }
}

fn same_endpoint(a: &DiscoveredEndpointData, b: &DiscoveredEndpointData) -> bool {
    a.guid == b.guid
        && a.topic_name == b.topic_name
        && a.data_type_name == b.data_type_name
        && a.qos == b.qos
        && a.unicast_locators == b.unicast_locators
        && a.multicast_locators == b.multicast_locators
}

fn every_policy() -> QosPolicies {
    QosPolicies {
        durability: Some(Durability::TransientLocal),
        deadline: Some(Deadline { period: Duration { seconds: 2, fraction: 0x4000_0000 } }),
        ownership: Some(Ownership::Exclusive),
        reliability: Some(Reliability::Reliable),
        history: Some(History::KeepLast { depth: 5 }),
    }
}

fn alive(writer: GUID, sn: i64, payload: SerializedPayload) -> CacheChange {
    CacheChange::new(ChangeKind::ALIVE, writer, SequenceNumber(sn), Some(payload), 0)
}

fn gone(writer: GUID, sn: i64, about: GUID) -> CacheChange {
    CacheChange::new(
        ChangeKind::NOT_ALIVE_DISPOSED,
        writer,
        SequenceNumber(sn),
        None,
        key_hash_of_guid(about),
    )
}

#[test]
fn participant_record_octet_by_octet() {
    let d = wire_participant(7);
    let little = write_participant(&d, Endianness::LittleEndian);
    let mut expected: Vec<u8> = vec![
        0x15, 0x00, 0x04, 0x00, 2, 3, 0, 0, // version
        0x16, 0x00, 0x04, 0x00, 1, 18, 0, 0, // vendor
        0x50, 0x00, 0x10, 0x00, // GUID
        7, 7, 7, 7, 7, 7, 7, 7, 7, 7, 7, 7, 0x00, 0x00, 0x01, 0xc1,
        0x02, 0x00, 0x08, 0x00, 100, 0, 0, 0, 0, 0, 0, 0, // lease
        0x31, 0x00, 0x18, 0x00, // locator
        1, 0, 0, 0, 0xf3, 0x1c, 0, 0,
    ];
    expected.extend_from_slice(&[0; 12]);
    expected.extend_from_slice(&[127, 0, 0, 1]);
    expected.extend_from_slice(&[0x01, 0x00, 0x00, 0x00]);
    assert_eq!(little, expected);

    let big = write_participant(&d, Endianness::BigEndian);
    let mut expected: Vec<u8> = vec![
        0x00, 0x15, 0x00, 0x04, 2, 3, 0, 0, // version
        0x00, 0x16, 0x00, 0x04, 1, 18, 0, 0, // vendor
        0x00, 0x50, 0x00, 0x10, // GUID
        7, 7, 7, 7, 7, 7, 7, 7, 7, 7, 7, 7, 0x00, 0x00, 0x01, 0xc1,
        0x00, 0x02, 0x00, 0x08, 0, 0, 0, 100, 0, 0, 0, 0, // lease
        0x00, 0x31, 0x00, 0x18, // locator
        0, 0, 0, 1, 0, 0, 0x1c, 0xf3,
    ];
    expected.extend_from_slice(&[0; 12]);
    expected.extend_from_slice(&[127, 0, 0, 1]);
    expected.extend_from_slice(&[0x00, 0x01, 0x00, 0x00]);
    assert_eq!(big, expected);
}

#[test]
fn participant_record_comes_back() {
    for e in [Endianness::LittleEndian, Endianness::BigEndian] {
        for d in [wire_participant(3), full_participant()] {
            let octets = write_participant(&d, e);
            assert_eq!(octets.len() % 4, 0);
            let back = read_participant(&octets, e).unwrap();
            assert!(same_participant(&d, &back));
            // what follows the sentinel is not read
            let mut longer = octets.clone();
            longer.extend_from_slice(&[0xff, 0xff, 0xff]);
            assert!(same_participant(&d, &read_participant(&longer, e).unwrap()));
        }
    }
}

#[test]
fn participant_of_no_parameters_is_blank() {
    let d = read_participant(&[0x01, 0x00, 0x00, 0x00], Endianness::LittleEndian).unwrap();
    assert!(d.participant_guid == GUID::new());
    assert_eq!((d.protocol_major, d.protocol_minor, d.vendor_id0, d.vendor_id1), (0, 0, 0, 0));
    assert_eq!(d.lease_duration, Duration { seconds: 100, fraction: 0 });
    assert!(d.default_unicast_locators.is_empty());
    assert!(d.default_multicast_locators.is_empty());
    assert!(d.metatraffic_unicast_locators.is_empty());
    assert!(d.metatraffic_multicast_locators.is_empty());
}

#[test]
fn later_parameters_replace_and_unknown_ones_are_passed_over() {
    let octets: Vec<u8> = vec![
        0x16, 0x00, 0x04, 0x00, 1, 2, 0, 0, // vendor
        0x34, 0x12, 0x04, 0x00, 9, 9, 9, 9, // an id that names nothing here
        0x16, 0x00, 0x02, 0x00, 3, 4, // vendor once more, in two octets
        0x34, 0x12, 0x00, 0x00, // no value at all
        0x01, 0x00, 0x00, 0x00,
    ];
    let d = read_participant(&octets, Endianness::LittleEndian).unwrap();
    assert_eq!((d.vendor_id0, d.vendor_id1), (3, 4));
}

#[test]
fn participant_records_that_cannot_be_read() {
    let le = Endianness::LittleEndian;
    // no sentinel
    assert_eq!(read_participant(&[], le).err(), Some(Error::Eof));
    assert_eq!(read_participant(&[0x16, 0x00, 0x04, 0x00, 1, 2, 0, 0], le).err(), Some(Error::Eof));
    assert_eq!(read_participant(&[0x01, 0x00, 0x00], le).err(), Some(Error::Eof));
    // a value that ends before its count
    assert_eq!(read_participant(&[0x16, 0x00, 0x08, 0x00, 1, 2, 0, 0], le).err(), Some(Error::Eof));
    // values shorter than what they hold
    let short = |id: u8, n: u8| {
        let mut octets = vec![id, 0x00, n, 0x00];
        octets.extend(std::iter::repeat(0).take(n as usize));
        octets.extend_from_slice(&[0x01, 0x00, 0x00, 0x00]);
        read_participant(&octets, Endianness::LittleEndian).err()
    };
    assert_eq!(short(0x15, 1), Some(Error::Malformed));
    assert_eq!(short(0x16, 0), Some(Error::Malformed));
    assert_eq!(short(0x50, 12), Some(Error::Malformed));
    assert_eq!(short(0x02, 4), Some(Error::Malformed));
    assert_eq!(short(0x31, 20), Some(Error::Malformed));
    assert_eq!(short(0x48, 20), Some(Error::Malformed));
    assert_eq!(short(0x32, 20), Some(Error::Malformed));
    assert_eq!(short(0x33, 23), Some(Error::Malformed));
    assert_eq!(short(0x33, 24), None);
    // the byte order decides which id is the sentinel
    assert_eq!(
        read_participant(&[0x00, 0x01, 0x00, 0x00], Endianness::LittleEndian).err(),
        Some(Error::Eof)
    );
    assert!(read_participant(&[0x00, 0x01, 0x00, 0x00], Endianness::BigEndian).is_ok());
}

#[test]
fn endpoint_record_octet_by_octet() {
    let mut qos = QosPolicies::qos_none();
    qos.reliability = Some(Reliability::Reliable);
    qos.history = Some(History::KeepLast { depth: -2 });
    let d = DiscoveredEndpointData {
        guid: wire_guid(5, 1, 2),
        topic_name: "Square".to_string(),
        data_type_name: "Sé".to_string(),
        qos,
        unicast_locators: vec![],
        multicast_locators: vec![],
    };
    let octets = write_endpoint(&d, Endianness::LittleEndian).unwrap();
    let expected: Vec<u8> = vec![
        0x5a, 0x00, 0x10, 0x00, // GUID
        5, 5, 5, 5, 5, 5, 5, 5, 5, 5, 5, 5, 0, 0, 1, 2,
        0x05, 0x00, 0x0c, 0x00, // topic: seven octets with the zero, one more to fill
        7, 0, 0, 0, b'S', b'q', b'u', b'a', b'r', b'e', 0, 0,
        0x07, 0x00, 0x08, 0x00, // type: four octets with the zero, none to fill
        4, 0, 0, 0, b'S', 0xc3, 0xa9, 0,
        0x1a, 0x00, 0x0c, 0x00, // reliable, and a tenth of a second
        2, 0, 0, 0, 0, 0, 0, 0, 0x9a, 0x99, 0x99, 0x19,
        0x40, 0x00, 0x08, 0x00, // the newest, minus two
        0, 0, 0, 0, 0xfe, 0xff, 0xff, 0xff,
        0x01, 0x00, 0x00, 0x00,
    ];
    assert_eq!(octets, expected);
}

#[test]
fn endpoint_record_comes_back() {
    let mut keep_all = QosPolicies::qos_none();
    keep_all.history = Some(History::KeepAll);
    keep_all.durability = Some(Durability::Persistent);
    keep_all.ownership = Some(Ownership::Shared);
    keep_all.reliability = Some(Reliability::BestEffort);
    let mut volatile = QosPolicies::qos_none();
    volatile.durability = Some(Durability::Volatile);
    let mut transient = QosPolicies::qos_none();
    transient.durability = Some(Durability::Transient);
    for e in [Endianness::LittleEndian, Endianness::BigEndian] {
        for qos in [QosPolicies::qos_none(), every_policy(), keep_all, volatile, transient] {
            for (topic, typ) in [("", ""), ("a", "ab"), ("abc", "abcd"), ("ÅÄÖ 🦀", "T::U")] {
                let d = wire_endpoint(wire_guid(4, 2, 7), topic, typ, qos);
                let octets = write_endpoint(&d, e).unwrap();
                assert_eq!(octets.len() % 4, 0);
                let back = read_endpoint(&octets, e).unwrap();
                assert!(same_endpoint(&d, &back));
            }
        }
    }
}

#[test]
fn names_that_do_not_fit_are_refused() {
    let fits = "x".repeat(MAX_TEXT_OCTETS);
    let too_long = "x".repeat(MAX_TEXT_OCTETS + 1);
    let e = Endianness::BigEndian;
    let d = wire_endpoint(wire_guid(4, 2, 7), &fits, &fits, QosPolicies::qos_none());
    let octets = write_endpoint(&d, e).unwrap();
    assert!(same_endpoint(&d, &read_endpoint(&octets, e).unwrap()));
    let d = wire_endpoint(wire_guid(4, 2, 7), &too_long, "T", QosPolicies::qos_none());
    assert_eq!(write_endpoint(&d, e).err(), Some(Error::SequenceTooLong));
    let d = wire_endpoint(wire_guid(4, 2, 7), "t", &too_long, QosPolicies::qos_none());
    assert_eq!(write_endpoint(&d, e).err(), Some(Error::SequenceTooLong));
    assert!(endpoint_payload(&d, e).is_err());
    // the octets count, not the characters
    let wide = "é".repeat(MAX_TEXT_OCTETS / 2 + 1);
    let d = wire_endpoint(wire_guid(4, 2, 7), &wide, "T", QosPolicies::qos_none());
    assert_eq!(write_endpoint(&d, e).err(), Some(Error::SequenceTooLong));
}

#[test]
fn endpoint_records_that_cannot_be_read() {
    let read = |parameter: &[u8]| {
        let mut octets = parameter.to_vec();
        octets.extend_from_slice(&[0x01, 0x00, 0x00, 0x00]);
        read_endpoint(&octets, Endianness::LittleEndian).map(|d| d.qos)
    };
    // durability
    assert_eq!(read(&[0x1d, 0, 4, 0, 3, 0, 0, 0]).unwrap().durability, Some(Durability::Persistent));
    assert_eq!(read(&[0x1d, 0, 4, 0, 4, 0, 0, 0]).err(), Some(Error::Malformed));
    assert_eq!(read(&[0x1d, 0, 2, 0, 0, 0]).err(), Some(Error::Malformed));
    // ownership
    assert_eq!(read(&[0x1f, 0, 4, 0, 1, 0, 0, 0]).unwrap().ownership, Some(Ownership::Exclusive));
    assert_eq!(read(&[0x1f, 0, 4, 0, 2, 0, 0, 0]).err(), Some(Error::Malformed));
    // reliability: its number alone is enough
    assert_eq!(read(&[0x1a, 0, 4, 0, 1, 0, 0, 0]).unwrap().reliability, Some(Reliability::BestEffort));
    assert_eq!(read(&[0x1a, 0, 4, 0, 0, 0, 0, 0]).err(), Some(Error::Malformed));
    assert_eq!(read(&[0x1a, 0, 4, 0, 3, 0, 0, 0]).err(), Some(Error::Malformed));
    // history
    assert_eq!(
        read(&[0x40, 0, 8, 0, 0, 0, 0, 0, 9, 0, 0, 0]).unwrap().history,
        Some(History::KeepLast { depth: 9 })
    );
    assert_eq!(read(&[0x40, 0, 8, 0, 1, 0, 0, 0, 9, 0, 0, 0]).unwrap().history, Some(History::KeepAll));
    assert_eq!(read(&[0x40, 0, 8, 0, 2, 0, 0, 0, 9, 0, 0, 0]).err(), Some(Error::Malformed));
    assert_eq!(read(&[0x40, 0, 4, 0, 1, 0, 0, 0]).err(), Some(Error::Malformed));
    // deadline
    assert_eq!(
        read(&[0x23, 0, 8, 0, 1, 0, 0, 0, 2, 0, 0, 0]).unwrap().deadline,
        Some(Deadline { period: Duration { seconds: 1, fraction: 2 } })
    );
    assert_eq!(read(&[0x23, 0, 4, 0, 1, 0, 0, 0]).err(), Some(Error::Malformed));
    // names
    assert_eq!(read(&[0x05, 0, 4, 0, 0, 0, 0, 0]).err(), Some(Error::Malformed));
    assert_eq!(read(&[0x05, 0, 2, 0, 1, 0]).err(), Some(Error::Malformed));
    assert_eq!(read(&[0x05, 0, 8, 0, 5, 0, 0, 0, b'a', b'b', b'c', 0]).err(), Some(Error::Malformed));
    assert_eq!(read(&[0x07, 0, 8, 0, 3, 0, 0, 0, 0xff, 0xfe, 0, 0]).err(), Some(Error::InvalidText));
    assert_eq!(read(&[0x05, 0, 8, 0, 3, 0, 0, 0, 0xc3, 0x28, 0, 0]).err(), Some(Error::InvalidText));
    // locators and the GUID
    assert_eq!(read(&[0x2f, 0, 4, 0, 1, 0, 0, 0]).err(), Some(Error::Malformed));
    assert_eq!(read(&[0x30, 0, 4, 0, 1, 0, 0, 0]).err(), Some(Error::Malformed));
    assert_eq!(read(&[0x5a, 0, 4, 0, 1, 0, 0, 0]).err(), Some(Error::Malformed));
}

#[test]
fn a_name_is_read_as_its_count_says() {
    // a count of three: two octets and the zero; what follows fills
    let octets = [
        0x05, 0x00, 0x08, 0x00, 3, 0, 0, 0, b'h', b'i', 0, b'!', 0x01, 0x00, 0x00, 0x00,
    ];
    let d = read_endpoint(&octets, Endianness::LittleEndian).unwrap();
    assert_eq!(d.topic_name, "hi");
    assert_eq!(d.data_type_name, "");
}

#[test]
fn parameter_lists_frame_their_values() {
    let ps = vec![
        Parameter { id: 0x8001, value: vec![1, 2, 3] },
        Parameter { id: 0x0000, value: vec![] },
        Parameter { id: 0x0002, value: vec![9; 8] },
    ];
    let mut out = vec![0xaa];
    assert!(put_parameter_list(&mut out, &ps, Endianness::BigEndian).is_ok());
    let mut expected = vec![0xaa, 0x80, 0x01, 0x00, 0x03, 1, 2, 3, 0x00, 0x00, 0x00, 0x00];
    expected.extend_from_slice(&[0x00, 0x02, 0x00, 0x08, 9, 9, 9, 9, 9, 9, 9, 9]);
    expected.extend_from_slice(&[0x00, 0x01, 0x00, 0x00]);
    assert_eq!(out, expected);
    let back = get_parameter_list(&out[1..], Endianness::BigEndian).unwrap();
    assert_eq!(back.len(), 3);
    for (a, b) in ps.iter().zip(back.iter()) {
        assert_eq!((a.id, &a.value), (b.id, &b.value));
    }

    // a value as long as a count can say
    let longest = vec![Parameter { id: 7, value: vec![5; 0xffff] }];
    let mut out = Vec::new();
    assert!(put_parameter_list(&mut out, &longest, Endianness::LittleEndian).is_ok());
    assert_eq!(out.len(), 4 + 0xffff + 4);
    assert_eq!(&out[..4], &[7, 0, 0xff, 0xff]);
    let back = get_parameter_list(&out, Endianness::LittleEndian).unwrap();
    assert_eq!(back[0].value.len(), 0xffff);

    // one octet more, and nothing is written
    let too_long = vec![
        Parameter { id: 7, value: vec![1] },
        Parameter { id: 8, value: vec![5; 0x1_0000] },
    ];
    let mut out = vec![1, 2, 3];
    assert_eq!(
        put_parameter_list(&mut out, &too_long, Endianness::LittleEndian),
        Err(Error::SequenceTooLong)
    );
    assert_eq!(out, vec![1, 2, 3]);
}

#[test]
fn payloads_of_discovery_name_their_encoding() {
    let d = full_participant();
    let little = participant_payload(&d, Endianness::LittleEndian);
    assert_eq!(little.representation_identifier, 0x0003);
    assert_eq!(little.representation_options, [0, 0]);
    assert_eq!(little.value.as_ref(), &write_participant(&d, Endianness::LittleEndian)[..]);
    assert!(same_participant(&d, &read_participant_payload(&little).unwrap()));
    let big = participant_payload(&d, Endianness::BigEndian);
    assert_eq!(big.representation_identifier, 0x0002);
    assert!(same_participant(&d, &read_participant_payload(&big).unwrap()));

    let ep = wire_endpoint(wire_guid(4, 2, 7), "Square", "ShapeType", every_policy());
    let payload = endpoint_payload(&ep, Endianness::BigEndian).unwrap();
    assert_eq!(payload.representation_identifier, 0x0002);
    assert_eq!(payload.value.as_ref(), &write_endpoint(&ep, Endianness::BigEndian).unwrap()[..]);
    assert!(same_endpoint(&ep, &read_endpoint_payload(&payload).unwrap()));

    // a payload in another encoding holds no parameter list
    let octets = write_participant(&d, Endianness::LittleEndian);
    let plain = SerializedPayload::new(RepresentationIdentifier::CDR_LE, octets.clone());
    assert_eq!(read_participant_payload(&plain).err(), Some(Error::UnknownRepresentation));
    assert_eq!(read_endpoint_payload(&plain).err(), Some(Error::UnknownRepresentation));
    let xml = SerializedPayload::new(RepresentationIdentifier::XML, octets);
    assert_eq!(read_participant_payload(&xml).err(), Some(Error::UnknownRepresentation));
}

#[test]
fn a_key_hash_spells_its_guid() {
    let g = GUID::new_with_prefix_and_id(
        GuidPrefix::new(vec![1, 2, 3, 4, 5, 6, 7, 8, 9, 10, 11, 12]),
        EntityId::createCustomEntityID([13, 14, 15], 16),
    );
    let hash = key_hash_of_guid(g);
    assert_eq!(hash, 0x0102_0304_0506_0708_090a_0b0c_0d0e_0f10);
    assert!(read_guid_of_key_hash(hash) == g);
    assert!(read_guid_of_key_hash(0) == GUID::new());
    let all = read_guid_of_key_hash(u128::MAX);
    assert_eq!(all.guidPrefix.entityKey, [0xff; 12]);
    assert!(all.entityId == EntityId::createCustomEntityID([0xff; 3], 0xff));
}

#[test]
fn announcements_of_participants() {
    let own = GuidPrefix::new(vec![1; 12]);
    let spdp = |n: u8| {
        GUID::new_with_prefix_and_id(
            GuidPrefix::new(vec![n; 12]),
            EntityId::spdp_builtin_participant_writer(),
        )
    };
    let mut db = DiscoveryDB::new();
    let two = wire_participant(2);
    let le = Endianness::LittleEndian;

    // a participant that was not known
    let change = alive(spdp(2), 1, participant_payload(&two, le));
    match participant_announced(&mut db, own, &change, 1_000) {
        ParticipantNews::Discovered { guid_prefix } => assert!(guid_prefix == GuidPrefix::new(vec![2; 12])),
        other => panic!("{:?}", other),
    }
    let record = db.find_participant(GuidPrefix::new(vec![2; 12])).unwrap();
    assert_eq!(record.lease_duration_nanos, 100_000_000_000);
    assert_eq!(record.lease_expiration, 100_000_001_000);

    // the same once more renews its lease
    let change = alive(spdp(2), 2, participant_payload(&two, Endianness::BigEndian));
    match participant_announced(&mut db, own, &change, 5_000) {
        ParticipantNews::Renewed { guid_prefix } => assert!(guid_prefix == GuidPrefix::new(vec![2; 12])),
        other => panic!("{:?}", other),
    }
    let record = db.find_participant(GuidPrefix::new(vec![2; 12])).unwrap();
    assert_eq!(record.lease_expiration, 100_000_005_000);

    // the participant's own announcement says nothing
    let change = alive(spdp(1), 1, participant_payload(&wire_participant(1), le));
    assert!(matches!(participant_announced(&mut db, own, &change, 6_000), ParticipantNews::Nothing));
    assert!(db.find_participant(own).is_none());

    // what cannot be read changes nothing
    let broken = SerializedPayload::new(RepresentationIdentifier::PL_CDR_LE, vec![0x50, 0, 4, 0]);
    let change = alive(spdp(3), 1, broken);
    assert!(matches!(
        participant_announced(&mut db, own, &change, 6_000),
        ParticipantNews::Unreadable(Error::Eof)
    ));
    let plain = SerializedPayload::new(RepresentationIdentifier::CDR_BE, vec![0, 1, 0, 0]);
    let change = alive(spdp(3), 2, plain);
    assert!(matches!(
        participant_announced(&mut db, own, &change, 6_000),
        ParticipantNews::Unreadable(Error::UnknownRepresentation)
    ));
    let empty = CacheChange::new(ChangeKind::ALIVE, spdp(3), SequenceNumber(3), None, 0);
    assert!(matches!(
        participant_announced(&mut db, own, &empty, 6_000),
        ParticipantNews::Unreadable(Error::Malformed)
    ));
    assert!(db.find_participant(GuidPrefix::new(vec![3; 12])).is_none());

    // a participant takes its leave, and what it announced goes with it
    let reader_of_two = wire_endpoint(wire_guid(2, 1, 7), "t", "T", QosPolicies::qos_none());
    assert!(db.update_remote_reader(reader_of_two));
    let leave = gone(spdp(2), 3, two.participant_guid);
    match participant_announced(&mut db, own, &leave, 7_000) {
        ParticipantNews::Left { guid_prefix } => assert!(guid_prefix == GuidPrefix::new(vec![2; 12])),
        other => panic!("{:?}", other),
    }
    assert!(db.find_participant(GuidPrefix::new(vec![2; 12])).is_none());
    let reader_of_two = wire_endpoint(wire_guid(2, 1, 7), "t", "T", QosPolicies::qos_none());
    assert!(db.update_remote_reader(reader_of_two));
    // once more, it says nothing
    assert!(matches!(participant_announced(&mut db, own, &leave, 8_000), ParticipantNews::Nothing));
    // and neither does the leave of the participant itself
    let leave = gone(spdp(1), 1, wire_participant(1).participant_guid);
    assert!(matches!(participant_announced(&mut db, own, &leave, 8_000), ParticipantNews::Nothing));
}

#[test]
fn announcements_of_endpoints() {
    let own = GuidPrefix::new(vec![1; 12]);
    let sedp = GUID::new_with_prefix_and_id(
        GuidPrefix::new(vec![2; 12]),
        EntityId::sedp_builtin_publications_writer(),
    );
    let mut db = DiscoveryDB::new();
    let le = Endianness::LittleEndian;
    let writer = wire_endpoint(wire_guid(2, 1, 2), "Square", "ShapeType", every_policy());
    let payload = endpoint_payload(&writer, le).unwrap();

    match writer_announced(&mut db, own, &alive(sedp, 1, payload.clone())) {
        EndpointNews::Discovered { guid } => assert!(guid == writer.guid),
        other => panic!("{:?}", other),
    }
    match writer_announced(&mut db, own, &alive(sedp, 2, payload.clone())) {
        EndpointNews::Updated { guid } => assert!(guid == writer.guid),
        other => panic!("{:?}", other),
    }
    let known = db.find_remote_writer(writer.guid).unwrap();
    assert!(same_endpoint(&known, &writer));
    assert!(db.find_remote_reader(writer.guid).is_none());
    assert!(db.find_remote_writer(wire_guid(2, 1, 3)).is_none());
    // readers and writers are known apart
    match reader_announced(&mut db, own, &alive(sedp, 3, payload)) {
        EndpointNews::Discovered { guid } => assert!(guid == writer.guid),
        other => panic!("{:?}", other),
    }
    // endpoints of the participant itself say nothing
    let mine = wire_endpoint(wire_guid(1, 1, 2), "Square", "ShapeType", every_policy());
    let payload = endpoint_payload(&mine, le).unwrap();
    assert!(matches!(writer_announced(&mut db, own, &alive(sedp, 4, payload.clone())), EndpointNews::Nothing));
    assert!(matches!(reader_announced(&mut db, own, &alive(sedp, 4, payload)), EndpointNews::Nothing));
    assert!(matches!(reader_announced(&mut db, own, &gone(sedp, 5, mine.guid)), EndpointNews::Nothing));
    // what cannot be read
    let broken = SerializedPayload::new(RepresentationIdentifier::PL_CDR_LE, vec![0x1d, 0, 4, 0, 9, 0, 0, 0, 1, 0, 0, 0]);
    assert!(matches!(
        writer_announced(&mut db, own, &alive(sedp, 6, broken)),
        EndpointNews::Unreadable(Error::Malformed)
    ));
    // a writer takes its leave: announced again, it is new
    match writer_announced(&mut db, own, &gone(sedp, 7, writer.guid)) {
        EndpointNews::Left { guid } => assert!(guid == writer.guid),
        other => panic!("{:?}", other),
    }
    assert!(db.find_remote_writer(writer.guid).is_none());
    let again = wire_endpoint(wire_guid(2, 1, 2), "Square", "ShapeType", every_policy());
    assert!(db.update_remote_writer(again));
    // the reader of the same GUID was left alone
    let again = wire_endpoint(wire_guid(2, 1, 2), "Square", "ShapeType", every_policy());
    assert!(!db.update_remote_reader(again));
}

#[test]
fn spans_of_time() {
    assert_eq!(Duration::from_secs(7), Duration { seconds: 7, fraction: 0 });
    assert_eq!(Duration::infinite(), Duration { seconds: 0x7fff_ffff, fraction: 0xffff_ffff });
    assert_eq!(Duration { seconds: 1, fraction: 0x8000_0000 }.to_nanos(), 1_500_000_000);
    assert_eq!(Duration { seconds: 0, fraction: 1 }.to_nanos(), 0);
    assert_eq!(Duration { seconds: 0, fraction: 5 }.to_nanos(), 1);
    assert_eq!(Duration { seconds: -1, fraction: 0xffff_ffff }.to_nanos(), 0);
    assert_eq!(Duration::infinite().to_nanos(), 2_147_483_647_999_999_999);

    assert_eq!(Duration::from_nanos(0), Duration { seconds: 0, fraction: 0 });
    assert_eq!(Duration::from_nanos(1), Duration { seconds: 0, fraction: 5 });
    assert_eq!(Duration::from_nanos(1_000), Duration { seconds: 0, fraction: 4_295 });
    assert_eq!(Duration::from_nanos(1_500_000_000), Duration { seconds: 1, fraction: 0x8000_0000 });
    assert_eq!(Duration::from_nanos(999_999_999), Duration { seconds: 0, fraction: 4_294_967_292 });
    for nanos in [0, 1, 2, 3, 999, 1_000, 999_999_999, 1_000_000_000, 123_456_789_012_345_678] {
        assert_eq!(Duration::from_nanos(nanos).to_nanos(), nanos);
    }
    assert_eq!(Duration::from_nanos(2_147_483_647_999_999_999).seconds, 0x7fff_ffff);
    assert_eq!(Duration::from_nanos(2_147_483_648_000_000_000), Duration::infinite());
    assert_eq!(Duration::from_nanos(u64::MAX), Duration::infinite());

    let short = Duration { seconds: 1, fraction: 9 };
    let long = Duration { seconds: 2, fraction: 0 };
    let negative = Duration { seconds: -1, fraction: 0xffff_ffff };
    assert!(short.no_longer_than(&long));
    assert!(!long.no_longer_than(&short));
    assert!(short.no_longer_than(&short));
    assert!(negative.no_longer_than(&Duration::from_secs(0)));
    assert!(!Duration::from_secs(0).no_longer_than(&negative));
    assert!(Duration { seconds: 1, fraction: 8 }.no_longer_than(&short));
    assert!(!Duration { seconds: 1, fraction: 10 }.no_longer_than(&short));
}

#[test]
fn a_leave_with_its_key_is_understood() {
    let own = GuidPrefix::new(vec![1; 12]);
    let two = wire_participant(2);
    let spdp = GUID::new_with_prefix_and_id(
        GuidPrefix::new(vec![2; 12]),
        EntityId::spdp_builtin_participant_writer(),
    );
    let mut db = DiscoveryDB::new();
    let change = alive(spdp, 1, participant_payload(&two, Endianness::LittleEndian));
    assert!(matches!(
        participant_announced(&mut db, own, &change, 10),
        ParticipantNews::Discovered { .. }
    ));
    // the leave names the participant by its key, as payload and as hash
    let leave = participant_dispose(two.participant_guid, Timestamp { seconds: 1, fraction: 0 });
    let payload = leave.value().unwrap();
    assert_eq!(payload.representation_identifier, 0x0003);
    assert!(read_participant_payload(&payload).unwrap().participant_guid == two.participant_guid);
    assert!(read_guid_of_key_hash(leave.value_key_hash()) == two.participant_guid);
    let change = CacheChange::new(
        leave.change_kind(),
        spdp,
        SequenceNumber(2),
        leave.value(),
        leave.value_key_hash(),
    );
    match participant_announced(&mut db, own, &change, 20) {
        ParticipantNews::Left { guid_prefix } => assert!(guid_prefix == GuidPrefix::new(vec![2; 12])),
        other => panic!("{:?}", other),
    }
    assert!(db.find_participant(GuidPrefix::new(vec![2; 12])).is_none());
}
