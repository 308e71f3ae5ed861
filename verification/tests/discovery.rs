use rustdds::dds::qos::{Deadline, Durability, History, Ownership, QosPolicies, Reliability};
use rustdds::dds::reader::Reader;
use rustdds::dds::writer::Writer;
use rustdds::discovery::data_types::{
    durability_rank, qos_compatible, reader_is_reliable, DiscoveredEndpointData,
    SPDPDiscoveredParticipantData, DEFAULT_PARTICIPANT_ANNOUNCE_PERIOD_NANOS,
};
use rustdds::discovery::discovery::{
    admit_announcer, announcement_is_due, is_match, next_announce_instant, participant_dispose,
    reader_hears_of_writer, reader_leaves, stop_plan, writer_hears_of_reader, writer_leaves,
    DiscoveryCommand,
};
use rustdds::discovery::discovery_db::DiscoveryDB;
use rustdds::discovery::wire::read_participant_payload;
use rustdds::structure::cache_change::ChangeKind;
use rustdds::structure::guid::{EntityId, GuidPrefix, GUID};
use rustdds::structure::locator::Locator;
use rustdds::structure::time::{Duration, Timestamp};

fn guid(participant: u8, entity: u8, kind: u8) -> GUID {
    GUID::new_with_prefix_and_id(
        GuidPrefix::new(vec![participant; 12]),
        EntityId::createCustomEntityID([0, 0, entity], kind),
    )
}

fn endpoint(g: GUID, topic: &str, typ: &str, qos: QosPolicies) -> DiscoveredEndpointData {
    DiscoveredEndpointData {
        guid: g,
        topic_name: topic.to_string(),
        data_type_name: typ.to_string(),
        qos,
        unicast_locators: vec![Locator::udp_v4(10, 0, 0, g.guidPrefix.entityKey[0], 7411)],
        multicast_locators: vec![],
    }
}

fn participant(n: u8, lease: u64) -> SPDPDiscoveredParticipantData {
    SPDPDiscoveredParticipantData {
        participant_guid: GUID::new_with_prefix_and_id(
            GuidPrefix::new(vec![n; 12]),
            EntityId::participant(),
        ),
        protocol_major: 2,
        protocol_minor: 3,
        vendor_id0: 1,
        vendor_id1: 18,
        default_unicast_locators: vec![],
        default_multicast_locators: vec![],
        metatraffic_unicast_locators: vec![],
        metatraffic_multicast_locators: vec![],
        lease_duration: Duration::from_nanos(lease),
    }
}

fn reliable() -> QosPolicies {
    let mut q = QosPolicies::qos_none();
    q.reliability = Some(Reliability::Reliable);
    q
}

fn best_effort() -> QosPolicies {
    let mut q = QosPolicies::qos_none();
    q.reliability = Some(Reliability::BestEffort);
    q
}

#[test]
fn reader_and_writer_of_one_topic_and_type_match_on_both_sides() {
    // participant 1 has the reader, participant 2 the writer
    let reader_data = endpoint(guid(1, 1, 7), "square", "ShapeType", reliable());
    let writer_data = endpoint(guid(2, 1, 2), "square", "ShapeType", reliable());
    let mut reader = Reader::new(reader_data.guid, "square".to_string(), true);
    let mut writer = Writer::new(writer_data.guid, "square".to_string(), &reliable(), true);

    assert!(reader_hears_of_writer(&mut reader, &reader_data, &writer_data));
    assert!(writer_hears_of_reader(&mut writer, &writer_data, &reader_data));

    let proxy = reader.matched_writer_lookup(writer_data.guid).unwrap();
    assert!(proxy.remote_writer_guid() == writer_data.guid);
    let proxy = writer.matched_reader_lookup(reader_data.guid).unwrap();
    assert!(proxy.is_reliable());
    assert_eq!(proxy.unicast_locators(), &reader_data.unicast_locators);
    assert!(proxy.multicast_locators().is_empty());

    // being told twice changes nothing
    assert!(reader_hears_of_writer(&mut reader, &reader_data, &writer_data));
    assert!(writer_hears_of_reader(&mut writer, &writer_data, &reader_data));
}

#[test]
fn what_does_not_match() {
    let reader_data = endpoint(guid(1, 1, 7), "square", "ShapeType", reliable());
    let mut reader = Reader::new(reader_data.guid, "square".to_string(), true);
    let mut writer = Writer::new(guid(2, 1, 2), "square".to_string(), &reliable(), true);
    let other_topic = endpoint(guid(2, 1, 2), "circle", "ShapeType", reliable());
    let other_type = endpoint(guid(2, 1, 2), "square", "Other", reliable());
    let weaker = endpoint(guid(2, 1, 2), "square", "ShapeType", best_effort());
    for writer_data in [other_topic, other_type, weaker] {
        assert!(!is_match(&reader_data, &writer_data));
        assert!(!reader_hears_of_writer(&mut reader, &reader_data, &writer_data));
        assert!(!writer_hears_of_reader(&mut writer, &writer_data, &reader_data));
        assert!(reader.matched_writer_lookup(writer_data.guid).is_none());
        assert!(writer.matched_reader_lookup(reader_data.guid).is_none());
    }
    // a reader that asks for best effort is served by a reliable writer
    let modest = endpoint(guid(1, 2, 7), "square", "ShapeType", best_effort());
    let strong = endpoint(guid(2, 1, 2), "square", "ShapeType", reliable());
    assert!(is_match(&modest, &strong));
    assert!(writer_hears_of_reader(&mut writer, &strong, &modest));
    assert!(!writer.matched_reader_lookup(modest.guid).unwrap().is_reliable());
}

#[test]
fn compatibility_of_policies() {
    let none = QosPolicies::qos_none();
    assert!(qos_compatible(none, none));
    assert!(qos_compatible(reliable(), none));
    assert!(!qos_compatible(reliable(), best_effort()));
    assert!(qos_compatible(best_effort(), best_effort()));
    assert!(reader_is_reliable(reliable()) && !reader_is_reliable(none));

    let mut asks = none;
    let mut offers = none;
    asks.durability = Some(Durability::TransientLocal);
    assert!(!qos_compatible(asks, offers));
    offers.durability = Some(Durability::TransientLocal);
    assert!(qos_compatible(asks, offers));
    offers.durability = Some(Durability::Persistent);
    assert!(qos_compatible(asks, offers));
    asks.durability = Some(Durability::Persistent);
    offers.durability = Some(Durability::Transient);
    assert!(!qos_compatible(asks, offers));
    assert_eq!(
        [
            durability_rank(Durability::Volatile),
            durability_rank(Durability::TransientLocal),
            durability_rank(Durability::Transient),
            durability_rank(Durability::Persistent)
        ],
        [0, 1, 2, 3]
    );

    let mut asks = none;
    let mut offers = none;
    asks.deadline = Some(Deadline { period: Duration::from_nanos(100) });
    assert!(!qos_compatible(asks, offers));
    offers.deadline = Some(Deadline { period: Duration::from_nanos(100) });
    assert!(qos_compatible(asks, offers));
    offers.deadline = Some(Deadline { period: Duration::from_nanos(101) });
    assert!(!qos_compatible(asks, offers));
    assert!(qos_compatible(none, offers));

    let mut asks = none;
    let mut offers = none;
    asks.ownership = Some(Ownership::Exclusive);
    assert!(!qos_compatible(asks, offers));
    offers.ownership = Some(Ownership::Exclusive);
    assert!(qos_compatible(asks, offers));
    asks.ownership = Some(Ownership::Shared);
    assert!(!qos_compatible(asks, offers));

    // history says nothing of matching
    let mut asks = none;
    let mut offers = none;
    asks.history = Some(History::KeepAll);
    offers.history = Some(History::KeepLast { depth: 1 });
    assert!(qos_compatible(asks, offers));
}

#[test]
fn lease_expiry_loses_the_participant() {
    let lease = 1_000;
    let mut db = DiscoveryDB::new();
    assert!(db.update_participant(&participant(2, lease), 100));
    assert!(db.update_participant(&participant(3, 10 * lease), 100));
    assert!(db.update_remote_writer(endpoint(guid(2, 1, 2), "t", "T", reliable())));
    assert!(db.update_remote_reader(endpoint(guid(2, 2, 7), "t", "T", reliable())));
    assert!(db.update_remote_writer(endpoint(guid(3, 1, 2), "t", "T", reliable())));
    assert_eq!(db.find_participant(GuidPrefix::new(vec![2; 12])).unwrap().lease_expiration, 1_100);

    // a local reader and a local writer are matched with endpoints of both
    let mut reader = Reader::new(guid(1, 1, 7), "t".to_string(), true);
    reader.matched_writer_add(guid(2, 1, 2), EntityId::unknown(), vec![], vec![]);
    reader.matched_writer_add(guid(3, 1, 2), EntityId::unknown(), vec![], vec![]);
    let mut writer = Writer::new(guid(1, 2, 2), "t".to_string(), &reliable(), true);
    writer.matched_reader_add(guid(2, 2, 7), false, true, vec![], vec![]);

    // within the lease nothing is lost, not even at its last instant
    assert!(db.check_leases(1_100).is_empty());
    // an announcement renews the lease
    assert!(!db.update_participant(&participant(2, lease), 600));
    assert!(db.check_leases(1_600).is_empty());

    // silence for twice the lease
    let lost = db.check_leases(600 + 2 * lease);
    assert_eq!(lost, vec![GuidPrefix::new(vec![2; 12])]);
    for prefix in lost {
        reader.remove_writers_of(prefix);
        writer.remove_readers_of(prefix);
    }
    assert!(db.find_participant(GuidPrefix::new(vec![2; 12])).is_none());
    assert!(db.find_participant(GuidPrefix::new(vec![3; 12])).is_some());
    assert!(reader.matched_writer_lookup(guid(2, 1, 2)).is_none());
    assert!(reader.matched_writer_lookup(guid(3, 1, 2)).is_some());
    assert!(writer.matched_reader_lookup(guid(2, 2, 7)).is_none());
    // what was announced by the lost participant is forgotten: it is new again
    assert!(db.update_remote_writer(endpoint(guid(2, 1, 2), "t", "T", reliable())));
    assert!(!db.update_remote_writer(endpoint(guid(3, 1, 2), "t", "T", reliable())));
    assert!(db.check_leases(600 + 2 * lease).is_empty());
}

#[test]
fn leaving_and_forgetting() {
    let mut db = DiscoveryDB::new();
    db.update_participant(&participant(2, 5), u64::MAX - 1);
    // a lease that would end after the last instant ends never
    assert_eq!(db.find_participant(GuidPrefix::new(vec![2; 12])).unwrap().lease_expiration, u64::MAX);
    assert!(db.check_leases(u64::MAX).is_empty());
    db.update_remote_reader(endpoint(guid(2, 1, 7), "t", "T", reliable()));
    db.remove_remote_reader(guid(2, 1, 7));
    assert!(db.update_remote_reader(endpoint(guid(2, 1, 7), "t", "T", reliable())));
    db.update_remote_writer(endpoint(guid(2, 1, 2), "t", "T", reliable()));
    db.remove_remote_writer(guid(2, 1, 2));
    assert!(db.update_remote_writer(endpoint(guid(2, 1, 2), "t", "T", reliable())));
    assert!(db.remove_participant(GuidPrefix::new(vec![2; 12])));
    assert!(!db.remove_participant(GuidPrefix::new(vec![2; 12])));
    assert!(db.update_remote_reader(endpoint(guid(2, 1, 7), "t", "T", reliable())));
    let copy = endpoint(guid(2, 1, 7), "t", "T", reliable()).clone();
    assert_eq!(copy.topic_name, "t");
    assert_eq!(copy.unicast_locators.len(), 1);
}

#[test]
fn announcements_and_leave() {
    assert_eq!(DEFAULT_PARTICIPANT_ANNOUNCE_PERIOD_NANOS, 5_000_000_000);
    assert_eq!(next_announce_instant(7, 5_000_000_000), 5_000_000_007);
    assert_eq!(next_announce_instant(u64::MAX - 1, 5), u64::MAX);
    assert!(!announcement_is_due(7, 100, 106));
    assert!(announcement_is_due(7, 100, 107));

    let me = guid(1, 1, 0xc1);
    let at = Timestamp { seconds: 9, fraction: 0 };
    let leave = participant_dispose(me, at);
    assert_eq!(leave.change_kind(), ChangeKind::NOT_ALIVE_DISPOSED);
    // the payload names the participant by its key alone
    let payload = leave.value().unwrap();
    assert_eq!(payload.representation_identifier, 0x0003);
    let mut expected = vec![0x50, 0x00, 0x10, 0x00];
    expected.extend_from_slice(&[1; 12]);
    expected.extend_from_slice(&[0, 0, 1, 0xc1, 0x01, 0x00, 0x00, 0x00]);
    assert_eq!(payload.value.as_ref(), &expected[..]);
    let named = read_participant_payload(&payload).unwrap();
    assert!(named.participant_guid == me);
    assert!(named.default_unicast_locators.is_empty());
    assert_eq!(leave.value_key_hash(), 0x0101_0101_0101_0101_0101_0101_0000_01c1);
    assert_eq!(leave.source_timestamp(), at);
    let (sample, end) = stop_plan(me, 1_000, at, 5_000_000_000);
    assert!(sample == leave);
    assert_eq!(end, 5_000_001_000);

    assert!(matches!(reader_leaves(me), DiscoveryCommand::REMOVE_LOCAL_READER { guid } if guid == me));
    assert!(matches!(writer_leaves(me), DiscoveryCommand::REMOVE_LOCAL_WRITER { guid } if guid == me));
}

#[test]
fn announcers_are_heard_unmatched() {
    let announcer = GUID::new_with_prefix_and_id(
        GuidPrefix::new(vec![2; 12]),
        EntityId::spdp_builtin_participant_writer(),
    );
    let other = guid(2, 1, 2);
    let mut listener = Reader::new(
        GUID::new_with_prefix_and_id(
            GuidPrefix::new(vec![1; 12]),
            EntityId::spdp_builtin_participant_reader(),
        ),
        "DCPSParticipant".to_string(),
        false,
    );
    // a writer of something else is not heard
    assert!(!admit_announcer(&mut listener, other));
    assert!(listener.matched_writer_lookup(other).is_none());
    assert!(admit_announcer(&mut listener, announcer));
    let proxy = listener.matched_writer_lookup(announcer).unwrap();
    assert_eq!(proxy.highest_sn_received().0, -1);
    assert!(proxy.nothing_missing());
    // once is enough
    assert!(!admit_announcer(&mut listener, announcer));
    // a reader of a topic hears matched writers only
    let mut reader = Reader::new(guid(1, 1, 7), "square".to_string(), true);
    assert!(!admit_announcer(&mut reader, announcer));
    assert!(reader.matched_writer_lookup(announcer).is_none());
}
