use rustdds::dds::message_receiver::MessageReceiverState;
use rustdds::dds::qos::{History, QosPolicies};
use rustdds::dds::reader::{DataOutcome, HeartbeatOutcome, Reader};
use rustdds::dds::writer::{
    AckNackOutcome, ReaderProxyState, SendStep, WriteError, Writer,
    DEFAULT_HEARTBEAT_PERIOD_NANOS,
};
use rustdds::messages::serialized_payload::{RepresentationIdentifier, SerializedPayload};
use rustdds::messages::submessages::AckNack;
use rustdds::structure::cache_change::ChangeKind;
use rustdds::structure::dds_cache::{CacheError, DDSCache};
use rustdds::structure::guid::{EntityId, GuidPrefix, GUID};
use rustdds::structure::inline_qos::{KeyHash, StatusInfoEnum};
use rustdds::structure::sequence_number::{SequenceNumber, SequenceNumberSet};

const TOPIC: &str = "topic";

fn writer_guid() -> GUID {
    GUID::new_with_prefix_and_id(
        GuidPrefix::new(vec![1; 12]),
        EntityId::createCustomEntityID([0, 0, 1], 2),
    )
}

fn reader_guid(n: u8) -> GUID {
    GUID::new_with_prefix_and_id(
        GuidPrefix::new(vec![2; 12]),
        EntityId::createCustomEntityID([0, 0, n], 7),
    )
}

fn from_reader(n: u8) -> MessageReceiverState {
    let mut s = MessageReceiverState::default();
    s.source_guid_prefix = reader_guid(n).guidPrefix;
    s
}

fn from_writer() -> MessageReceiverState {
    let mut s = MessageReceiverState::default();
    s.source_guid_prefix = writer_guid().guidPrefix;
    s
}

fn keep_all() -> QosPolicies {
    let mut q = QosPolicies::qos_none();
    q.history = Some(History::KeepAll);
    q
}

fn payload(n: u8) -> Option<SerializedPayload> {
    Some(SerializedPayload::new(RepresentationIdentifier::CDR_LE, vec![n]))
}

fn cache() -> DDSCache {
    let mut cache = DDSCache::new();
    cache.add_new_topic(&TOPIC.to_string());
    cache
}

fn acknack(n: u8, base: i64, bits: Vec<bool>, count: i32) -> AckNack {
    AckNack {
        reader_id: reader_guid(n).entityId,
        writer_id: writer_guid().entityId,
        reader_sn_state: SequenceNumberSet::from_bits(SequenceNumber::from(base), bits).unwrap(),
        count,
        final_flag: false,
    }
}

fn stored(cache: &DDSCache) -> Vec<i64> {
    cache
        .changes_in_range(&TOPIC.to_string(), 0, u64::MAX)
        .iter()
        .map(|(_, c)| c.sequence_number.0)
        .collect()
}

#[test]
fn sequence_numbers_start_at_one() {
    let mut writer = Writer::new(writer_guid(), TOPIC.to_string(), &keep_all(), false);
    let mut cache = cache();
    assert_eq!(writer.last_change_sequence_number(), SequenceNumber(0));
    assert_eq!(writer.heartbeat_period_nanos(), DEFAULT_HEARTBEAT_PERIOD_NANOS);
    assert_eq!(DEFAULT_HEARTBEAT_PERIOD_NANOS, 200_000_000);
    assert_eq!(
        writer.write(&mut cache, 10, ChangeKind::ALIVE, payload(1), 0),
        Ok(SequenceNumber(1))
    );
    assert_eq!(
        writer.write(&mut cache, 20, ChangeKind::ALIVE, payload(2), 0),
        Ok(SequenceNumber(2))
    );
    assert_eq!(writer.last_change_sequence_number(), SequenceNumber(2));
    assert_eq!(stored(&cache), vec![1, 2]);
    assert!(writer.get_guid() == writer_guid());
}

#[test]
fn write_failures_note_nothing() {
    let mut writer = Writer::new(writer_guid(), TOPIC.to_string(), &keep_all(), false);
    writer.matched_reader_add(reader_guid(1), false, true, vec![], vec![]);
    let mut no_topic = DDSCache::new();
    assert_eq!(
        writer.write(&mut no_topic, 10, ChangeKind::ALIVE, payload(1), 0),
        Err(WriteError::Cache(CacheError::UnknownTopic))
    );
    let mut cache = cache();
    writer.write(&mut cache, 10, ChangeKind::ALIVE, payload(1), 0).unwrap();
    assert_eq!(
        writer.write(&mut cache, 10, ChangeKind::ALIVE, payload(2), 0),
        Err(WriteError::Cache(CacheError::InstantTaken))
    );
    assert_eq!(writer.last_change_sequence_number(), SequenceNumber(1));
    let proxy = writer.matched_reader_lookup(reader_guid(1)).unwrap();
    assert!(proxy.is_unsent(SequenceNumber(1)) && !proxy.is_unsent(SequenceNumber(2)));
    // another writer with the same identifier has used the number
    let mut twin = Writer::new(writer_guid(), TOPIC.to_string(), &keep_all(), false);
    assert_eq!(
        twin.write(&mut cache, 30, ChangeKind::ALIVE, payload(3), 0),
        Err(WriteError::Cache(CacheError::DuplicateChange))
    );
}

#[test]
fn reliable_and_best_effort_readers() {
    let mut writer = Writer::new(writer_guid(), TOPIC.to_string(), &keep_all(), false);
    let mut cache = cache();
    assert!(writer.matched_reader_add(reader_guid(1), false, true, vec![], vec![]));
    assert!(writer.matched_reader_add(reader_guid(2), false, false, vec![], vec![]));
    assert!(!writer.matched_reader_add(reader_guid(2), false, true, vec![], vec![]));
    assert_eq!(writer.matched_reader_lookup(reader_guid(1)).unwrap().state(), ReaderProxyState::Idle);
    writer.write(&mut cache, 10, ChangeKind::ALIVE, payload(1), 0).unwrap();

    let reliable = writer.matched_reader_lookup(reader_guid(1)).unwrap();
    assert!(reliable.is_unsent(SequenceNumber(1)) && reliable.is_unacked(SequenceNumber(1)));
    assert_eq!(reliable.state(), ReaderProxyState::Pushing);
    let best_effort = writer.matched_reader_lookup(reader_guid(2)).unwrap();
    assert!(best_effort.is_unsent(SequenceNumber(1)) && !best_effort.is_unacked(SequenceNumber(1)));

    // heartbeats go to reliable readers only
    let beats = writer.heartbeat(&cache);
    assert_eq!(beats.len(), 1);
    assert!(beats[0].0 == reader_guid(1));
    assert_eq!(beats[0].1.first_sn, SequenceNumber(1));
    assert_eq!(beats[0].1.last_sn, SequenceNumber(1));
    assert_eq!(beats[0].1.count, 1);
    assert!(!beats[0].1.final_flag);
    assert_eq!(beats[0].1.reader_id, reader_guid(1).entityId);
    assert_eq!(beats[0].1.writer_id, writer_guid().entityId);

    for n in [1, 2] {
        match writer.next_send(reader_guid(n), &cache) {
            SendStep::Data(d) => {
                assert_eq!(d.writer_sn, SequenceNumber(1));
                assert_eq!(d.reader_id, reader_guid(n).entityId);
                assert_eq!(d.writer_id, writer_guid().entityId);
                assert!(d.inline_qos.is_none());
                assert_eq!(d.serialized_payload.unwrap().value.as_ref(), &[1]);
            },
            _ => panic!("the change is to be sent"),
        }
        assert!(matches!(writer.next_send(reader_guid(n), &cache), SendStep::Nothing));
    }
    assert!(matches!(writer.next_send(reader_guid(9), &cache), SendStep::Nothing));
    assert_eq!(
        writer.matched_reader_lookup(reader_guid(1)).unwrap().state(),
        ReaderProxyState::WaitingForAck
    );
    assert_eq!(writer.matched_reader_lookup(reader_guid(2)).unwrap().state(), ReaderProxyState::Idle);
    writer.write(&mut cache, 20, ChangeKind::ALIVE, payload(2), 0).unwrap();
    writer.next_send(reader_guid(1), &cache);
    assert_eq!(
        writer.matched_reader_lookup(reader_guid(1)).unwrap().state(),
        ReaderProxyState::Announcing
    );
}

#[test]
fn acknowledgements() {
    let mut writer = Writer::new(writer_guid(), TOPIC.to_string(), &keep_all(), false);
    let mut cache = cache();
    writer.matched_reader_add(reader_guid(1), false, true, vec![], vec![]);
    for n in 1..=5u8 {
        writer.write(&mut cache, 10 * n as u64, ChangeKind::ALIVE, payload(n), 0).unwrap();
        writer.next_send(reader_guid(1), &cache);
    }
    // the reader has 1 and 2, misses 3, has 4, and says nothing of 5
    let ack = acknack(1, 3, vec![true, false], 1);
    assert_eq!(writer.handle_acknack(&ack, &from_reader(1), 1_000), AckNackOutcome::Accepted);
    let proxy = writer.matched_reader_lookup(reader_guid(1)).unwrap();
    assert_eq!(proxy.highest_acked_sn(), SequenceNumber(2));
    let unacked: Vec<i64> = (1..=5).filter(|n| proxy.is_unacked(SequenceNumber(*n))).collect();
    assert_eq!(unacked, vec![3, 5]);
    let unsent: Vec<i64> = (1..=5).filter(|n| proxy.is_unsent(SequenceNumber(*n))).collect();
    assert_eq!(unsent, vec![3]);
    assert_eq!(writer.acknowledged_by_all(), Some(SequenceNumber(2)));

    // a replay, a stranger, a malformed window
    assert_eq!(
        writer.handle_acknack(&acknack(1, 6, vec![], 1), &from_reader(1), 2_000),
        AckNackOutcome::Replay
    );
    assert_eq!(
        writer.handle_acknack(&acknack(9, 6, vec![], 2), &from_reader(1), 2_000),
        AckNackOutcome::UnknownReader
    );
    assert_eq!(
        writer.handle_acknack(&acknack(1, i64::MIN, vec![], 2), &from_reader(1), 2_000),
        AckNackOutcome::Malformed
    );

    // one change is handed out for each call
    match writer.next_send(reader_guid(1), &cache) {
        SendStep::Data(d) => assert_eq!(d.writer_sn, SequenceNumber(3)),
        _ => panic!("3 is to be sent again"),
    }
    assert!(matches!(writer.next_send(reader_guid(1), &cache), SendStep::Nothing));

    // asked again within 200 ms: acknowledged, but not sent again
    let ack = acknack(1, 3, vec![true, false, true], 2);
    assert_eq!(
        writer.handle_acknack(&ack, &from_reader(1), 1_000 + 199_999_999),
        AckNackOutcome::Accepted
    );
    assert!(matches!(writer.next_send(reader_guid(1), &cache), SendStep::Nothing));
    // and after 200 ms, sent again; a number that was never written is not
    let ack = acknack(1, 3, vec![true, false, true, true], 3);
    assert_eq!(
        writer.handle_acknack(&ack, &from_reader(1), 1_000 + 200_000_000),
        AckNackOutcome::Accepted
    );
    let proxy = writer.matched_reader_lookup(reader_guid(1)).unwrap();
    let unsent: Vec<i64> = (1..=7).filter(|n| proxy.is_unsent(SequenceNumber(*n))).collect();
    assert_eq!(unsent, vec![3, 5]);

    // everything acknowledged
    let ack = acknack(1, 6, vec![], 4);
    assert_eq!(writer.handle_acknack(&ack, &from_reader(1), 9_000_000_000), AckNackOutcome::Accepted);
    let proxy = writer.matched_reader_lookup(reader_guid(1)).unwrap();
    assert!((1..=5).all(|n| !proxy.is_unacked(SequenceNumber(n))));
    let beats = writer.heartbeat(&cache);
    assert!(beats[0].1.final_flag);
}

#[test]
fn history_evicts() {
    // by default the newest change of an instance stays
    let mut writer = Writer::new(writer_guid(), TOPIC.to_string(), &QosPolicies::qos_none(), true);
    let mut cache = cache();
    writer.matched_reader_add(reader_guid(1), false, true, vec![], vec![]);
    writer.write(&mut cache, 10, ChangeKind::ALIVE, payload(1), 7).unwrap();
    writer.write(&mut cache, 20, ChangeKind::ALIVE, payload(2), 8).unwrap();
    writer.write(&mut cache, 30, ChangeKind::ALIVE, payload(3), 7).unwrap();
    assert_eq!(stored(&cache), vec![2, 3]);
    // a change that is to be had no more is replaced by a gap
    match writer.next_send(reader_guid(1), &cache) {
        SendStep::Gap(gap) => {
            assert_eq!(gap.gap_start, SequenceNumber(1));
            assert_eq!(gap.gap_list.base(), SequenceNumber(2));
            assert_eq!(gap.gap_list.num_bits(), 0);
            assert_eq!(gap.reader_id, reader_guid(1).entityId);
            assert_eq!(gap.writer_id, writer_guid().entityId);
        },
        _ => panic!("1 was evicted"),
    }
    let beats = writer.heartbeat(&cache);
    assert_eq!(beats[0].1.first_sn, SequenceNumber(2));
    assert_eq!(beats[0].1.last_sn, SequenceNumber(3));

    let mut depth_two = QosPolicies::qos_none();
    depth_two.history = Some(History::KeepLast { depth: 2 });
    let mut writer = Writer::new(writer_guid(), TOPIC.to_string(), &depth_two, true);
    let mut cache = self::cache();
    for n in 1..=4u8 {
        writer.write(&mut cache, 10 * n as u64, ChangeKind::ALIVE, payload(n), 7).unwrap();
    }
    assert_eq!(stored(&cache), vec![3, 4]);

    // all are kept until every reliable reader has acknowledged them
    let mut writer = Writer::new(writer_guid(), TOPIC.to_string(), &keep_all(), true);
    let mut cache = self::cache();
    writer.matched_reader_add(reader_guid(1), false, true, vec![], vec![]);
    writer.matched_reader_add(reader_guid(2), false, true, vec![], vec![]);
    writer.matched_reader_add(reader_guid(3), false, false, vec![], vec![]);
    for n in 1..=3u8 {
        writer.write(&mut cache, 10 * n as u64, ChangeKind::ALIVE, payload(n), 7).unwrap();
    }
    assert_eq!(stored(&cache), vec![1, 2, 3]);
    writer.handle_acknack(&acknack(1, 4, vec![], 1), &from_reader(1), 100);
    writer.handle_acknack(&acknack(2, 3, vec![], 1), &from_reader(2), 100);
    assert_eq!(writer.acknowledged_by_all(), Some(SequenceNumber(2)));
    writer.write(&mut cache, 40, ChangeKind::ALIVE, payload(4), 7).unwrap();
    assert_eq!(stored(&cache), vec![3, 4]);
    // without changes in the cache a heartbeat announces none
    let mut idle = Writer::new(writer_guid(), TOPIC.to_string(), &keep_all(), true);
    idle.matched_reader_add(reader_guid(1), false, true, vec![], vec![]);
    let beats = idle.heartbeat(&self::cache());
    assert_eq!((beats[0].1.first_sn, beats[0].1.last_sn), (SequenceNumber(1), SequenceNumber(0)));
    assert!(beats[0].1.final_flag);
    assert_eq!(idle.acknowledged_by_all(), Some(SequenceNumber(0)));
    assert_eq!(Writer::new(writer_guid(), TOPIC.to_string(), &keep_all(), true).acknowledged_by_all(), None);
}

#[test]
fn dispose_travels_with_status_and_key() {
    let mut writer = Writer::new(writer_guid(), TOPIC.to_string(), &keep_all(), false);
    let mut cache = cache();
    writer.matched_reader_add(reader_guid(1), false, false, vec![], vec![]);
    writer.write(&mut cache, 10, ChangeKind::NOT_ALIVE_DISPOSED, None, 42).unwrap();
    writer.write(&mut cache, 20, ChangeKind::NOT_ALIVE_UNREGISTERED, None, 43).unwrap();
    match writer.next_send(reader_guid(1), &cache) {
        SendStep::Data(d) => {
            let qos = d.inline_qos.unwrap();
            assert_eq!(qos.key_hash, Some(KeyHash::new(42)));
            assert!(qos.status_info.unwrap().contains(StatusInfoEnum::Disposed));
            assert!(!qos.status_info.unwrap().contains(StatusInfoEnum::Unregistered));
            assert!(d.serialized_payload.is_none());
        },
        _ => panic!("the disposal is to be sent"),
    }
    match writer.next_send(reader_guid(1), &cache) {
        SendStep::Data(d) => {
            let qos = d.inline_qos.unwrap();
            assert_eq!(qos.key_hash, Some(KeyHash::new(43)));
            assert!(qos.status_info.unwrap().contains(StatusInfoEnum::Unregistered));
        },
        _ => panic!("the unregistration is to be sent"),
    }
    // a disposal with the key as its payload says that the payload is a key
    writer.write(&mut cache, 25, ChangeKind::NOT_ALIVE_DISPOSED, payload(9), 45).unwrap();
    match writer.next_send(reader_guid(1), &cache) {
        SendStep::Data(d) => {
            assert!(d.payload_is_key);
            assert_eq!(d.serialized_payload.unwrap().value.as_ref(), &[9]);
            assert!(d.inline_qos.unwrap().status_info.unwrap().contains(StatusInfoEnum::Disposed));
        },
        _ => panic!("the disposal is to be sent"),
    }
    // a living sample of a keyed topic carries its key hash and no status
    let mut keyed = Writer::new(writer_guid(), "keyed".to_string(), &keep_all(), true);
    cache.add_new_topic(&"keyed".to_string());
    keyed.matched_reader_add(reader_guid(1), false, false, vec![], vec![]);
    keyed.write(&mut cache, 30, ChangeKind::ALIVE, payload(1), 44).unwrap();
    match keyed.next_send(reader_guid(1), &cache) {
        SendStep::Data(d) => {
            let qos = d.inline_qos.unwrap();
            assert_eq!(qos.key_hash, Some(KeyHash::new(44)));
            assert!(qos.status_info.is_none());
            assert!(!d.payload_is_key);
        },
        _ => panic!("the sample is to be sent"),
    }
}

#[test]
fn lost_changes_are_delivered_in_the_end() {
    // a writer and a reliable reader, each with a cache of its own, and a
    // transport that loses the changes 2 and 4 when they are first sent
    let mut writer = Writer::new(writer_guid(), TOPIC.to_string(), &keep_all(), false);
    let mut sent = cache();
    writer.matched_reader_add(reader_guid(1), false, true, vec![], vec![]);
    let mut reader = Reader::new(reader_guid(1), TOPIC.to_string(), true);
    let mut received = cache();
    reader.matched_writer_add(writer_guid(), EntityId::unknown(), vec![], vec![]);

    let mut now = 0;
    for n in 1..=5u8 {
        now += 1;
        writer.write(&mut sent, now, ChangeKind::ALIVE, payload(n), 0).unwrap();
        if let SendStep::Data(d) = writer.next_send(reader_guid(1), &sent) {
            if n != 2 && n != 4 {
                // what comes before its turn is not taken in
                let expected = if n == 1 { DataOutcome::Stored } else { DataOutcome::NotAccepted };
                assert_eq!(reader.handle_data_msg(d, from_writer(), &mut received, now), expected);
            }
        }
    }
    assert_eq!(stored(&received), vec![1]);

    let mut rounds = 0;
    loop {
        rounds += 1;
        now += 1_000_000_000;
        let beats = writer.heartbeat(&sent);
        let answer = match reader.handle_heartbeat_msg(&beats[0].1, &from_writer(), now) {
            HeartbeatOutcome::Answer(a) => a,
            HeartbeatOutcome::NoAnswer => break,
            _ => panic!("no answer is held back"),
        };
        assert_eq!(writer.handle_acknack(&answer, &from_reader(1), now), AckNackOutcome::Accepted);
        while let SendStep::Data(d) = writer.next_send(reader_guid(1), &sent) {
            now += 1;
            reader.handle_data_msg(d, from_writer(), &mut received, now);
        }
        assert!(rounds < 10);
    }
    // every change is there, in the order of the numbers
    assert_eq!(stored(&received), vec![1, 2, 3, 4, 5]);
    let proxy = writer.matched_reader_lookup(reader_guid(1)).unwrap();
    assert!((1..=5).all(|n| !proxy.is_unacked(SequenceNumber(n))));
    assert_eq!(proxy.state(), ReaderProxyState::Idle);
    assert!(writer.matched_reader_remove(reader_guid(1)));
    assert!(!writer.matched_reader_remove(reader_guid(1)));
}
