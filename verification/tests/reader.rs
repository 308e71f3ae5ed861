use rustdds::dds::message_receiver::MessageReceiverState;
use rustdds::dds::reader::{DataOutcome, HeartbeatOutcome, Reader, WriterProxy};
use rustdds::messages::serialized_payload::{RepresentationIdentifier, SerializedPayload};
use rustdds::messages::submessages::{Data, Gap, Heartbeat, InlineQos};
use rustdds::structure::cache_change::ChangeKind;
use rustdds::structure::dds_cache::{CacheError, DDSCache};
use rustdds::structure::guid::{EntityId, GuidPrefix, GUID};
use rustdds::structure::inline_qos::{KeyHash, StatusInfo, StatusInfoEnum};
use rustdds::structure::sequence_number::{NumberSet, SequenceNumber, SequenceNumberSet};

const TOPIC: &str = "topic";

fn writer_guid() -> GUID {
    GUID::new_with_prefix_and_id(
        GuidPrefix::new(vec![1; 12]),
        EntityId::createCustomEntityID([0, 0, 1], 2),
    )
}

fn state() -> MessageReceiverState {
    let mut s = MessageReceiverState::default();
    s.source_guid_prefix = writer_guid().guidPrefix;
    s
}

fn setup(reliable: bool) -> (Reader, DDSCache) {
    let guid = GUID::new_with_prefix_and_id(
        GuidPrefix::new(vec![2; 12]),
        EntityId::createCustomEntityID([0, 0, 9], 7),
    );
    let mut reader = Reader::new(guid, TOPIC.to_string(), reliable);
    assert!(reader.matched_writer_add(writer_guid(), EntityId::unknown(), vec![], vec![]));
    assert!(!reader.matched_writer_add(writer_guid(), EntityId::unknown(), vec![], vec![]));
    let mut cache = DDSCache::new();
    cache.add_new_topic(&TOPIC.to_string());
    (reader, cache)
}

fn data(sn: i64) -> Data {
    let mut d = Data::default();
    d.writer_id = writer_guid().entityId;
    d.writer_sn = SequenceNumber::from(sn);
    d.serialized_payload =
        Some(SerializedPayload::new(RepresentationIdentifier::CDR_LE, vec![sn as u8]));
    d
}

fn heartbeat(first: i64, last: i64, count: i32, final_flag: bool) -> Heartbeat {
    Heartbeat {
        reader_id: EntityId::unknown(),
        writer_id: writer_guid().entityId,
        first_sn: SequenceNumber::from(first),
        last_sn: SequenceNumber::from(last),
        count,
        final_flag,
        liveliness_flag: false,
    }
}

fn proxy(reader: &Reader) -> &WriterProxy {
    reader.matched_writer_lookup(writer_guid()).unwrap()
}

fn missing(reader: &Reader, range: std::ops::RangeInclusive<i64>) -> Vec<i64> {
    range.filter(|n| proxy(reader).is_missing(SequenceNumber::from(*n))).collect()
}

#[test]
fn best_effort_reader_never_goes_back() {
    let (mut reader, mut cache) = setup(false);
    let mut highest = proxy(&reader).highest_sn_received().0;
    assert_eq!(highest, -1);
    let mut now = 0;
    for sn in [1, 2, 5, 3, 5, 9, 4, 10] {
        now += 1;
        let outcome = reader.handle_data_msg(data(sn), state(), &mut cache, now);
        let after = proxy(&reader).highest_sn_received().0;
        assert!(after >= highest);
        if sn > highest {
            assert_eq!(outcome, DataOutcome::Stored);
            assert_eq!(after, sn);
        } else {
            assert_eq!(outcome, DataOutcome::NotAccepted);
            assert_eq!(after, highest);
        }
        highest = after;
    }
    assert_eq!(highest, 10);
    assert!(proxy(&reader).nothing_missing());
    let stored: Vec<i64> = cache
        .changes_in_range(&TOPIC.to_string(), 0, u64::MAX)
        .iter()
        .map(|(_, c)| c.sequence_number.0)
        .collect();
    assert_eq!(stored, vec![1, 2, 5, 9, 10]);
}

#[test]
fn dispose_carries_key() {
    let (mut reader, mut cache) = setup(false);
    let mut dispose = Data::default();
    dispose.writer_id = writer_guid().entityId;
    dispose.writer_sn = SequenceNumber::from(1);
    dispose.inline_qos = Some(InlineQos {
        status_info: Some(StatusInfo::empty().with(StatusInfoEnum::Disposed)),
        key_hash: Some(KeyHash::new(0xabcdef)),
    });
    assert_eq!(reader.handle_data_msg(dispose, state(), &mut cache, 5), DataOutcome::Stored);
    let topic = TOPIC.to_string();
    let found = cache.changes_in_range(&topic, 0, 10);
    assert_eq!(found.len(), 1);
    assert_eq!(found[0].0, 5);
    assert_eq!(found[0].1.kind, ChangeKind::NOT_ALIVE_DISPOSED);
    assert_eq!(found[0].1.instance_key_hash, 0xabcdef);
    assert!(found[0].1.data_value.is_none());
    assert!(found[0].1.writer_guid == writer_guid());
}

#[test]
fn dispose_carries_the_key_as_payload() {
    let (mut reader, mut cache) = setup(false);
    let mut dispose = data(1);
    dispose.payload_is_key = true;
    dispose.inline_qos = Some(InlineQos {
        status_info: Some(StatusInfo::empty().with(StatusInfoEnum::Disposed)),
        key_hash: Some(KeyHash::new(7)),
    });
    assert_eq!(reader.handle_data_msg(dispose, state(), &mut cache, 5), DataOutcome::Stored);
    // a key that comes with no word on the instance is not kept
    let mut bare = data(2);
    bare.payload_is_key = true;
    assert_eq!(reader.handle_data_msg(bare, state(), &mut cache, 6), DataOutcome::Stored);
    let topic = TOPIC.to_string();
    let found = cache.changes_in_range(&topic, 0, 10);
    assert_eq!(found.len(), 2);
    assert_eq!(found[0].1.kind, ChangeKind::NOT_ALIVE_DISPOSED);
    assert_eq!(found[0].1.instance_key_hash, 7);
    assert_eq!(found[0].1.data_value.as_ref().unwrap().value.as_ref(), &[1]);
    assert_eq!(found[1].1.kind, ChangeKind::ALIVE);
    assert!(found[1].1.data_value.is_none());
}

#[test]
fn kind_of_a_change() {
    let (mut reader, mut cache) = setup(false);
    // a status beside a payload is not read
    let mut with_payload = data(1);
    with_payload.inline_qos = Some(InlineQos {
        status_info: Some(StatusInfo::empty().with(StatusInfoEnum::Disposed)),
        key_hash: None,
    });
    reader.handle_data_msg(with_payload, state(), &mut cache, 1);
    // without payload and without status the change is alive
    let mut bare = Data::default();
    bare.writer_id = writer_guid().entityId;
    bare.writer_sn = SequenceNumber::from(2);
    bare.inline_qos = Some(InlineQos { status_info: None, key_hash: Some(KeyHash::new(4)) });
    reader.handle_data_msg(bare, state(), &mut cache, 2);
    let mut unregistered = Data::default();
    unregistered.writer_id = writer_guid().entityId;
    unregistered.writer_sn = SequenceNumber::from(3);
    unregistered.inline_qos = Some(InlineQos {
        status_info: Some(StatusInfo::empty().with(StatusInfoEnum::Unregistered)),
        key_hash: None,
    });
    reader.handle_data_msg(unregistered, state(), &mut cache, 3);
    let topic = TOPIC.to_string();
    let kinds: Vec<(ChangeKind, u128)> = cache
        .changes_in_range(&topic, 0, 10)
        .iter()
        .map(|(_, c)| (c.kind, c.instance_key_hash))
        .collect();
    assert_eq!(
        kinds,
        vec![
            (ChangeKind::ALIVE, 0),
            (ChangeKind::ALIVE, 4),
            (ChangeKind::NOT_ALIVE_UNREGISTERED, 0)
        ]
    );
}

#[test]
fn unknown_writer_and_cache_refusals() {
    let (mut reader, mut cache) = setup(false);
    let mut stranger = state();
    stranger.source_guid_prefix = GuidPrefix::new(vec![3; 12]);
    assert_eq!(
        reader.handle_data_msg(data(1), stranger, &mut cache, 1),
        DataOutcome::UnknownWriter
    );
    assert_eq!(reader.handle_data_msg(data(1), state(), &mut cache, 1), DataOutcome::Stored);
    assert_eq!(
        reader.handle_data_msg(data(2), state(), &mut cache, 1),
        DataOutcome::CacheRejected(CacheError::InstantTaken)
    );
    assert_eq!(proxy(&reader).highest_sn_received().0, 1);
    let mut empty = DDSCache::new();
    assert_eq!(
        reader.handle_data_msg(data(2), state(), &mut empty, 2),
        DataOutcome::CacheRejected(CacheError::UnknownTopic)
    );
    // a second reader of the topic finds the change in the cache
    let (mut second, _) = setup(false);
    assert_eq!(
        second.handle_data_msg(data(1), state(), &mut cache, 9),
        DataOutcome::AlreadyCached
    );
    assert_eq!(proxy(&second).highest_sn_received().0, 1);
    assert_eq!(cache.changes_in_range(&TOPIC.to_string(), 0, 100).len(), 1);
}

#[test]
fn reliable_reader_asks_for_what_is_missing() {
    let (mut reader, mut cache) = setup(true);
    assert!(reader.is_reliable());
    assert_eq!(reader.handle_data_msg(data(1), state(), &mut cache, 1), DataOutcome::Stored);
    // 2 and 3 are lost, and 4 comes before its turn
    assert_eq!(reader.handle_data_msg(data(4), state(), &mut cache, 2), DataOutcome::NotAccepted);
    assert_eq!(proxy(&reader).highest_sn_received().0, 1);
    assert!(proxy(&reader).nothing_missing());

    let answer = match reader.handle_heartbeat_msg(&heartbeat(1, 6, 1, false), &state(), 10) {
        HeartbeatOutcome::Answer(a) => a,
        _ => panic!("an answer is due"),
    };
    assert_eq!(missing(&reader, 0..=10), vec![2, 3, 4, 5, 6]);
    assert_eq!(answer.count, 1);
    assert!(!answer.final_flag);
    assert_eq!(answer.reader_id, reader.get_entity_id());
    assert_eq!(answer.writer_id, writer_guid().entityId);
    assert_eq!(answer.reader_sn_state.base(), SequenceNumber::from(2));
    assert_eq!(answer.reader_sn_state.num_bits(), 5);
    let bits: Vec<bool> = (0..5).map(|i| answer.reader_sn_state.bit(i)).collect();
    assert_eq!(bits, vec![true, true, true, true, true]);

    // a replay changes nothing
    assert!(matches!(
        reader.handle_heartbeat_msg(&heartbeat(1, 9, 1, false), &state(), 1000),
        HeartbeatOutcome::Replay
    ));
    assert_eq!(missing(&reader, 0..=10), vec![2, 3, 4, 5, 6]);

    // changes sent again are taken in in their turn, and none twice
    assert_eq!(reader.handle_data_msg(data(3), state(), &mut cache, 11), DataOutcome::NotAccepted);
    assert_eq!(reader.handle_data_msg(data(2), state(), &mut cache, 12), DataOutcome::Stored);
    assert_eq!(reader.handle_data_msg(data(2), state(), &mut cache, 13), DataOutcome::NotAccepted);
    assert_eq!(reader.handle_data_msg(data(1), state(), &mut cache, 14), DataOutcome::NotAccepted);
    assert_eq!(missing(&reader, 0..=10), vec![3, 4, 5, 6]);

    // an answer is held back for 200 ms after the last one
    assert!(matches!(
        reader.handle_heartbeat_msg(&heartbeat(1, 6, 2, false), &state(), 10 + 199_999_999),
        HeartbeatOutcome::Suppressed
    ));
    let again = match reader.handle_heartbeat_msg(&heartbeat(1, 6, 3, true), &state(), 10 + 200_000_000) {
        HeartbeatOutcome::Answer(a) => a,
        _ => panic!("an answer is due"),
    };
    assert_eq!(again.count, 2);
    assert_eq!(again.reader_sn_state.base(), SequenceNumber::from(3));
    assert_eq!(again.reader_sn_state.num_bits(), 4);

    for (now, sn) in [(20, 3), (21, 4), (22, 5), (23, 6)] {
        assert_eq!(reader.handle_data_msg(data(sn), state(), &mut cache, now), DataOutcome::Stored);
    }
    assert!(proxy(&reader).nothing_missing());
    // everything is there: a final heartbeat asks for nothing
    assert!(matches!(
        reader.handle_heartbeat_msg(&heartbeat(1, 6, 4, true), &state(), 1_000_000_000),
        HeartbeatOutcome::NoAnswer
    ));
    // one that is not final is answered with an empty window
    let done = match reader.handle_heartbeat_msg(&heartbeat(1, 6, 5, false), &state(), 2_000_000_000) {
        HeartbeatOutcome::Answer(a) => a,
        _ => panic!("an answer is due"),
    };
    assert!(done.final_flag);
    assert_eq!(done.reader_sn_state.base(), SequenceNumber::from(7));
    assert_eq!(done.reader_sn_state.num_bits(), 0);
    assert!(done.reader_sn_state.is_empty());

    // the cache holds the changes in the order of their numbers
    let stored: Vec<i64> = cache
        .changes_in_range(&TOPIC.to_string(), 0, u64::MAX)
        .iter()
        .map(|(_, c)| c.sequence_number.0)
        .collect();
    assert_eq!(stored, vec![1, 2, 3, 4, 5, 6]);
}

#[test]
fn heartbeat_says_what_will_not_come_any_more() {
    let (mut reader, mut cache) = setup(true);
    // the writer has the changes from 5 on only
    let answer = match reader.handle_heartbeat_msg(&heartbeat(5, 7, 1, true), &state(), 0) {
        HeartbeatOutcome::Answer(a) => a,
        _ => panic!("an answer is due"),
    };
    assert_eq!(proxy(&reader).highest_sn_received().0, 4);
    assert_eq!(missing(&reader, 0..=10), vec![5, 6, 7]);
    assert_eq!(answer.reader_sn_state.base(), SequenceNumber::from(5));
    assert_eq!(answer.reader_sn_state.num_bits(), 3);
    assert_eq!(reader.handle_data_msg(data(4), state(), &mut cache, 1), DataOutcome::NotAccepted);
    assert_eq!(reader.handle_data_msg(data(5), state(), &mut cache, 2), DataOutcome::Stored);
    // a heartbeat never takes the reader back
    reader.handle_heartbeat_msg(&heartbeat(1, 7, 2, true), &state(), 3);
    assert_eq!(proxy(&reader).highest_sn_received().0, 5);
    assert_eq!(missing(&reader, 0..=10), vec![6, 7]);
    // a writer that has nothing announces the numbers from 1 to 0
    let (mut fresh, _) = setup(true);
    assert!(matches!(
        fresh.handle_heartbeat_msg(&heartbeat(1, 0, 1, true), &state(), 0),
        HeartbeatOutcome::NoAnswer
    ));
    assert!(proxy(&fresh).nothing_missing());
    assert!(proxy(&fresh).accepts(SequenceNumber::from(1), true));
}

#[test]
fn heartbeats_of_strangers_and_for_best_effort() {
    let (mut reader, _) = setup(false);
    let mut stranger = state();
    stranger.source_guid_prefix = GuidPrefix::new(vec![3; 12]);
    assert!(matches!(
        reader.handle_heartbeat_msg(&heartbeat(1, 3, 1, false), &stranger, 0),
        HeartbeatOutcome::UnknownWriter
    ));
    assert!(matches!(
        reader.handle_heartbeat_msg(&heartbeat(1, 3, 1, false), &state(), 0),
        HeartbeatOutcome::NoAnswer
    ));
    assert_eq!(missing(&reader, 0..=5), vec![1, 2, 3]);
}

#[test]
fn window_is_no_longer_than_256() {
    let (mut reader, _) = setup(true);
    let answer = match reader.handle_heartbeat_msg(&heartbeat(1, 1000, 1, true), &state(), 0) {
        HeartbeatOutcome::Answer(a) => a,
        _ => panic!("an answer is due"),
    };
    assert_eq!(answer.reader_sn_state.base(), SequenceNumber::from(1));
    assert_eq!(answer.reader_sn_state.num_bits(), 256);
    assert!(answer.reader_sn_state.bit(0));
    assert!(answer.reader_sn_state.bit(1));
    assert!(answer.reader_sn_state.bit(255));
    reader.set_nack_suppression(0);
    assert!(matches!(
        reader.handle_heartbeat_msg(&heartbeat(1, 1000, 2, true), &state(), 1),
        HeartbeatOutcome::Suppressed
    ));
    assert!(matches!(
        reader.handle_heartbeat_msg(&heartbeat(1, 1000, 3, true), &state(), 200_000_000),
        HeartbeatOutcome::Answer(_)
    ));
    assert!(matches!(
        reader.handle_heartbeat_msg(&heartbeat(1, 1000, 4, true), &state(), 200_000_000),
        HeartbeatOutcome::Answer(_)
    ));
}

#[test]
fn gap_settles_numbers() {
    let (mut reader, mut cache) = setup(true);
    reader.handle_data_msg(data(1), state(), &mut cache, 1);
    reader.handle_heartbeat_msg(&heartbeat(1, 10, 1, true), &state(), 2);
    assert_eq!(missing(&reader, 0..=12), vec![2, 3, 4, 5, 6, 7, 8, 9, 10]);
    // 2, 3 and 4 are gone, and of the list from 5 on the numbers 6 and 8
    let list = SequenceNumberSet::from_bits(
        SequenceNumber::from(5),
        vec![false, true, false, true],
    )
    .unwrap();
    let gap = Gap {
        reader_id: EntityId::unknown(),
        writer_id: writer_guid().entityId,
        gap_start: SequenceNumber::from(2),
        gap_list: list,
    };
    assert!(reader.handle_gap_msg(&gap, &state()));
    assert_eq!(missing(&reader, 0..=12), vec![5, 7, 9, 10]);
    // 2, 3 and 4 follow the newest that came; 6 and 8 do not yet
    assert_eq!(proxy(&reader).highest_sn_received().0, 4);
    assert!(!proxy(&reader).accepts(SequenceNumber::from(3), true));
    assert!(proxy(&reader).accepts(SequenceNumber::from(5), true));
    assert!(!proxy(&reader).accepts(SequenceNumber::from(6), true));
    assert!(!proxy(&reader).accepts(SequenceNumber::from(11), true));
    assert!(proxy(&reader).accepts(SequenceNumber::from(11), false));
    assert!(!proxy(&reader).accepts(SequenceNumber::from(4), false));
    // with 5 there, the gap told once more takes the reader over 6
    assert_eq!(reader.handle_data_msg(data(6), state(), &mut cache, 3), DataOutcome::NotAccepted);
    assert_eq!(reader.handle_data_msg(data(5), state(), &mut cache, 4), DataOutcome::Stored);
    assert!(reader.handle_gap_msg(&gap, &state()));
    assert_eq!(proxy(&reader).highest_sn_received().0, 6);
    assert_eq!(reader.handle_data_msg(data(7), state(), &mut cache, 5), DataOutcome::Stored);
    assert!(reader.handle_gap_msg(&gap, &state()));
    assert_eq!(proxy(&reader).highest_sn_received().0, 8);
    assert_eq!(missing(&reader, 0..=12), vec![9, 10]);

    let mut stranger = state();
    stranger.source_guid_prefix = GuidPrefix::new(vec![3; 12]);
    assert!(!reader.handle_gap_msg(&gap, &stranger));

    // a gap that names nothing changes nothing
    let nothing = Gap {
        reader_id: EntityId::unknown(),
        writer_id: writer_guid().entityId,
        gap_start: SequenceNumber::from(20),
        gap_list: SequenceNumberSet::new(SequenceNumber::from(20)),
    };
    assert!(reader.handle_gap_msg(&nothing, &state()));
    assert_eq!(proxy(&reader).highest_sn_received().0, 8);
    assert_eq!(missing(&reader, 0..=12), vec![9, 10]);

    // a gap whose list begins where the reader stands
    let list = SequenceNumberSet::from_bits(SequenceNumber::from(9), vec![true, true, false, true])
        .unwrap();
    let gap = Gap {
        reader_id: EntityId::unknown(),
        writer_id: writer_guid().entityId,
        gap_start: SequenceNumber::from(9),
        gap_list: list,
    };
    assert!(reader.handle_gap_msg(&gap, &state()));
    assert_eq!(proxy(&reader).highest_sn_received().0, 10);
    assert!(proxy(&reader).nothing_missing());

    // a reader that has heard nothing stands before the number 1
    let (mut fresh, _) = setup(true);
    let gap = Gap {
        reader_id: EntityId::unknown(),
        writer_id: writer_guid().entityId,
        gap_start: SequenceNumber::from(-5),
        gap_list: SequenceNumberSet::from_bits(SequenceNumber::from(3), vec![true]).unwrap(),
    };
    assert!(fresh.handle_gap_msg(&gap, &state()));
    assert_eq!(proxy(&fresh).highest_sn_received().0, 3);
    let (mut fresh, _) = setup(true);
    let gap = Gap {
        reader_id: EntityId::unknown(),
        writer_id: writer_guid().entityId,
        gap_start: SequenceNumber::from(2),
        gap_list: SequenceNumberSet::from_bits(SequenceNumber::from(3), vec![true]).unwrap(),
    };
    assert!(fresh.handle_gap_msg(&gap, &state()));
    assert_eq!(proxy(&fresh).highest_sn_received().0, -1);
}

#[test]
fn lost_participant_takes_its_writers_along() {
    let (mut reader, _) = setup(true);
    let other = GUID::new_with_prefix_and_id(
        GuidPrefix::new(vec![1; 12]),
        EntityId::createCustomEntityID([0, 0, 2], 2),
    );
    let third = GUID::new_with_prefix_and_id(
        GuidPrefix::new(vec![5; 12]),
        EntityId::createCustomEntityID([0, 0, 1], 2),
    );
    reader.matched_writer_add(other, EntityId::unknown(), vec![], vec![]);
    reader.matched_writer_add(third, EntityId::unknown(), vec![], vec![]);
    reader.remove_writers_of(GuidPrefix::new(vec![1; 12]));
    assert!(reader.matched_writer_lookup(writer_guid()).is_none());
    assert!(reader.matched_writer_lookup(other).is_none());
    assert!(reader.matched_writer_lookup(third).is_some());
    assert!(reader.matched_writer_remove(third));
    assert!(!reader.matched_writer_remove(third));
    reader.remove_writers_of(GuidPrefix::new(vec![1; 12]));
    reader.remove_writers_of(GuidPrefix::new(vec![5; 12]));
    assert!(reader.matched_writer_lookup(third).is_none());
}

#[test]
fn number_sets() {
    let mut set = NumberSet::new();
    assert!(set.is_empty());
    assert_eq!(set.min(), None);
    assert_eq!(set.max(), None);
    set.fill_range(3, 7);
    set.insert(10);
    set.insert(5);
    assert!(!set.is_empty());
    assert_eq!(set.min(), Some(3));
    assert_eq!(set.max(), Some(10));
    assert!(set.contains(5) && set.contains(10) && !set.contains(8));
    set.remove(5);
    set.remove(8);
    assert!(!set.contains(5));
    set.keep_range(4, 10);
    assert_eq!((0..12).filter(|n| set.contains(*n)).collect::<Vec<i64>>(), vec![4, 6, 7, 10]);
    set.remove_range(6, 9);
    assert_eq!((0..12).filter(|n| set.contains(*n)).collect::<Vec<i64>>(), vec![4, 10]);
    set.fill_range(9, 8);
    assert_eq!((0..12).filter(|n| set.contains(*n)).collect::<Vec<i64>>(), vec![4, 10]);
    set.fill_range(i64::MAX, i64::MAX);
    assert_eq!(set.max(), Some(i64::MAX));
}

#[test]
fn windows() {
    let mut numbers = NumberSet::new();
    numbers.insert(12);
    numbers.insert(14);
    numbers.insert(99);
    let window = SequenceNumberSet::of_numbers(SequenceNumber::from(11), 4, &numbers);
    assert_eq!(window.base(), SequenceNumber::from(11));
    assert_eq!(window.num_bits(), 4);
    assert!(!window.contains(SequenceNumber::from(11)));
    assert!(window.contains(SequenceNumber::from(12)));
    assert!(window.contains(SequenceNumber::from(14)));
    assert!(!window.contains(SequenceNumber::from(99)));
    assert!(!window.contains(SequenceNumber::from(10)));
    assert!(!window.is_empty());
    let copy = window.clone();
    assert_eq!(copy.num_bits(), 4);
    assert!(copy.bit(1) && !copy.bit(2));
    assert!(SequenceNumberSet::from_bits(SequenceNumber::from(1), vec![true; 257]).is_none());
    assert!(SequenceNumberSet::from_bits(SequenceNumber::from(i64::MAX), vec![true; 2]).is_none());
    assert!(SequenceNumberSet::from_bits(SequenceNumber::from(i64::MAX), vec![true; 1]).is_some());
    assert!(SequenceNumberSet::from_bits(SequenceNumber::from(1), vec![false; 256]).unwrap().is_empty());
    assert_eq!(SequenceNumber::first().value(), 1);
    assert_eq!(SequenceNumber::default(), SequenceNumber(1));
}

#[test]
fn far_numbers_cost_nothing() {
    let (mut reader, _) = setup(true);
    let answer = match reader.handle_heartbeat_msg(&heartbeat(1, i64::MAX, 1, false), &state(), 0) {
        HeartbeatOutcome::Answer(a) => a,
        _ => panic!("an answer is due"),
    };
    assert_eq!(answer.reader_sn_state.base(), SequenceNumber::from(1));
    assert_eq!(answer.reader_sn_state.num_bits(), 256);
    assert!(proxy(&reader).is_missing(SequenceNumber::from(i64::MAX)));
    assert!(!proxy(&reader).nothing_missing());

    // everything below 2^62 is gone
    let far = 1i64 << 62;
    let gap = Gap {
        reader_id: EntityId::unknown(),
        writer_id: writer_guid().entityId,
        gap_start: SequenceNumber::from(1),
        gap_list: SequenceNumberSet::new(SequenceNumber::from(far)),
    };
    assert!(reader.handle_gap_msg(&gap, &state()));
    assert_eq!(proxy(&reader).highest_sn_received().0, far - 1);
    assert!(proxy(&reader).is_missing(SequenceNumber::from(far)));
    assert!(!proxy(&reader).is_missing(SequenceNumber::from(far - 1)));
    assert!(proxy(&reader).accepts(SequenceNumber::from(far), true));

    // a range far ahead is settled, but the reader stays where it stands
    let gap = Gap {
        reader_id: EntityId::unknown(),
        writer_id: writer_guid().entityId,
        gap_start: SequenceNumber::from(far + 10),
        gap_list: SequenceNumberSet::from_bits(SequenceNumber::from(i64::MAX), vec![true]).unwrap(),
    };
    assert!(reader.handle_gap_msg(&gap, &state()));
    assert_eq!(proxy(&reader).highest_sn_received().0, far - 1);
    assert_eq!(missing(&reader, far - 2..=far + 12), (far..far + 10).collect::<Vec<i64>>());
    assert!(!proxy(&reader).is_missing(SequenceNumber::from(i64::MAX)));
    reader.set_nack_suppression(0);
    let answer = match reader.handle_heartbeat_msg(&heartbeat(1, i64::MAX, 2, true), &state(), 200_000_000) {
        HeartbeatOutcome::Answer(a) => a,
        _ => panic!("an answer is due"),
    };
    // a heartbeat says anew what is missing
    assert_eq!(answer.reader_sn_state.base(), SequenceNumber::from(far));
    assert_eq!(answer.reader_sn_state.num_bits(), 256);
    assert!(proxy(&reader).is_missing(SequenceNumber::from(i64::MAX)));

    // the rest is gone as well
    let gap = Gap {
        reader_id: EntityId::unknown(),
        writer_id: writer_guid().entityId,
        gap_start: SequenceNumber::from(far),
        gap_list: SequenceNumberSet::from_bits(SequenceNumber::from(i64::MAX), vec![true]).unwrap(),
    };
    assert!(reader.handle_gap_msg(&gap, &state()));
    assert_eq!(proxy(&reader).highest_sn_received().0, i64::MAX);
    assert!(proxy(&reader).nothing_missing());
    assert!(!proxy(&reader).accepts(SequenceNumber::from(i64::MAX), true));
    assert!(!proxy(&reader).accepts(SequenceNumber::from(1), true));
    let done = match reader.handle_heartbeat_msg(&heartbeat(1, i64::MAX, 3, false), &state(), 200_000_000) {
        HeartbeatOutcome::Answer(a) => a,
        _ => panic!("an answer is due"),
    };
    assert!(done.final_flag);
    assert_eq!(done.reader_sn_state.base(), SequenceNumber::from(i64::MAX));
    assert_eq!(done.reader_sn_state.num_bits(), 0);
}
