use rustdds::messages::serialized_payload::{RepresentationIdentifier, SerializedPayload};
use rustdds::structure::cache_change::{CacheChange, ChangeKind};
use rustdds::structure::dds_cache::{CacheError, DDSCache, TopicCache};
use rustdds::structure::guid::{EntityId, GuidPrefix, GUID};
use rustdds::structure::sequence_number::SequenceNumber;

fn writer(n: u8) -> GUID {
    GUID::new_with_prefix_and_id(
        GuidPrefix::new(vec![n; 12]),
        EntityId::createCustomEntityID([0, 0, n], 2),
    )
}

fn change(w: u8, sn: i64, key: u128, text: &str) -> CacheChange {
    CacheChange::new(
        ChangeKind::ALIVE,
        writer(w),
        SequenceNumber::from(sn),
        Some(SerializedPayload::new(RepresentationIdentifier::CDR_LE, text.as_bytes().to_vec())),
        key,
    )
}

fn numbers(found: &[(u64, &CacheChange)]) -> Vec<(u64, i64)> {
    found.iter().map(|(t, c)| (*t, c.sequence_number.0)).collect()
}

#[test]
fn insert_is_idempotent() {
    let topic = "t".to_string();
    let mut cache = DDSCache::new();
    assert!(cache.add_new_topic(&topic));
    assert_eq!(cache.add_change(&topic, 10, change(1, 1, 0, "a")), Ok(()));
    // the same writer and number again: another instant, another payload
    assert_eq!(
        cache.add_change(&topic, 20, change(1, 1, 0, "b")),
        Err(CacheError::DuplicateChange)
    );
    assert_eq!(
        cache.add_change(&topic, 10, change(1, 1, 0, "a")),
        Err(CacheError::DuplicateChange)
    );
    let all = cache.changes_in_range(&topic, 0, u64::MAX);
    assert_eq!(numbers(&all), vec![(10, 1)]);
    assert_eq!(all[0].1.data_value.as_ref().unwrap().value.as_ref(), b"a");

    // where the first instant is taken, the second addition is the one
    assert_eq!(
        cache.add_change(&topic, 10, change(1, 2, 0, "c")),
        Err(CacheError::InstantTaken)
    );
    assert_eq!(cache.add_change(&topic, 30, change(1, 2, 0, "d")), Ok(()));
    // where both are taken, there is none
    assert_eq!(
        cache.add_change(&topic, 10, change(1, 3, 0, "e")),
        Err(CacheError::InstantTaken)
    );
    assert_eq!(
        cache.add_change(&topic, 30, change(1, 3, 0, "e")),
        Err(CacheError::InstantTaken)
    );
    let all = cache.changes_in_range(&topic, 0, u64::MAX);
    assert_eq!(numbers(&all), vec![(10, 1), (30, 2)]);
}

#[test]
fn errors_of_add_change() {
    let topic = "t".to_string();
    let mut cache = DDSCache::new();
    assert_eq!(
        cache.add_change(&topic, 10, change(1, 1, 0, "a")),
        Err(CacheError::UnknownTopic)
    );
    assert!(cache.add_new_topic(&topic));
    assert!(!cache.add_new_topic(&topic));
    assert_eq!(cache.add_change(&topic, 10, change(1, 1, 0, "a")), Ok(()));
    assert_eq!(
        cache.add_change(&topic, 10, change(1, 2, 0, "b")),
        Err(CacheError::InstantTaken)
    );
    // the same number of another writer is another change
    assert_eq!(cache.add_change(&topic, 11, change(2, 1, 0, "c")), Ok(()));
}

#[test]
fn changes_come_out_in_the_order_of_their_instants() {
    let topic = "t".to_string();
    let mut cache = DDSCache::new();
    cache.add_new_topic(&topic);
    cache.add_change(&topic, 30, change(1, 3, 0, "c")).unwrap();
    cache.add_change(&topic, 10, change(1, 1, 0, "a")).unwrap();
    cache.add_change(&topic, 20, change(1, 2, 0, "b")).unwrap();
    cache.add_change(&topic, 40, change(1, 4, 0, "d")).unwrap();
    let all = cache.changes_in_range(&topic, 0, u64::MAX);
    assert_eq!(numbers(&all), vec![(10, 1), (20, 2), (30, 3), (40, 4)]);
    // the start is excluded, the end included
    let some = cache.changes_in_range(&topic, 10, 30);
    assert_eq!(numbers(&some), vec![(20, 2), (30, 3)]);
    assert!(cache.changes_in_range(&topic, 40, 50).is_empty());
    assert!(cache.changes_in_range(&topic, 30, 10).is_empty());
    assert!(cache.changes_in_range(&"other".to_string(), 0, u64::MAX).is_empty());
}

#[test]
fn lookups_and_removals() {
    let topic = "t".to_string();
    let mut cache = DDSCache::new();
    cache.add_new_topic(&topic);
    for n in 1..=5 {
        cache.add_change(&topic, 10 * n as u64, change(1, n, 0, "x")).unwrap();
    }
    assert_eq!(cache.get_change(&topic, 30).unwrap().sequence_number.0, 3);
    assert!(cache.get_change(&topic, 31).is_none());
    assert!(cache.get_change(&"other".to_string(), 30).is_none());
    assert_eq!(cache.change_of(&topic, writer(1), SequenceNumber::from(4)).unwrap().sequence_number.0, 4);
    assert!(cache.change_of(&topic, writer(2), SequenceNumber::from(4)).is_none());
    assert_eq!(cache.lowest_sequence_number_of(&topic, writer(1)), Some(SequenceNumber::from(1)));
    assert_eq!(cache.lowest_sequence_number_of(&topic, writer(2)), None);

    assert_eq!(cache.remove_changes_before(&topic, 30), 2);
    assert_eq!(
        numbers(&cache.changes_in_range(&topic, 0, u64::MAX)),
        vec![(30, 3), (40, 4), (50, 5)]
    );
    assert_eq!(cache.remove_changes_before(&topic, 30), 0);
    assert_eq!(cache.remove_changes_before(&"other".to_string(), 30), 0);
    assert_eq!(cache.lowest_sequence_number_of(&topic, writer(1)), Some(SequenceNumber::from(3)));

    assert!(cache.remove_topic(&topic));
    assert!(!cache.remove_topic(&topic));
    assert!(cache.changes_in_range(&topic, 0, u64::MAX).is_empty());
}

#[test]
fn eviction_by_depth_and_by_acknowledgement() {
    let topic = "t".to_string();
    let mut cache = DDSCache::new();
    cache.add_new_topic(&topic);
    // two instances of writer 1, one change of writer 2
    cache.add_change(&topic, 10, change(1, 1, 7, "a")).unwrap();
    cache.add_change(&topic, 20, change(1, 2, 8, "b")).unwrap();
    cache.add_change(&topic, 30, change(1, 3, 7, "c")).unwrap();
    cache.add_change(&topic, 40, change(2, 1, 7, "d")).unwrap();
    cache.add_change(&topic, 50, change(1, 4, 7, "e")).unwrap();
    assert_eq!(cache.keep_newest_of_instance(&topic, writer(1), 7, 2), 1);
    assert_eq!(
        numbers(&cache.changes_in_range(&topic, 0, u64::MAX)),
        vec![(20, 2), (30, 3), (40, 1), (50, 4)]
    );
    assert_eq!(cache.keep_newest_of_instance(&topic, writer(1), 7, 2), 0);
    assert_eq!(cache.remove_acknowledged(&topic, writer(1), SequenceNumber::from(3)), 2);
    assert_eq!(numbers(&cache.changes_in_range(&topic, 0, u64::MAX)), vec![(40, 1), (50, 4)]);
    assert_eq!(cache.keep_newest_of_instance(&topic, writer(1), 7, 0), 1);
    assert_eq!(numbers(&cache.changes_in_range(&topic, 0, u64::MAX)), vec![(40, 1)]);
}

#[test]
fn one_topic_alone() {
    let mut topic = TopicCache::new("alone".to_string());
    assert_eq!(topic.len(), 0);
    assert_eq!(topic.add_change(5, change(1, 1, 0, "a")), Ok(()));
    assert_eq!(topic.add_change(6, change(1, 1, 0, "a")), Err(CacheError::DuplicateChange));
    assert_eq!(topic.add_change(5, change(1, 2, 0, "b")), Err(CacheError::InstantTaken));
    assert_eq!(topic.len(), 1);
    assert_eq!(topic.get_change(5).unwrap().sequence_number.0, 1);
    assert_eq!(topic.remove_changes_before(6), 1);
    assert_eq!(topic.len(), 0);
}

#[test]
fn changes_are_equal_by_writer_and_number() {
    assert!(change(1, 1, 0, "a") == change(1, 1, 9, "b"));
    assert!(change(1, 1, 0, "a") != change(1, 2, 0, "a"));
    assert!(change(1, 1, 0, "a") != change(2, 1, 0, "a"));
    let copy = change(1, 5, 3, "payload").clone();
    assert_eq!(copy.instance_key_hash, 3);
    assert_eq!(copy.data_value.unwrap().value.as_ref(), b"payload");
}
