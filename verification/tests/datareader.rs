use rustdds::dds::datasample::DataSample;
use rustdds::dds::ddsdata::DDSData;
use rustdds::dds::message_receiver::MessageReceiverState;
use rustdds::dds::qos::{History, QosPolicies};
use rustdds::dds::readcondition::ReadCondition;
use rustdds::dds::reader::{DataOutcome, HeartbeatOutcome, Reader};
use rustdds::dds::result::Error;
use rustdds::dds::sampleinfo::{InstanceState, SampleState};
use rustdds::dds::traits::{Keyed, SerializerAdapter};
use rustdds::dds::with_key::datareader::{result_ok_as_ref_err_clone, DataReader, SelectByKey};
use rustdds::dds::writer::{AckNackOutcome, SendStep, Writer};
use rustdds::messages::message::{Header, Message, Submessage};
use rustdds::messages::serialized_payload::{RepresentationIdentifier, SerializedPayload};
use rustdds::messages::submessages::{Data, InlineQos};
use rustdds::serialization::Endianness;
use rustdds::structure::dds_cache::DDSCache;
use rustdds::structure::guid::{EntityId, GuidPrefix, GUID};
use rustdds::structure::inline_qos::{KeyHash, StatusInfo, StatusInfoEnum};
use rustdds::structure::sequence_number::SequenceNumber;
use rustdds::test::random_data::{RandomData, RandomDataCdr};

fn to_bytes(data: &RandomData) -> Vec<u8> {
    RandomDataCdr::to_bytes(data).unwrap()
}

struct Bench {
    cache: DDSCache,
    reader: Reader,
    datareader: DataReader<RandomData, RandomDataCdr>,
    writer_guid: GUID,
    mr_state: MessageReceiverState,
    now: u64,
}

impl Bench {
    fn new(topic: &str) -> Bench {
        let mut qos = QosPolicies::qos_none();
        qos.history = Some(History::KeepAll);
        let own_prefix = GuidPrefix::new(vec![7; 12]);
        let mut cache = DDSCache::new();
        assert!(cache.add_new_topic(&topic.to_string()));
        let default_id = EntityId::default();
        let reader_guid = GUID::new_with_prefix_and_id(own_prefix, default_id);
        let mut reader = Reader::new(reader_guid, topic.to_string(), false);
        let datareader =
            DataReader::new(Some(own_prefix), default_id, topic.to_string(), qos, 0).unwrap();
        let writer_guid = GUID {
            guidPrefix: GuidPrefix::new(vec![1; 12]),
            entityId: EntityId::createCustomEntityID([1; 3], 1),
        };
        let mut mr_state = MessageReceiverState::default();
        mr_state.source_guid_prefix = writer_guid.guidPrefix;
        assert!(reader.matched_writer_add(
            writer_guid.clone(),
            EntityId::unknown(),
            mr_state.unicast_reply_locator_list.clone(),
            mr_state.multicast_reply_locator_list.clone(),
        ));
        Bench { cache, reader, datareader, writer_guid, mr_state, now: 0 }
    }

    fn data_of(&self, reader_id: EntityId, sn: i64, value: &RandomData) -> Data {
        let mut data = Data::default();
        data.reader_id = reader_id;
        data.writer_id = self.writer_guid.entityId;
        data.writer_sn = SequenceNumber::from(sn);
        data.serialized_payload = Some(SerializedPayload {
            representation_identifier: RepresentationIdentifier::CDR_LE.to_u16(),
            representation_options: [0, 0],
            value: to_bytes(value).into(),
        });
        data
    }

    fn deliver(&mut self, data: Data) -> DataOutcome {
        self.now += 10;
        self.reader.handle_data_msg(data, self.mr_state.clone(), &mut self.cache, self.now)
    }

    fn later(&mut self) -> u64 {
        self.now += 10;
        self.now
    }
}

#[test]
fn dr_get_samples_from_ddschache() {
    let mut bench = Bench::new("dr");

    let random_data = RandomData { a: 1, b: "somedata".to_string() };
    let data_key = random_data.get_key();

    let data = bench.data_of(EntityId::createCustomEntityID([1, 2, 3], 111), 0, &random_data);
    bench.deliver(data);

    let now = bench.later();
    bench.datareader.get_datasamples_from_cache(&bench.cache, now);
    let deserialized_random_data =
        bench.datareader.get_datasample(&data_key).unwrap()[0].get_value().unwrap();

    assert_eq!(deserialized_random_data, &random_data);

    // Test getting of next samples.
    let random_data2 = RandomData { a: 1, b: "somedata number 2".to_string() };
    let data2 = bench.data_of(EntityId::createCustomEntityID([1, 2, 3], 111), 1, &random_data2);

    let random_data3 = RandomData { a: 1, b: "third somedata".to_string() };
    let data3 = bench.data_of(EntityId::createCustomEntityID([1, 2, 3], 111), 2, &random_data3);

    bench.deliver(data2);
    bench.deliver(data3);

    let now = bench.later();
    bench.datareader.get_datasamples_from_cache(&bench.cache, now);
    let random_data_vec = bench.datareader.get_datasample(&data_key).unwrap();
    assert_eq!(random_data_vec.len(), 3);
}

#[test]
fn dr_read_and_take() {
    let mut bench = Bench::new("dr read");
    let reader_id = bench.reader.get_entity_id();

    // Reader and datareader ready, test with data
    let test_data = RandomData { a: 10, b: ":DDD".to_string() };

    let test_data2 = RandomData { a: 11, b: ":)))".to_string() };

    let data_msg = bench.data_of(reader_id, 0, &test_data);
    let data_msg2 = bench.data_of(reader_id, 1, &test_data2);
    bench.deliver(data_msg);
    bench.deliver(data_msg2);

    // Read the same sample two times.
    {
        let now = bench.later();
        let result_vec = bench.datareader.read(&bench.cache, now, 100, ReadCondition::any()).unwrap();
        let d = result_vec[0].get_value().unwrap();
        assert_eq!(&&test_data, d);
    }
    {
        let now = bench.later();
        let result_vec2 = bench.datareader.read(&bench.cache, now, 100, ReadCondition::any()).unwrap();
        let d2 = result_vec2[1].get_value().unwrap();
        assert_eq!(&&test_data2, d2);
    }
    {
        let now = bench.later();
        let result_vec3 = bench.datareader.read(&bench.cache, now, 100, ReadCondition::any()).unwrap();
        let d3 = result_vec3[0].get_value().unwrap();
        assert_eq!(&&test_data, d3);
    }

    // Take
    let now = bench.later();
    let mut result_vec = bench.datareader.take(&bench.cache, now, 100, ReadCondition::any()).unwrap();
    let now = bench.later();
    let result_vec2 = bench.datareader.take(&bench.cache, now, 100, ReadCondition::any());

    let d2 = result_vec.pop().unwrap();
    let d2 = d2.get_value().unwrap();
    let d1 = result_vec.pop().unwrap();
    let d1 = d1.get_value().unwrap();
    assert_eq!(&test_data2, d2);
    assert_eq!(&test_data, d1);
    assert!(result_vec2.is_ok());
    assert_eq!(result_vec2.unwrap().len(), 0);

    // Read and take tests with instant

    let data_key1 = RandomData { a: 1, b: ":D".to_string() };
    let data_key2_1 = RandomData { a: 2, b: ":(".to_string() };
    let data_key2_2 = RandomData { a: 2, b: ":)".to_string() };
    let data_key2_3 = RandomData { a: 2, b: "xD".to_string() };

    let key1 = data_key1.get_key();
    let key2 = data_key2_1.get_key();

    assert!(data_key2_1.get_key() == data_key2_2.get_key());
    assert!(data_key2_3.get_key() == key2);

    let data_msg = bench.data_of(reader_id, 2, &data_key1);
    let data_msg2 = bench.data_of(reader_id, 3, &data_key2_1);
    let data_msg3 = bench.data_of(reader_id, 4, &data_key2_2);
    let data_msg4 = bench.data_of(reader_id, 5, &data_key2_3);
    bench.deliver(data_msg);
    bench.deliver(data_msg2);
    bench.deliver(data_msg3);
    bench.deliver(data_msg4);

    // calling read with key 1 and this
    let now = bench.later();
    let results = bench.datareader.read_instance(
        &bench.cache,
        now,
        100,
        ReadCondition::any(),
        Some(key1),
        SelectByKey::This,
    );
    assert_eq!(&data_key1, results.unwrap()[0].get_keyed_value().as_ref().unwrap());

    // calling read with None and this
    // Takes the samllest key, 1 in this case.
    let now = bench.later();
    let results = bench.datareader.read_instance(
        &bench.cache,
        now,
        100,
        ReadCondition::any(),
        None,
        SelectByKey::This,
    );
    assert_eq!(&data_key1, results.unwrap()[0].get_keyed_value().as_ref().unwrap());

    // calling read with key 1 and next
    let now = bench.later();
    let results = bench.datareader.read_instance(
        &bench.cache,
        now,
        100,
        ReadCondition::any(),
        Some(key1),
        SelectByKey::Next,
    );
    assert_eq!(results.as_ref().unwrap().len(), 3);
    assert_eq!(&data_key2_2, results.unwrap()[1].get_keyed_value().as_ref().unwrap());

    // calling take with key 2 and this
    let now = bench.later();
    let results = bench.datareader.take_instance(
        &bench.cache,
        now,
        100,
        ReadCondition::any(),
        Some(key2),
        SelectByKey::This,
    );
    assert_eq!(results.as_ref().unwrap().len(), 3);
    let mut vec = results.unwrap();
    let d3 = vec.pop().unwrap();
    let d3 = d3.into_value().unwrap();
    let d2 = vec.pop().unwrap();
    let d2 = d2.into_value().unwrap();
    let d1 = vec.pop().unwrap();
    let d1 = d1.into_value().unwrap();
    assert_eq!(data_key2_3, d3);
    assert_eq!(data_key2_2, d2);
    assert_eq!(data_key2_1, d1);

    // calling take with key 2 and this
    let now = bench.later();
    let results = bench.datareader.take_instance(
        &bench.cache,
        now,
        100,
        ReadCondition::any(),
        Some(key2),
        SelectByKey::This,
    );
    assert!(results.is_ok());
    assert!(results.unwrap().is_empty());
}

fn values_of(samples: &[DataSample<&RandomData>]) -> Vec<RandomData> {
    samples.iter().map(|s| (*s.get_value().unwrap()).clone()).collect()
}

#[test]
fn write_read_read_take_take() {
    let mut bench = Bench::new("semantics");
    let reader_id = bench.reader.get_entity_id();
    let a = RandomData { a: 1, b: "a".to_string() };
    let b = RandomData { a: 2, b: "b".to_string() };
    assert_eq!(bench.deliver(bench.data_of(reader_id, 1, &a)), DataOutcome::Stored);
    assert_eq!(bench.deliver(bench.data_of(reader_id, 2, &b)), DataOutcome::Stored);

    let now = bench.later();
    let first = bench.datareader.read(&bench.cache, now, 100, ReadCondition::any()).unwrap();
    assert_eq!(values_of(&first), vec![a.clone(), b.clone()]);
    assert!(first.iter().all(|s| s.sample_info().sample_state == SampleState::Read));

    let now = bench.later();
    let second = bench.datareader.read(&bench.cache, now, 100, ReadCondition::any()).unwrap();
    assert_eq!(values_of(&second), vec![a.clone(), b.clone()]);

    let now = bench.later();
    let taken = bench.datareader.take(&bench.cache, now, 100, ReadCondition::any()).unwrap();
    let taken: Vec<RandomData> = taken.into_iter().map(|s| s.into_value().unwrap()).collect();
    assert_eq!(taken, vec![a, b]);

    let now = bench.later();
    let rest = bench.datareader.take(&bench.cache, now, 100, ReadCondition::any()).unwrap();
    assert!(rest.is_empty());
}

#[test]
fn read_stops_at_max_samples() {
    let mut bench = Bench::new("max");
    let reader_id = bench.reader.get_entity_id();
    for n in 1..=5 {
        let value = RandomData { a: n, b: format!("n{}", n) };
        bench.deliver(bench.data_of(reader_id, n, &value));
    }
    let now = bench.later();
    let two = bench.datareader.read(&bench.cache, now, 2, ReadCondition::any()).unwrap();
    assert_eq!(two.len(), 2);
    assert_eq!(two[0].get_value().unwrap().a, 1);
    assert_eq!(two[1].get_value().unwrap().a, 2);

    // the two that were read are seen, so the next unseen one is the third
    let now = bench.later();
    let next = bench.datareader.read_next_sample(&bench.cache, now).unwrap().unwrap();
    assert_eq!(next.get_value().unwrap().a, 3);

    let now = bench.later();
    let unseen = bench.datareader.take(&bench.cache, now, 100, ReadCondition::not_read()).unwrap();
    let unseen: Vec<i64> = unseen.iter().map(|s| s.get_key()).collect();
    assert_eq!(unseen, vec![4, 5]);

    // a look for no samples ends after the first sample it comes past
    let now = bench.later();
    let none = bench.datareader.take(&bench.cache, now, 0, ReadCondition::any()).unwrap();
    assert_eq!(none.len(), 1);
    assert_eq!(none[0].get_key(), 1);

    let now = bench.later();
    let next = bench.datareader.take_next_sample(&bench.cache, now).unwrap();
    assert!(next.is_none());
}

#[test]
fn history_keeps_the_newest() {
    let topic = "history".to_string();
    let mut bench = Bench::new("history");
    let mut qos = QosPolicies::qos_none();
    qos.history = Some(History::KeepLast { depth: 2 });
    bench.datareader =
        DataReader::new(Some(GuidPrefix::new(vec![7; 12])), EntityId::default(), topic, qos, 0)
            .unwrap();
    assert_eq!(bench.datareader.get_qos().history, Some(History::KeepLast { depth: 2 }));
    let reader_id = bench.reader.get_entity_id();
    for n in 1..=4 {
        let value = RandomData { a: 1, b: format!("v{}", n) };
        bench.deliver(bench.data_of(reader_id, n, &value));
    }
    let now = bench.later();
    let kept = bench.datareader.take(&bench.cache, now, 100, ReadCondition::any()).unwrap();
    let kept: Vec<String> = kept.into_iter().map(|s| s.into_value().unwrap().b).collect();
    assert_eq!(kept, vec!["v3".to_string(), "v4".to_string()]);
}

#[test]
fn reader_without_participant_is_refused() {
    let r: Result<DataReader<RandomData, RandomDataCdr>, Error> = DataReader::new(
        None,
        EntityId::default(),
        "t".to_string(),
        QosPolicies::qos_none(),
        0,
    );
    assert!(matches!(r, Err(Error::PreconditionNotMet)));
}

#[test]
fn changes_of_the_own_participant_are_passed_over() {
    let mut bench = Bench::new("own");
    let reader_id = bench.reader.get_entity_id();
    let own_writer = GUID::new_with_prefix_and_id(
        GuidPrefix::new(vec![7; 12]),
        EntityId::createCustomEntityID([0, 0, 5], 2),
    );
    bench.reader.matched_writer_add(own_writer, EntityId::unknown(), vec![], vec![]);
    let value = RandomData { a: 3, b: "mine".to_string() };
    let mut data = bench.data_of(reader_id, 1, &value);
    data.writer_id = own_writer.entityId;
    bench.now += 10;
    let mut own_state = MessageReceiverState::default();
    own_state.source_guid_prefix = own_writer.guidPrefix;
    let now = bench.now;
    assert_eq!(
        bench.reader.handle_data_msg(data, own_state, &mut bench.cache, now),
        DataOutcome::Stored
    );
    let now = bench.later();
    let got = bench.datareader.read(&bench.cache, now, 100, ReadCondition::any()).unwrap();
    assert!(got.is_empty());
}

#[test]
fn disposal_reaches_the_application() {
    let mut bench = Bench::new("dispose");
    let reader_id = bench.reader.get_entity_id();
    let value = RandomData { a: 5, b: "alive".to_string() };
    bench.deliver(bench.data_of(reader_id, 1, &value));
    let now = bench.later();
    bench.datareader.get_datasamples_from_cache(&bench.cache, now);

    let hash = rustdds::dds::traits::Key::into_hash_key(&5i64);
    let mut dispose = Data::default();
    dispose.reader_id = reader_id;
    dispose.writer_id = bench.writer_guid.entityId;
    dispose.writer_sn = SequenceNumber::from(2);
    dispose.inline_qos = Some(InlineQos {
        status_info: Some(StatusInfo::empty().with(StatusInfoEnum::Disposed)),
        key_hash: Some(KeyHash::new(hash)),
    });
    assert_eq!(bench.deliver(dispose), DataOutcome::Stored);

    let now = bench.later();
    let got = bench.datareader.take(&bench.cache, now, 100, ReadCondition::any()).unwrap();
    assert_eq!(got.len(), 2);
    assert_eq!(got[1].sample_info().instance_state, InstanceState::NotAlive_Disposed);
    assert_eq!(got[1].get_keyed_value(), &Err(5));

    // a disposal of an instance that the reader has never seen says nothing
    let mut unknown = Data::default();
    unknown.reader_id = reader_id;
    unknown.writer_id = bench.writer_guid.entityId;
    unknown.writer_sn = SequenceNumber::from(3);
    unknown.inline_qos = Some(InlineQos {
        status_info: Some(StatusInfo::empty().with(StatusInfoEnum::Disposed)),
        key_hash: Some(KeyHash::new(12345)),
    });
    assert_eq!(bench.deliver(unknown), DataOutcome::Stored);
    let now = bench.later();
    let got = bench.datareader.take(&bench.cache, now, 100, ReadCondition::any()).unwrap();
    assert!(got.is_empty());
}

#[test]
fn disposal_with_its_key_goes_from_writer_to_application() {
    let mut bench = Bench::new("dispose");
    let reader_guid = bench.reader.get_guid();
    let mut keep_all = QosPolicies::qos_none();
    keep_all.history = Some(History::KeepAll);
    let mut writer = Writer::new(bench.writer_guid, "dispose".to_string(), &keep_all, true);
    let mut sent = DDSCache::new();
    sent.add_new_topic(&"dispose".to_string());
    writer.matched_reader_add(reader_guid, false, false, vec![], vec![]);

    // a sample of the instance 5, then its disposal with the key as payload
    let value = RandomData { a: 5, b: "alive".to_string() };
    let alive = DDSData::from::<RandomData, RandomDataCdr>(&value, None);
    let hash = rustdds::dds::traits::Key::into_hash_key(&5i64);
    writer.write(&mut sent, 1, alive.change_kind(), alive.value(), hash).unwrap();
    let gone = DDSData::from_dispose::<RandomData, RandomDataCdr>(5, None);
    assert_eq!(gone.value_key_hash(), hash);
    writer.write(&mut sent, 2, gone.change_kind(), gone.value(), gone.value_key_hash()).unwrap();

    for expect_key in [false, true] {
        let data = match writer.next_send(reader_guid, &sent) {
            SendStep::Data(data) => data,
            _ => panic!("a change is to be sent"),
        };
        assert_eq!(data.payload_is_key, expect_key);
        // over the wire and back
        let mut message = Message::new(Header::new(bench.writer_guid.guidPrefix));
        message.add_submessage(Submessage::Data(data));
        let octets = message.encode(Endianness::LittleEndian).unwrap();
        let (mut back, error) = Message::decode(&octets).unwrap();
        assert!(error.is_none());
        match back.submessages.remove(0) {
            Submessage::Data(data) => {
                assert_eq!(data.payload_is_key, expect_key);
                if expect_key {
                    assert_eq!(
                        data.serialized_payload.as_ref().unwrap().value.as_ref(),
                        &[5, 0, 0, 0, 0, 0, 0, 0]
                    );
                }
                assert_eq!(bench.deliver(data), DataOutcome::Stored);
            }
            _ => panic!("a DATA submessage comes back"),
        }
    }
    let now = bench.later();
    let got = bench.datareader.take(&bench.cache, now, 100, ReadCondition::any()).unwrap();
    assert_eq!(got.len(), 2);
    assert_eq!(got[0].get_keyed_value().as_ref().unwrap().b, "alive");
    assert_eq!(got[1].sample_info().instance_state, InstanceState::NotAlive_Disposed);
    assert_eq!(got[1].get_keyed_value(), &Err(5));
}

#[test]
fn what_a_reliable_writer_wrote_is_taken_once_and_in_order() {
    // a reliable writer and reader; the transport loses every second change
    // when it is first sent
    let topic = "reliable".to_string();
    let own = GuidPrefix::new(vec![7; 12]);
    let reader_guid = GUID::new_with_prefix_and_id(own, EntityId::createCustomEntityID([0, 0, 1], 7));
    let writer_guid = GUID::new_with_prefix_and_id(
        GuidPrefix::new(vec![1; 12]),
        EntityId::createCustomEntityID([0, 0, 1], 2),
    );
    let mut keep_all = QosPolicies::qos_none();
    keep_all.history = Some(History::KeepAll);
    let mut writer = Writer::new(writer_guid, topic.clone(), &keep_all, true);
    writer.matched_reader_add(reader_guid, false, true, vec![], vec![]);
    let mut sent = DDSCache::new();
    sent.add_new_topic(&topic);
    let mut reader = Reader::new(reader_guid, topic.clone(), true);
    reader.matched_writer_add(writer_guid, EntityId::unknown(), vec![], vec![]);
    let mut received = DDSCache::new();
    received.add_new_topic(&topic);
    let mut datareader: DataReader<RandomData, RandomDataCdr> =
        DataReader::new(Some(own), reader_guid.entityId, topic.clone(), keep_all, 0).unwrap();
    let mut from_writer = MessageReceiverState::default();
    from_writer.source_guid_prefix = writer_guid.guidPrefix;
    let mut from_reader = MessageReceiverState::default();
    from_reader.source_guid_prefix = own;

    // the instances 9, 3, 9, 3, 5, 9 in the order of writing
    let keys: [i64; 6] = [9, 3, 9, 3, 5, 9];
    let mut now = 0;
    for (i, key) in keys.iter().enumerate() {
        now += 1;
        let value = RandomData { a: *key, b: format!("n{}", i + 1) };
        let data = DDSData::from::<RandomData, RandomDataCdr>(&value, None);
        let hash = rustdds::dds::traits::Key::into_hash_key(key);
        writer.write(&mut sent, now, data.change_kind(), data.value(), hash).unwrap();
        if let SendStep::Data(d) = writer.next_send(reader_guid, &sent) {
            if i % 2 == 0 {
                reader.handle_data_msg(d, from_writer.clone(), &mut received, now);
            }
        }
    }
    // heartbeats and acknowledgements until the reader misses nothing
    let mut rounds = 0;
    loop {
        rounds += 1;
        now += 1_000_000_000;
        let beats = writer.heartbeat(&sent);
        let answer = match reader.handle_heartbeat_msg(&beats[0].1, &from_writer, now) {
            HeartbeatOutcome::Answer(a) => a,
            HeartbeatOutcome::NoAnswer => break,
            _ => panic!("no answer is held back"),
        };
        assert_eq!(writer.handle_acknack(&answer, &from_reader, now), AckNackOutcome::Accepted);
        while let SendStep::Data(d) = writer.next_send(reader_guid, &sent) {
            now += 1;
            reader.handle_data_msg(d, from_writer.clone(), &mut received, now);
        }
        assert!(rounds < 10);
    }

    now += 1;
    let got = datareader.take(&received, now, keys.len(), ReadCondition::any()).unwrap();
    // one sample for each change: instance by instance, and within an
    // instance in the order of the sequence numbers
    let texts: Vec<(i64, String)> = got
        .iter()
        .map(|s| {
            let v = s.get_keyed_value().as_ref().unwrap();
            (v.a, v.b.clone())
        })
        .collect();
    let expected: Vec<(i64, String)> = [(3, "n2"), (3, "n4"), (5, "n5"), (9, "n1"), (9, "n3"), (9, "n6")]
        .iter()
        .map(|(k, t)| (*k, t.to_string()))
        .collect();
    assert_eq!(texts, expected);
    // none is handed out twice
    now += 1;
    assert!(datareader.take(&received, now, 100, ReadCondition::any()).unwrap().is_empty());
    assert!(datareader.read(&received, now, 100, ReadCondition::any()).unwrap().is_empty());
}

#[test]
fn shared_view_of_a_result() {
    let ok: Result<String, i32> = Ok("x".to_string());
    assert_eq!(result_ok_as_ref_err_clone(&ok), Ok(&"x".to_string()));
    let err: Result<String, i32> = Err(3);
    assert_eq!(result_ok_as_ref_err_clone(&err), Err(3));
}
