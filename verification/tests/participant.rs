use rustdds::dds::ddsdata::DDSData;
use rustdds::dds::dp_event_loop::{
    due_timers, next_instant, poll_timeout, source_of, token_of, EventSource,
};
use rustdds::dds::message_receiver::{Dispatch, MessageReceiver};
use rustdds::dds::participant::{
    discovery_start_outcome, first_bind_step, next_bind_step, select_participant_id, BindStep,
    ADD_READER_CHANNEL_BOUND, ADD_WRITER_CHANNEL_BOUND, DISCOVERY_COMMAND_CHANNEL_BOUND,
    DISCOVERY_NOTIFICATION_CHANNEL_BOUND, DISCOVERY_TIMEOUT_SECONDS,
};
use rustdds::dds::qos::QosPolicies;
use rustdds::dds::result::Error;
use rustdds::dds::writer::{AckNackOutcome, Writer};
use rustdds::messages::message::{Header, Message, Submessage};
use rustdds::messages::submessages::AckNack;
use rustdds::network::constant::{
    get_spdp_well_known_multicast_port, get_spdp_well_known_unicast_port,
    get_user_traffic_multicast_port, get_user_traffic_unicast_port, multicast_group,
    participant_ports, ParticipantPorts,
};
use rustdds::serialization::Endianness;
use rustdds::structure::cache_change::ChangeKind;
use rustdds::structure::dds_cache::DDSCache;
use rustdds::structure::guid::{EntityId, GuidPrefix, GUID};
use rustdds::structure::sequence_number::{SequenceNumber, SequenceNumberSet};
use rustdds::test::random_data::{RandomData, RandomDataCdr};

#[test]
fn ports_of_domain_7_participant_2() {
    assert_eq!(get_spdp_well_known_multicast_port(7), 9150);
    assert_eq!(get_spdp_well_known_unicast_port(7, 2), 9164);
    assert_eq!(get_user_traffic_multicast_port(7), 9151);
    assert_eq!(get_user_traffic_unicast_port(7, 2), 9165);
    assert_eq!(
        participant_ports(7, 2),
        Some(ParticipantPorts {
            spdp_multicast: 9150,
            spdp_unicast: 9164,
            user_multicast: 9151,
            user_unicast: 9165,
        })
    );
}

#[test]
fn ports_at_the_edges() {
    assert_eq!(get_spdp_well_known_multicast_port(0), 7400);
    assert_eq!(get_spdp_well_known_unicast_port(0, 0), 7410);
    assert_eq!(get_user_traffic_multicast_port(0), 7401);
    assert_eq!(get_user_traffic_unicast_port(0, 0), 7411);
    assert_eq!(get_user_traffic_unicast_port(5, 0), 8661);
    let last = participant_ports(231, 119).unwrap();
    assert_eq!(last.spdp_multicast, 65150);
    assert_eq!(last.user_unicast, 65399);
    assert_eq!(participant_ports(232, 0), None);
    assert_eq!(participant_ports(0, 120), None);
    assert_eq!(multicast_group(), [239, 255, 0, 1]);
}

#[test]
fn search_for_a_participant_id() {
    let first = first_bind_step(7);
    let ports = match first {
        BindStep::Try { participant_id: 0, ports } => ports,
        _ => panic!("the search begins at 0"),
    };
    assert_eq!(ports.spdp_unicast, 9160);
    assert_eq!(ports.user_unicast, 9161);
    assert_eq!(first_bind_step(232), BindStep::Exhausted);

    match next_bind_step(7, 0, false) {
        BindStep::Try { participant_id: 1, ports } => {
            assert_eq!(ports.spdp_unicast, 9162);
            assert_eq!(ports.user_unicast, 9163);
        },
        _ => panic!("1 is tried after 0"),
    }
    match next_bind_step(7, 2, true) {
        BindStep::Selected { participant_id: 2, ports } => {
            assert_eq!(ports.spdp_unicast, 9164);
            assert_eq!(ports.user_unicast, 9165);
        },
        _ => panic!("2 is bound"),
    }
    assert_eq!(next_bind_step(7, 119, false), BindStep::Exhausted);
    assert!(matches!(next_bind_step(7, 119, true), BindStep::Selected { participant_id: 119, .. }));
}

#[test]
fn least_bindable_id_is_selected() {
    assert_eq!(select_participant_id(&vec![false, false, true, true]), Ok(2));
    assert_eq!(select_participant_id(&vec![true]), Ok(0));
    assert_eq!(select_participant_id(&vec![]), Err(Error::OutOfResources));
    assert_eq!(select_participant_id(&vec![false; 3]), Err(Error::OutOfResources));
    let mut late = vec![false; 121];
    late[120] = true;
    assert_eq!(select_participant_id(&late), Err(Error::OutOfResources));
    late[119] = true;
    assert_eq!(select_participant_id(&late), Ok(119));
}

#[test]
fn start_of_discovery() {
    assert_eq!(discovery_start_outcome(Some(Ok(()))), Ok(()));
    assert_eq!(discovery_start_outcome(Some(Err(Error::OutOfResources))), Err(Error::Internal));
    assert_eq!(discovery_start_outcome(None), Err(Error::Internal));
    assert_eq!(DISCOVERY_COMMAND_CHANNEL_BOUND, 10);
    assert_eq!(ADD_READER_CHANNEL_BOUND, 100);
    assert_eq!(ADD_WRITER_CHANNEL_BOUND, 10);
    assert_eq!(DISCOVERY_NOTIFICATION_CHANNEL_BOUND, 100);
    assert_eq!(DISCOVERY_TIMEOUT_SECONDS, 10);
}

#[test]
fn event_loop_waits_for_the_nearest_timer() {
    assert_eq!(poll_timeout(100, &vec![]), None);
    assert_eq!(poll_timeout(100, &vec![350, 150, 900]), Some(50));
    assert_eq!(poll_timeout(100, &vec![350, 100]), Some(0));
    assert_eq!(poll_timeout(100, &vec![350, 20]), Some(0));
    assert_eq!(due_timers(100, &vec![350, 100, 20, 101]), vec![1, 2]);
    assert!(due_timers(100, &vec![]).is_empty());
    for source in [
        EventSource::Stop,
        EventSource::DiscoveryUnicast,
        EventSource::DiscoveryMulticast,
        EventSource::UserTrafficUnicast,
        EventSource::UserTrafficMulticast,
        EventSource::AddReader,
        EventSource::RemoveReader,
        EventSource::AddWriter,
        EventSource::RemoveWriter,
        EventSource::DiscoveryNotification,
    ] {
        assert_eq!(source_of(token_of(source)), Some(source));
    }
    assert_eq!(source_of(10), None);
}

#[test]
fn dp_writer_hearbeat_test() {
    // a writer of the keyed topic "Aasii" and a reliable reader of it
    let qos = QosPolicies::qos_none();
    let prefix = GuidPrefix::new(vec![1; 12]);
    let guid = GUID::new_with_prefix_and_id(prefix, EntityId::createCustomEntityID([0, 0, 1], 2));
    let reader = GUID::new_with_prefix_and_id(
        GuidPrefix::new(vec![2; 12]),
        EntityId::createCustomEntityID([0, 0, 1], 7),
    );
    let mut writer = Writer::new(guid, "Aasii".to_string(), &qos, true);
    assert!(writer.matched_reader_add(reader, false, true, vec![], vec![]));
    let mut cache = DDSCache::new();
    assert!(cache.add_new_topic(&"Aasii".to_string()));

    // nothing written: the heartbeat announces the numbers from 1 to 0
    let beats = writer.heartbeat(&cache);
    assert_eq!(beats.len(), 1);
    assert!(beats[0].0 == reader);
    assert_eq!(beats[0].1.writer_id, guid.entityId);
    assert_eq!(beats[0].1.first_sn, SequenceNumber(1));
    assert_eq!(beats[0].1.last_sn, SequenceNumber(0));
    assert_eq!(beats[0].1.count, 1);
    assert!(beats[0].1.final_flag);

    let sample = RandomData { a: 4, b: "Fobar".to_string() };
    let data = DDSData::from::<RandomData, RandomDataCdr>(&sample, None);
    let written = writer.write(&mut cache, 1, ChangeKind::ALIVE, data.value(), 4);
    assert_eq!(written, Ok(SequenceNumber(1)));
    let beats = writer.heartbeat(&cache);
    assert_eq!(beats[0].1.first_sn, SequenceNumber(1));
    assert_eq!(beats[0].1.last_sn, SequenceNumber(1));
    assert_eq!(beats[0].1.count, 2);
    assert!(!beats[0].1.final_flag);
}

#[test]
fn dp_recieve_acknack_message_test() {
    let qos = QosPolicies::qos_none();
    let own = GuidPrefix::new(vec![1; 12]);
    let guid = GUID::new_with_prefix_and_id(own, EntityId::spdp_builtin_participant_writer());
    let mut writer = Writer::new(guid, "Aasii".to_string(), &qos, true);

    let port_number: u16 = get_user_traffic_unicast_port(5, 0);
    assert_eq!(port_number, 8661);

    let a = AckNack {
        reader_id: EntityId::spdp_builtin_participant_reader(),
        writer_id: EntityId::spdp_builtin_participant_writer(),
        reader_sn_state: SequenceNumberSet::new(SequenceNumber::default()),
        count: 1,
        final_flag: false,
    };
    let mut m = Message::new(Header::new(GUID::new().guidPrefix));
    m.add_submessage(Submessage::AckNack(a));
    let data: Vec<u8> = m.encode(Endianness::LittleEndian).unwrap();
    // the header, the four octets before the submessage, and its 24 octets
    assert_eq!(data.len(), 20 + 4 + 24);
    assert_eq!(&data[..4], b"RTPS");
    assert_eq!(&data[4..8], &[2, 3, 0x01, 0x12]);
    assert_eq!(&data[20..24], &[0x06, 0x01, 24, 0]);

    // what comes over the wire is handed to the writer that it names
    let (message, error) = Message::decode(&data).unwrap();
    assert!(error.is_none());
    assert_eq!(message.submessages.len(), 1);
    let mut receiver = MessageReceiver::new(own);
    receiver.begin(message.header.guid_prefix);
    let dispatch = receiver.interpret(&message.submessages[0]);
    let writer_id = match dispatch {
        Dispatch::ToWriters { writer_id } => writer_id,
        _ => panic!("an acknowledgement goes to writers"),
    };
    let writers = vec![];
    assert!(MessageReceiver::addressed_writers(&writers, writer_id).is_empty());
    match &message.submessages[0] {
        Submessage::AckNack(acknack) => {
            assert_eq!(acknack.count, 1);
            assert_eq!(acknack.reader_sn_state.base(), SequenceNumber(1));
            assert_eq!(acknack.reader_sn_state.num_bits(), 0);
            // the reader that acknowledges is not matched
            assert_eq!(
                writer.handle_acknack(acknack, receiver.get_state(), 0),
                AckNackOutcome::UnknownReader
            );
        }
        _ => panic!("the message holds an acknowledgement"),
    }
}

#[test]
fn no_two_changes_come_at_one_instant() {
    // the clock has gone on
    assert_eq!(next_instant(10, 25), 25);
    // the clock stands still, or has gone back
    assert_eq!(next_instant(10, 10), 11);
    assert_eq!(next_instant(10, 3), 11);
    assert_eq!(next_instant(0, 0), 1);
    assert_eq!(next_instant(u64::MAX - 1, 0), u64::MAX);
    // after the last instant none follows
    assert_eq!(next_instant(u64::MAX, 5), u64::MAX);
    let mut last = 7;
    for clock in [7, 7, 8, 8, 20, 19] {
        let next = next_instant(last, clock);
        assert!(next > last && next >= clock);
        last = next;
    }
    assert_eq!(last, 21);
}
