use rustdds::dds::message_receiver::{Dispatch, MessageReceiver};
use rustdds::dds::reader::Reader;
use rustdds::dds::writer::Writer;
use rustdds::dds::qos::QosPolicies;
use rustdds::messages::codec::{endianness_of, flag, flags_of, is_little};
use rustdds::messages::message::{Header, Message, Submessage};
use rustdds::messages::serialized_payload::{RepresentationIdentifier, SerializedPayload};
use rustdds::messages::submessages::{
    AckNack, Data, Gap, Heartbeat, InfoDestination, InfoReply, InfoSource, InfoTimestamp, InlineQos,
};
use rustdds::structure::locator::{
    copy_locators, Locator, LOCATOR_KIND_INVALID, LOCATOR_KIND_UDP_V4, LOCATOR_KIND_UDP_V6,
};
use rustdds::messages::wire::{get_sequence_number_set, put_sequence_number_set};
use rustdds::serialization::{
    get_uint, i32_from_wire, i32_to_wire, i64_from_wire, i64_to_wire, put_uint, Endianness, Error,
};
use rustdds::structure::guid::{EntityId, GuidPrefix, GUID};
use rustdds::structure::inline_qos::{KeyHash, StatusInfo, StatusInfoEnum};
use rustdds::structure::sequence_number::{SequenceNumber, SequenceNumberSet};
use rustdds::structure::time::Timestamp;

const BE: Endianness = Endianness::BigEndian;
const LE: Endianness = Endianness::LittleEndian;

fn reader_id() -> EntityId {
    EntityId::createCustomEntityID([0, 0, 3], 7)
}

fn writer_id() -> EntityId {
    EntityId::createCustomEntityID([0, 0, 4], 2)
}

fn encoded(sub: &Submessage, e: Endianness) -> Vec<u8> {
    let mut out = Vec::new();
    sub.write(&mut out, e).unwrap();
    out
}

fn decoded(octets: &[u8]) -> Submessage {
    let (sub, next) = Submessage::read(octets, 0).unwrap();
    assert_eq!(next, octets.len());
    sub.unwrap()
}

fn bits_of(set: &SequenceNumberSet) -> Vec<bool> {
    (0..set.num_bits()).map(|i| set.bit(i)).collect()
}

#[test]
fn integers_on_the_wire() {
    let mut out = Vec::new();
    put_uint(&mut out, 0x0102_0304, 4, BE);
    put_uint(&mut out, 0x0102_0304, 4, LE);
    put_uint(&mut out, 0xabcd, 2, BE);
    put_uint(&mut out, 0xabcd, 2, LE);
    assert_eq!(out, vec![1, 2, 3, 4, 4, 3, 2, 1, 0xab, 0xcd, 0xcd, 0xab]);
    assert_eq!(get_uint(&out, 0, 4, BE), 0x0102_0304);
    assert_eq!(get_uint(&out, 4, 4, LE), 0x0102_0304);
    assert_eq!(get_uint(&out, 8, 2, BE), 0xabcd);
    assert_eq!(get_uint(&out, 1, 8, LE), 0xab01_0203_0404_0302);
    assert_eq!(get_uint(&out, 3, 0, LE), 0);
    assert_eq!(i32_to_wire(-1), 0xffff_ffff);
    assert_eq!(i32_from_wire(0x8000_0000), i32::MIN);
    assert_eq!(i32_from_wire(i32_to_wire(-77)), -77);
    assert_eq!(i64_to_wire(-2), 0xffff_ffff_ffff_fffe);
    assert_eq!(i64_from_wire(i64_to_wire(i64::MIN)), i64::MIN);
    assert_eq!(i64_from_wire(5), 5);
}

#[test]
fn flags() {
    assert_eq!(flags_of(true, false, true, false), 5);
    assert_eq!(flags_of(false, true, false, true), 10);
    assert!(flag(5, 0) && !flag(5, 1) && flag(5, 2) && !flag(5, 3));
    assert_eq!(endianness_of(1), LE);
    assert_eq!(endianness_of(6), BE);
    assert!(is_little(LE) && !is_little(BE));
}

#[test]
fn length_of_a_window() {
    for (num_bits, words) in [(0usize, 0usize), (1, 1), (32, 1), (33, 2), (64, 2), (65, 3), (256, 8)] {
        let set = SequenceNumberSet::from_bits(SequenceNumber(10), vec![true; num_bits]).unwrap();
        for e in [BE, LE] {
            let mut out = Vec::new();
            put_sequence_number_set(&mut out, &set, e);
            assert_eq!(out.len(), 8 + 4 + 4 * words);
            let (back, next) = get_sequence_number_set(&out, 0, e).unwrap();
            assert_eq!(next, out.len());
            assert_eq!(back.base(), SequenceNumber(10));
            assert_eq!(bits_of(&back), vec![true; num_bits]);
        }
    }
}

#[test]
fn window_bit_for_bit() {
    let mut bits = vec![false; 34];
    bits[0] = true;
    bits[31] = true;
    bits[33] = true;
    let set = SequenceNumberSet::from_bits(SequenceNumber(0x1_0000_0002), bits.clone()).unwrap();
    let mut out = Vec::new();
    put_sequence_number_set(&mut out, &set, BE);
    assert_eq!(
        out,
        vec![
            0, 0, 0, 1, 0, 0, 0, 2, // base: high, low
            0, 0, 0, 34, // count of bits
            0x80, 0, 0, 1, // bits 0..31, most significant first
            0x40, 0, 0, 0, // bits 32 and 33
        ]
    );
    let mut out = Vec::new();
    put_sequence_number_set(&mut out, &set, LE);
    assert_eq!(
        out,
        vec![1, 0, 0, 0, 2, 0, 0, 0, 34, 0, 0, 0, 1, 0, 0, 0x80, 0, 0, 0, 0x40]
    );
    let (back, _) = get_sequence_number_set(&out, 0, LE).unwrap();
    assert_eq!(bits_of(&back), bits);

    assert!(matches!(get_sequence_number_set(&out[..11], 0, LE), Err(Error::Eof)));
    assert!(matches!(get_sequence_number_set(&out[..19], 0, LE), Err(Error::Eof)));
    let mut too_many = out.clone();
    too_many[8] = 1;
    too_many[9] = 1;
    assert!(matches!(get_sequence_number_set(&too_many, 0, LE), Err(Error::Malformed)));
    // a window that reaches past the last sequence number
    let past = vec![0x7f, 0xff, 0xff, 0xff, 0xff, 0xff, 0xff, 0xff, 0, 0, 0, 2, 0, 0, 0, 0];
    assert!(matches!(get_sequence_number_set(&past, 0, BE), Err(Error::Malformed)));
}

#[test]
fn heartbeat_round_trip() {
    let hb = Heartbeat {
        reader_id: reader_id(),
        writer_id: writer_id(),
        first_sn: SequenceNumber(1),
        last_sn: SequenceNumber(0x2_0000_0003),
        count: 5,
        final_flag: true,
        liveliness_flag: false,
    };
    let octets = encoded(&Submessage::Heartbeat(hb), BE);
    assert_eq!(
        octets,
        vec![
            0x07, 0x02, 0, 28, // kind, flags, length
            0, 0, 3, 7, 0, 0, 4, 2, // reader, writer
            0, 0, 0, 0, 0, 0, 0, 1, // first
            0, 0, 0, 2, 0, 0, 0, 3, // last
            0, 0, 0, 5, // count
        ]
    );
    assert!(matches!(decoded(&octets), Submessage::Heartbeat(h) if h == hb));
    let little = encoded(&Submessage::Heartbeat(hb), LE);
    assert_eq!(&little[..4], &[0x07, 0x03, 28, 0]);
    assert_eq!(&little[20..32], &[2, 0, 0, 0, 3, 0, 0, 0, 5, 0, 0, 0]);
    assert!(matches!(decoded(&little), Submessage::Heartbeat(h) if h == hb));
    let negative = Heartbeat { count: -3, first_sn: SequenceNumber(-1), liveliness_flag: true, ..hb };
    for e in [BE, LE] {
        let back = decoded(&encoded(&Submessage::Heartbeat(negative), e));
        assert!(matches!(back, Submessage::Heartbeat(h) if h == negative));
    }
    assert!(matches!(Heartbeat::read_body(&octets[4..31], 2), Err(Error::Eof)));
}

#[test]
fn acknack_and_gap_round_trip() {
    let window = || SequenceNumberSet::from_bits(SequenceNumber(7), vec![true, false, true]).unwrap();
    for e in [BE, LE] {
        let ack = AckNack {
            reader_id: reader_id(),
            writer_id: writer_id(),
            reader_sn_state: window(),
            count: 9,
            final_flag: true,
        };
        let octets = encoded(&Submessage::AckNack(ack), e);
        assert_eq!(octets.len(), 4 + 8 + 12 + 4 + 4);
        assert_eq!(octets[0], 0x06);
        match decoded(&octets) {
            Submessage::AckNack(a) => {
                assert_eq!((a.reader_id, a.writer_id, a.count, a.final_flag), (reader_id(), writer_id(), 9, true));
                assert_eq!(a.reader_sn_state.base(), SequenceNumber(7));
                assert_eq!(bits_of(&a.reader_sn_state), vec![true, false, true]);
            },
            _ => panic!("an acknowledgement was encoded"),
        }
        assert!(matches!(AckNack::read_body(&octets[4..octets.len() - 1], octets[1]), Err(Error::Eof)));
        assert!(matches!(AckNack::read_body(&octets[4..11], octets[1]), Err(Error::Eof)));

        let gap = Gap {
            reader_id: reader_id(),
            writer_id: writer_id(),
            gap_start: SequenceNumber(5),
            gap_list: window(),
        };
        let octets = encoded(&Submessage::Gap(gap), e);
        assert_eq!(octets.len(), 4 + 16 + 12 + 4);
        assert_eq!(octets[0], 0x08);
        match decoded(&octets) {
            Submessage::Gap(g) => {
                assert_eq!((g.reader_id, g.writer_id, g.gap_start), (reader_id(), writer_id(), SequenceNumber(5)));
                assert_eq!(g.gap_list.base(), SequenceNumber(7));
                assert_eq!(bits_of(&g.gap_list), vec![true, false, true]);
            },
            _ => panic!("a gap was encoded"),
        }
        assert!(matches!(Gap::read_body(&octets[4..19], octets[1]), Err(Error::Eof)));
    }
}

#[test]
fn info_round_trip() {
    let prefix = GuidPrefix::new((1..=12).collect());
    for e in [BE, LE] {
        let ts = InfoTimestamp { timestamp: Some(Timestamp { seconds: 0x0102_0304, fraction: 5 }) };
        let octets = encoded(&Submessage::InfoTimestamp(ts), e);
        assert_eq!(octets.len(), 12);
        assert!(matches!(decoded(&octets), Submessage::InfoTimestamp(t) if t == ts));
        let none = InfoTimestamp { timestamp: None };
        let octets = encoded(&Submessage::InfoTimestamp(none), e);
        assert_eq!(octets.len(), 4);
        assert_eq!(octets[1] & 2, 2);
        assert!(matches!(decoded(&octets), Submessage::InfoTimestamp(t) if t == none));

        let dst = InfoDestination { guid_prefix: prefix };
        let octets = encoded(&Submessage::InfoDestination(dst), e);
        assert_eq!(&octets[4..], &(1..=12).collect::<Vec<u8>>()[..]);
        assert!(matches!(decoded(&octets), Submessage::InfoDestination(d) if d.guid_prefix == prefix));

        let src = InfoSource {
            protocol_major: 2,
            protocol_minor: 3,
            vendor_id0: 1,
            vendor_id1: 18,
            guid_prefix: prefix,
        };
        let octets = encoded(&Submessage::InfoSource(src), e);
        assert_eq!(&octets[4..12], &[0, 0, 0, 0, 2, 3, 1, 18]);
        match decoded(&octets) {
            Submessage::InfoSource(s) => {
                assert_eq!((s.protocol_major, s.protocol_minor, s.vendor_id0, s.vendor_id1), (2, 3, 1, 18));
                assert!(s.guid_prefix == prefix);
            },
            _ => panic!("a source was encoded"),
        }
    }
    assert!(matches!(InfoTimestamp::read_body(&[0; 7], 0), Err(Error::Eof)));
    assert!(matches!(InfoDestination::read_body(&[0; 11]), Err(Error::Eof)));
    assert!(matches!(InfoSource::read_body(&[0; 19]), Err(Error::Eof)));
}

fn full_data() -> Data {
    Data {
        reader_id: reader_id(),
        writer_id: writer_id(),
        writer_sn: SequenceNumber(6),
        inline_qos: Some(InlineQos {
            status_info: Some(StatusInfo::empty().with(StatusInfoEnum::Disposed)),
            key_hash: Some(KeyHash::new(0x0102_0304_0506_0708_090a_0b0c_0d0e_0f10)),
        }),
        serialized_payload: Some(SerializedPayload::new(
            RepresentationIdentifier::CDR_LE,
            vec![0xaa, 0xbb, 0xcc],
        )),
        payload_is_key: false,
    }
}

#[test]
fn data_bit_for_bit() {
    let octets = encoded(&Submessage::Data(full_data()), BE);
    let expected: Vec<u8> = vec![
        0x15, 0x06, 0, 59, // kind, flags Q and D, length
        0, 0, 0, 16, // extra flags, octets to inline parameters
        0, 0, 3, 7, 0, 0, 4, 2, // reader, writer
        0, 0, 0, 0, 0, 0, 0, 6, // number
        0, 0x70, 0, 16, 1, 2, 3, 4, 5, 6, 7, 8, 9, 10, 11, 12, 13, 14, 15, 16, // key hash
        0, 0x71, 0, 4, 0, 0, 0, 1, // status
        0, 1, 0, 0, // sentinel
        0, 1, 0, 0, 0xaa, 0xbb, 0xcc, // payload
    ];
    assert_eq!(octets, expected);
    let little = encoded(&Submessage::Data(full_data()), LE);
    assert_eq!(&little[..8], &[0x15, 0x07, 59, 0, 0, 0, 16, 0]);
    assert_eq!(&little[24..44], &[0x70, 0, 16, 0, 16, 15, 14, 13, 12, 11, 10, 9, 8, 7, 6, 5, 4, 3, 2, 1]);
    // the encoding tag of the payload is most significant first in either order
    assert_eq!(&little[56..], &[0, 1, 0, 0, 0xaa, 0xbb, 0xcc]);
}

#[test]
fn data_round_trip() {
    let mut variants = vec![full_data()];
    let mut no_qos = full_data();
    no_qos.inline_qos = None;
    variants.push(no_qos);
    let mut no_payload = full_data();
    no_payload.serialized_payload = None;
    variants.push(no_payload);
    let mut key_only = full_data();
    key_only.inline_qos = Some(InlineQos { status_info: None, key_hash: Some(KeyHash::new(1)) });
    variants.push(key_only);
    let mut status_only = full_data();
    status_only.inline_qos = Some(InlineQos {
        status_info: Some(StatusInfo::empty().with(StatusInfoEnum::Unregistered).with(StatusInfoEnum::Filtered)),
        key_hash: None,
    });
    variants.push(status_only);
    let mut empty_qos = Data::default();
    empty_qos.inline_qos = Some(InlineQos { status_info: None, key_hash: None });
    variants.push(empty_qos);
    variants.push(Data::default());
    for data in variants {
        for e in [BE, LE] {
            let octets = encoded(&Submessage::Data(data.clone_for_test()), e);
            match decoded(&octets) {
                Submessage::Data(back) => {
                    assert_eq!(back.reader_id, data.reader_id);
                    assert_eq!(back.writer_id, data.writer_id);
                    assert_eq!(back.writer_sn, data.writer_sn);
                    assert_eq!(back.inline_qos, data.inline_qos);
                    assert!(back.serialized_payload == data.serialized_payload);
                },
                _ => panic!("data was encoded"),
            }
        }
    }
}

trait CloneForTest {
    fn clone_for_test(&self) -> Self;
}

impl CloneForTest for Data {
    fn clone_for_test(&self) -> Data {
        Data {
            reader_id: self.reader_id,
            writer_id: self.writer_id,
            writer_sn: self.writer_sn,
            inline_qos: self.inline_qos,
            serialized_payload: self.serialized_payload.clone(),
            payload_is_key: self.payload_is_key,
        }
    }
}

#[test]
fn data_decoding_errors_and_unknown_parameters() {
    let octets = encoded(&Submessage::Data(full_data()), BE);
    let body = &octets[4..];
    assert!(matches!(Data::read_body(&body[..19], 6), Err(Error::Eof)));
    // the inline parameters end before the sentinel
    assert!(matches!(Data::read_body(&body[..50], 6), Err(Error::Eof)));
    // the payload lacks its head
    assert!(matches!(Data::read_body(&body[..55], 6), Err(Error::Eof)));
    let mut early = body.to_vec();
    early[3] = 15;
    assert!(matches!(Data::read_body(&early, 6), Err(Error::Malformed)));
    let mut far = body.to_vec();
    far[2] = 1;
    assert!(matches!(Data::read_body(&far, 6), Err(Error::Eof)));
    let mut bad_status = body.to_vec();
    bad_status[47] = 9;
    assert!(matches!(Data::read_body(&bad_status, 6), Err(Error::InvalidFlags(9))));
    let mut short_key = body.to_vec();
    short_key[23] = 12;
    assert!(matches!(Data::read_body(&short_key, 6), Err(Error::Malformed)));
    let mut short_status = body.to_vec();
    short_status[43] = 0;
    assert!(matches!(Data::read_body(&short_status, 6), Err(Error::Malformed)));

    // a parameter that is not known is passed over; four more octets before
    // the inline parameters are passed over too
    let mut with_unknown: Vec<u8> = vec![0, 0, 0, 20];
    with_unknown.extend_from_slice(&body[4..20]);
    with_unknown.extend_from_slice(&[9, 9, 9, 9]);
    with_unknown.extend_from_slice(&[0x12, 0x34, 0, 8, 1, 2, 3, 4, 5, 6, 7, 8]);
    with_unknown.extend_from_slice(&[0, 0x71, 0, 4, 0, 0, 0, 2]);
    with_unknown.extend_from_slice(&[0, 1, 0, 0]);
    let back = Data::read_body(&with_unknown, 2).unwrap();
    let qos = back.inline_qos.unwrap();
    assert!(qos.key_hash.is_none());
    assert!(qos.status_info.unwrap().contains(StatusInfoEnum::Unregistered));
    assert!(back.serialized_payload.is_none());
    assert_eq!(back.writer_sn, SequenceNumber(6));
}

#[test]
fn submessages_that_are_passed_over_or_refused() {
    // DATA_FRAG and a kind with the highest bit set are passed over by their length
    let frag = [0x16, 0x01, 4, 0, 1, 2, 3, 4, 0x07];
    assert!(matches!(Submessage::read(&frag, 0), Ok((None, 8))));
    let vendor = [0x80, 0x00, 0, 2, 1, 2];
    assert!(matches!(Submessage::read(&vendor, 0), Ok((None, 6))));
    let pad = [0x01, 0x00, 0, 0, 0x07];
    assert!(matches!(Submessage::read(&pad, 0), Ok((None, 4))));
    // a length of zero reaches to the end of the datagram
    let rest = [0x0d, 0x00, 0, 0, 1, 2, 3];
    assert!(matches!(Submessage::read(&rest, 0), Ok((None, 7))));
    // a kind that is not known and has the highest bit clear
    let unknown = [0x33, 0x00, 0, 0];
    assert!(matches!(Submessage::read(&unknown, 0), Err(Error::UnknownSubmessage(0x33))));
    assert!(matches!(Submessage::read(&[0x07, 0, 0], 0), Err(Error::Eof)));
    assert!(matches!(Submessage::read(&[0x07, 0, 0, 28, 1], 0), Err(Error::Eof)));
    // a body that is longer than its length field can say
    let huge = Data {
        serialized_payload: Some(SerializedPayload::new(RepresentationIdentifier::CDR_LE, vec![0; 65536])),
        ..Data::default()
    };
    let mut out = vec![1, 2, 3];
    assert_eq!(Submessage::Data(huge).write(&mut out, LE), Err(Error::SequenceTooLong));
    assert_eq!(out, vec![1, 2, 3]);
}

fn sample_message() -> Message {
    let mut message = Message::new(Header::new(GuidPrefix::new(vec![5; 12])));
    message.add_submessage(Submessage::InfoTimestamp(InfoTimestamp {
        timestamp: Some(Timestamp { seconds: 1, fraction: 2 }),
    }));
    message.add_submessage(Submessage::Data(full_data()));
    message.add_submessage(Submessage::Heartbeat(Heartbeat {
        reader_id: reader_id(),
        writer_id: writer_id(),
        first_sn: SequenceNumber(1),
        last_sn: SequenceNumber(6),
        count: 1,
        final_flag: false,
        liveliness_flag: false,
    }));
    message
}

#[test]
fn message_round_trip() {
    for e in [BE, LE] {
        let octets = sample_message().encode(e).unwrap();
        assert_eq!(&octets[..8], &[0x52, 0x54, 0x50, 0x53, 2, 3, 1, 18]);
        assert_eq!(&octets[8..20], &[5; 12]);
        let (message, error) = Message::decode(&octets).unwrap();
        assert!(error.is_none());
        assert!(message.header.guid_prefix == GuidPrefix::new(vec![5; 12]));
        assert_eq!((message.header.protocol_major, message.header.protocol_minor), (2, 3));
        let kinds: Vec<u8> = message.submessages.iter().map(|s| s.kind()).collect();
        assert_eq!(kinds, vec![0x09, 0x15, 0x07]);
        assert_eq!(message.encode(e).unwrap(), octets);
    }
}

#[test]
fn malformed_datagrams() {
    let octets = sample_message().encode(LE).unwrap();
    assert!(matches!(Message::decode(&octets[..19]), Err(Error::Eof)));
    let mut bad = octets.clone();
    bad[0] = 0x51;
    assert!(matches!(Message::decode(&bad), Err(Error::BadMagic)));
    // what comes before a malformed submessage counts, the rest does not
    let mut cut = octets.clone();
    cut.truncate(octets.len() - 1);
    let (message, error) = Message::decode(&cut).unwrap();
    assert_eq!(message.submessages.len(), 2);
    assert_eq!(error, Some(Error::Eof));
    let mut unknown = octets[..32].to_vec();
    unknown.extend_from_slice(&[0x16, 0, 0, 1, 9]);
    unknown.extend_from_slice(&[0x33, 0, 0, 0]);
    unknown.extend_from_slice(&octets[32..]);
    let (message, error) = Message::decode(&unknown).unwrap();
    assert_eq!(message.submessages.len(), 1);
    assert_eq!(error, Some(Error::UnknownSubmessage(0x33)));
    let (message, error) = Message::decode(&octets[..20]).unwrap();
    assert!(message.submessages.is_empty() && error.is_none());
}

#[test]
fn receiver_follows_the_datagram() {
    let own = GuidPrefix::new(vec![1; 12]);
    let other = GuidPrefix::new(vec![2; 12]);
    let source = GuidPrefix::new(vec![5; 12]);
    let mut receiver = MessageReceiver::new(own);
    receiver.begin(source);
    assert!(receiver.get_state().dest_guid_prefix == own);
    assert!(receiver.get_state().source_guid_prefix == source);
    assert_eq!(receiver.get_state().source_timestamp, Timestamp::time_invalid());

    let message = sample_message();
    let steps: Vec<Dispatch> = message.submessages.iter().map(|s| receiver.interpret(s)).collect();
    assert!(matches!(steps[0], Dispatch::Nobody));
    assert!(matches!(steps[1], Dispatch::ToReaders { reader_id } if reader_id == self::reader_id()));
    assert!(matches!(steps[2], Dispatch::ToReaders { reader_id } if reader_id == self::reader_id()));
    assert_eq!(receiver.get_state().source_timestamp, Timestamp { seconds: 1, fraction: 2 });

    let ack = Submessage::AckNack(AckNack {
        reader_id: reader_id(),
        writer_id: writer_id(),
        reader_sn_state: SequenceNumberSet::new(SequenceNumber(1)),
        count: 1,
        final_flag: true,
    });
    assert!(matches!(receiver.interpret(&ack), Dispatch::ToWriters { writer_id } if writer_id == self::writer_id()));
    let gap = Submessage::Gap(Gap {
        reader_id: EntityId::unknown(),
        writer_id: writer_id(),
        gap_start: SequenceNumber(1),
        gap_list: SequenceNumberSet::new(SequenceNumber(2)),
    });
    assert!(matches!(receiver.interpret(&gap), Dispatch::ToReaders { reader_id } if reader_id == EntityId::unknown()));

    // what is meant for another participant is handed to nobody
    let away = Submessage::InfoDestination(InfoDestination { guid_prefix: other });
    assert!(matches!(receiver.interpret(&away), Dispatch::Nobody));
    assert!(matches!(receiver.interpret(&ack), Dispatch::Nobody));
    assert!(matches!(receiver.interpret(&message.submessages[1]), Dispatch::Nobody));
    // a destination that names nobody means this participant
    let back = Submessage::InfoDestination(InfoDestination { guid_prefix: GuidPrefix::unknown() });
    receiver.interpret(&back);
    assert!(matches!(receiver.interpret(&ack), Dispatch::ToWriters { .. }));

    let src = Submessage::InfoSource(InfoSource {
        protocol_major: 2,
        protocol_minor: 1,
        vendor_id0: 1,
        vendor_id1: 1,
        guid_prefix: other,
    });
    receiver.interpret(&src);
    assert!(receiver.get_state().source_guid_prefix == other);
    assert_eq!(receiver.get_state().source_timestamp, Timestamp::time_invalid());
    let forget = Submessage::InfoTimestamp(InfoTimestamp { timestamp: None });
    receiver.interpret(&message.submessages[0]);
    receiver.interpret(&forget);
    assert_eq!(receiver.get_state().source_timestamp, Timestamp::time_invalid());
    let copy = receiver.get_state().clone();
    assert!(copy.source_guid_prefix == other);
}

#[test]
fn who_is_addressed() {
    let guid = |n: u8, kind: u8| {
        GUID::new_with_prefix_and_id(
            GuidPrefix::new(vec![1; 12]),
            EntityId::createCustomEntityID([0, 0, n], kind),
        )
    };
    let readers: Vec<Reader> =
        (1..=3).map(|n| Reader::new(guid(n, 7), "t".to_string(), false)).collect();
    let writers: Vec<Writer> = (1..=3)
        .map(|n| Writer::new(guid(n, 2), "t".to_string(), &QosPolicies::qos_none(), false))
        .collect();
    assert_eq!(MessageReceiver::addressed_readers(&readers, guid(2, 7).entityId), vec![1]);
    assert_eq!(MessageReceiver::addressed_readers(&readers, EntityId::unknown()), vec![0, 1, 2]);
    assert!(MessageReceiver::addressed_readers(&readers, guid(2, 2).entityId).is_empty());
    assert_eq!(MessageReceiver::addressed_writers(&writers, guid(3, 2).entityId), vec![2]);
    assert_eq!(MessageReceiver::addressed_writers(&writers, EntityId::unknown()), vec![0, 1, 2]);
    assert!(MessageReceiver::addressed_writers(&writers, guid(9, 2).entityId).is_empty());
}

#[test]
fn built_in_entities() {
    let octets = |e: EntityId| [e.entityKey0, e.entityKey1, e.entityKey2, e.entityKind];
    assert_eq!(octets(EntityId::unknown()), [0, 0, 0, 0]);
    assert_eq!(octets(EntityId::participant()), [0, 0, 1, 0xc1]);
    assert_eq!(octets(EntityId::sedp_builtin_topic_writer()), [0, 0, 2, 0xc2]);
    assert_eq!(octets(EntityId::sedp_builtin_topic_reader()), [0, 0, 2, 0xc7]);
    assert_eq!(octets(EntityId::sedp_builtin_publications_writer()), [0, 0, 3, 0xc2]);
    assert_eq!(octets(EntityId::sedp_builtin_publications_reader()), [0, 0, 3, 0xc7]);
    assert_eq!(octets(EntityId::sedp_builtin_subscriptions_writer()), [0, 0, 4, 0xc2]);
    assert_eq!(octets(EntityId::sedp_builtin_subscriptions_reader()), [0, 0, 4, 0xc7]);
    assert_eq!(octets(EntityId::spdp_builtin_participant_writer()), [0, 1, 0, 0xc2]);
    assert_eq!(octets(EntityId::spdp_builtin_participant_reader()), [0, 1, 0, 0xc7]);
    assert_eq!(octets(EntityId::p2p_builtin_participant_message_writer()), [0, 2, 0, 0xc2]);
    assert_eq!(octets(EntityId::p2p_builtin_participant_message_reader()), [0, 2, 0, 0xc7]);
    assert_eq!(EntityId::default(), EntityId::unknown());
    assert_eq!(GuidPrefix::new(vec![1, 2, 3]).entityKey, [1, 2, 3, 0, 0, 0, 0, 0, 0, 0, 0, 0]);
    assert_eq!(GuidPrefix::new(vec![7; 20]).entityKey, [7; 12]);
    assert!(GUID::new() == GUID::new_with_prefix_and_id(GuidPrefix::unknown(), EntityId::unknown()));
}

#[test]
fn info_reply_round_trip() {
    let first = Locator::udp_v4(192, 168, 1, 2, 7411);
    let second = Locator { kind: LOCATOR_KIND_INVALID, port: 0x0102_0304, address: [9; 16] };
    let group = Locator::udp_v4(239, 255, 0, 1, 7401);
    assert_eq!((LOCATOR_KIND_INVALID, LOCATOR_KIND_UDP_V4, LOCATOR_KIND_UDP_V6), (-1, 1, 2));
    assert_eq!(first.address, [0, 0, 0, 0, 0, 0, 0, 0, 0, 0, 0, 0, 192, 168, 1, 2]);
    assert!(first == first && first != group);
    assert_eq!(copy_locators(&vec![first, group]), vec![first, group]);

    let one = InfoReply { unicast_locator_list: vec![first], multicast_locator_list: None };
    let octets = encoded(&Submessage::InfoReply(one), BE);
    let mut expected = vec![0x0f, 0x00, 0, 28, 0, 0, 0, 1, 0, 0, 0, 1, 0, 0, 0x1c, 0xf3];
    expected.extend_from_slice(&[0, 0, 0, 0, 0, 0, 0, 0, 0, 0, 0, 0, 192, 168, 1, 2]);
    assert_eq!(octets, expected);

    for e in [BE, LE] {
        let both = InfoReply {
            unicast_locator_list: vec![first, second],
            multicast_locator_list: Some(vec![group]),
        };
        let octets = encoded(&Submessage::InfoReply(both), e);
        assert_eq!(octets.len(), 4 + 4 + 48 + 4 + 24);
        assert_eq!(octets[1] & 2, 2);
        match decoded(&octets) {
            Submessage::InfoReply(back) => {
                assert_eq!(back.unicast_locator_list, vec![first, second]);
                assert_eq!(back.multicast_locator_list, Some(vec![group]));
            },
            _ => panic!("a reply was encoded"),
        }
        let none = InfoReply { unicast_locator_list: vec![], multicast_locator_list: Some(vec![]) };
        let octets = encoded(&Submessage::InfoReply(none), e);
        match decoded(&octets) {
            Submessage::InfoReply(back) => {
                assert!(back.unicast_locator_list.is_empty());
                assert_eq!(back.multicast_locator_list, Some(vec![]));
            },
            _ => panic!("a reply was encoded"),
        }
    }
    assert!(matches!(InfoReply::read_body(&[0, 0, 0], 0), Err(Error::Eof)));
    assert!(matches!(InfoReply::read_body(&[0, 0, 0, 1, 0], 0), Err(Error::Eof)));
    assert!(matches!(InfoReply::read_body(&[0, 0, 0, 0], 2), Err(Error::Eof)));
    assert!(matches!(InfoReply::read_body(&[0xff, 0xff, 0xff, 0xff], 0), Err(Error::Eof)));
}

#[test]
fn receiver_notes_where_answers_go() {
    let own = GuidPrefix::new(vec![1; 12]);
    let mut receiver = MessageReceiver::new(own);
    receiver.begin(GuidPrefix::new(vec![5; 12]));
    let first = Locator::udp_v4(192, 168, 1, 2, 7411);
    let group = Locator::udp_v4(239, 255, 0, 1, 7401);
    let reply = Submessage::InfoReply(InfoReply {
        unicast_locator_list: vec![first],
        multicast_locator_list: Some(vec![group]),
    });
    assert!(matches!(receiver.interpret(&reply), Dispatch::Nobody));
    assert_eq!(receiver.get_state().unicast_reply_locator_list, vec![first]);
    assert_eq!(receiver.get_state().multicast_reply_locator_list, vec![group]);
    let only = Submessage::InfoReply(InfoReply {
        unicast_locator_list: vec![group],
        multicast_locator_list: None,
    });
    receiver.interpret(&only);
    assert_eq!(receiver.get_state().unicast_reply_locator_list, vec![group]);
    assert!(receiver.get_state().multicast_reply_locator_list.is_empty());
    receiver.begin(own);
    assert!(receiver.get_state().unicast_reply_locator_list.is_empty());
}

#[test]
fn a_payload_that_holds_a_key_says_so() {
    for e in [BE, LE] {
        let little = if e == LE { 1 } else { 0 };
        let mut key = full_data();
        key.payload_is_key = true;
        let octets = encoded(&Submessage::Data(key.clone_for_test()), e);
        // inline parameters and a key, no sample
        assert_eq!(octets[1], 0x0a | little);
        let sample = encoded(&Submessage::Data(full_data()), e);
        assert_eq!(sample[1], 0x06 | little);
        assert_eq!(&octets[2..], &sample[2..]);
        match decoded(&octets) {
            Submessage::Data(back) => {
                assert!(back.payload_is_key);
                assert!(back.serialized_payload == key.serialized_payload);
                assert_eq!(back.inline_qos, key.inline_qos);
            }
            _ => panic!("a DATA submessage comes back"),
        }
        match decoded(&sample) {
            Submessage::Data(back) => assert!(!back.payload_is_key),
            _ => panic!("a DATA submessage comes back"),
        }
        // without a payload there is nothing to say
        let mut bare = Data::default();
        bare.payload_is_key = true;
        let octets = encoded(&Submessage::Data(bare), e);
        assert_eq!(octets[1], little);
        match decoded(&octets) {
            Submessage::Data(back) => {
                assert!(!back.payload_is_key);
                assert!(back.serialized_payload.is_none());
            }
            _ => panic!("a DATA submessage comes back"),
        }
        // a payload cannot be both
        let mut both = sample.clone();
        both[1] = 0x0e | little;
        assert!(matches!(Submessage::read(&both, 0), Err(Error::InvalidFlags(f)) if f == 0x0e | little));
    }
}
