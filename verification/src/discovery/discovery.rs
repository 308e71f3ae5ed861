//! The rules of discovery: which endpoints match, and what a match installs.

use crate::dds::reader::{Reader, ReaderView, WriterProxyView, SEQUENCE_NUMBER_BEFORE_ALL};
use crate::dds::writer::{ReaderProxyView, Writer};
use crate::discovery::data_types::{
    endpoints_match, qos_compatible, reader_is_reliable, spec_reader_is_reliable,
    DiscoveredEndpointData,
};
use crate::structure::guid::{EntityId, GuidPrefix, GUID};
use crate::structure::locator::copy_locators;
use vstd::prelude::*;

verus! {

/// What the application asks of discovery.
#[allow(non_camel_case_types)]
pub enum DiscoveryCommand {
    STOP_DISCOVERY,
    REMOVE_LOCAL_WRITER { guid: GUID },
    REMOVE_LOCAL_READER { guid: GUID },
    ASSERT_TOPIC_LIVELINESS { topic_name: String },
}

/// What discovery tells the event loop.
#[derive(Debug, Clone, Copy)]
pub enum DiscoveryNotificationType {
    /// A remote reader was announced or changed.
    ReaderUpdated { guid: GUID },
    /// A remote reader is gone.
    ReaderLost { guid: GUID },
    /// A remote writer was announced or changed.
    WriterUpdated { guid: GUID },
    /// A remote writer is gone.
    WriterLost { guid: GUID },
    /// A remote participant was announced or heard of again.
    ParticipantUpdated { guid_prefix: GuidPrefix },
    /// A remote participant is gone: every proxy of its endpoints is to go.
    ParticipantLost { guid_prefix: GuidPrefix },
}

/// The command by which a reader that ends takes its leave of discovery.
pub fn reader_leaves(guid: GUID) -> (c: DiscoveryCommand)
    ensures
        c matches DiscoveryCommand::REMOVE_LOCAL_READER { guid: g } && g == guid,
{
    DiscoveryCommand::REMOVE_LOCAL_READER { guid }
}

/// The command by which a writer that ends takes its leave of discovery.
pub fn writer_leaves(guid: GUID) -> (c: DiscoveryCommand)
    ensures
        c matches DiscoveryCommand::REMOVE_LOCAL_WRITER { guid: g } && g == guid,
{
    DiscoveryCommand::REMOVE_LOCAL_WRITER { guid }
}

/// Whether a reader and a writer match.
pub fn is_match(reader: &DiscoveredEndpointData, writer: &DiscoveredEndpointData) -> (b: bool)
    ensures
        b == endpoints_match(reader@, writer@),
{
    reader.topic_name == writer.topic_name && reader.data_type_name == writer.data_type_name
        && qos_compatible(reader.qos, writer.qos)
}

/// Tells a local reader of a remote writer that was announced, and says
/// whether the two match. Where they do, the reader is matched with the
/// writer, at the locators of the announcement, unless it is already.
pub fn reader_hears_of_writer(
    reader: &mut Reader,
    reader_data: &DiscoveredEndpointData,
    writer_data: &DiscoveredEndpointData,
) -> (matched: bool)
    ensures
        matched == endpoints_match(reader_data@, writer_data@),
        final(reader)@ == if matched && !old(reader)@.writers.dom().contains(writer_data@.guid) {
            ReaderView {
                writers: old(reader)@.writers.insert(
                    writer_data@.guid,
                    WriterProxyView {
                        writer_guid: writer_data@.guid,
                        unicast_locators: writer_data@.unicast_locators,
                        multicast_locators: writer_data@.multicast_locators,
                        highest_sn_received: SEQUENCE_NUMBER_BEFORE_ALL as int,
                        missing_samples: Set::<int>::empty(),
                        last_heartbeat_count: 0,
                    },
                ),
                ..old(reader)@
            }
        } else {
            old(reader)@
        },
        matched ==> final(reader)@.writers.dom().contains(writer_data@.guid),
{
    if !is_match(reader_data, writer_data) {
        return false;
    }
    reader.matched_writer_add(
        writer_data.guid,
        EntityId::unknown(),
        copy_locators(&writer_data.unicast_locators),
        copy_locators(&writer_data.multicast_locators),
    );
    true
}

/// Tells a local writer of a remote reader that was announced, and says
/// whether the two match. Where they do, the writer is matched with the
/// reader, at the locators of the announcement and reliably where the
/// reader asks for that, unless it is already.
pub fn writer_hears_of_reader(
    writer: &mut Writer,
    writer_data: &DiscoveredEndpointData,
    reader_data: &DiscoveredEndpointData,
) -> (matched: bool)
    requires
        old(writer).wf(),
    ensures
        final(writer).wf(),
        matched == endpoints_match(reader_data@, writer_data@),
        !(matched && !old(writer)@.readers.dom().contains(reader_data@.guid)) ==> final(writer)@
            == old(writer)@,
        matched && !old(writer)@.readers.dom().contains(reader_data@.guid) ==> final(writer)@.readers
            == old(writer)@.readers.insert(
            reader_data@.guid,
            ReaderProxyView {
                reader_guid: reader_data@.guid,
                unicast_locators: reader_data@.unicast_locators,
                multicast_locators: reader_data@.multicast_locators,
                expects_inline_qos: false,
                is_reliable: spec_reader_is_reliable(reader_data@.qos),
                unacked_changes: Set::<int>::empty(),
                unsent_changes: Set::<int>::empty(),
                highest_acked_sn: 0,
                nack_suppression_until: 0,
                last_acknack_count: 0,
                announced: false,
            },
        ),
        matched ==> final(writer)@.readers.dom().contains(reader_data@.guid),
        final(writer)@.guid == old(writer)@.guid,
        final(writer)@.topic_name == old(writer)@.topic_name,
        final(writer)@.last_change_sequence_number == old(writer)@.last_change_sequence_number,
{
    if !is_match(reader_data, writer_data) {
        return false;
    }
    writer.matched_reader_add(
        reader_data.guid,
        false,
        reader_is_reliable(reader_data.qos),
        copy_locators(&reader_data.unicast_locators),
        copy_locators(&reader_data.multicast_locators),
    );
    true
}

/// Whether a writer that is not matched is to be heard by a reader all the
/// same: the reader is the participant's reader of announcements and the
/// writer is the writer of announcements of a participant. Participants
/// announce themselves to whoever listens, before anyone can match them.
pub open spec fn hears_unmatched(reader_id: EntityId, writer_id: EntityId) -> bool {
    reader_id == EntityId::spec_spdp_builtin_participant_reader() && writer_id
        == EntityId::spec_spdp_builtin_participant_writer()
}

/// Matches the writer of a DATA submessage with the reader where it is to
/// be heard unmatched and is not matched yet, and says whether it did. The
/// reader then knows the writer as one it has heard nothing from, with no
/// locators.
pub fn admit_announcer(reader: &mut Reader, writer: GUID) -> (admitted: bool)
    ensures
        admitted == (hears_unmatched(old(reader)@.guid.entityId, writer.entityId)
            && !old(reader)@.writers.dom().contains(writer)),
        final(reader)@ == if admitted {
            ReaderView {
                writers: old(reader)@.writers.insert(
                    writer,
                    WriterProxyView {
                        writer_guid: writer,
                        unicast_locators: Seq::empty(),
                        multicast_locators: Seq::empty(),
                        highest_sn_received: SEQUENCE_NUMBER_BEFORE_ALL as int,
                        missing_samples: Set::<int>::empty(),
                        last_heartbeat_count: 0,
                    },
                ),
                ..old(reader)@
            }
        } else {
            old(reader)@
        },
{
    if reader.get_entity_id() == EntityId::spdp_builtin_participant_reader() && writer.entityId
        == EntityId::spdp_builtin_participant_writer() {
        let unicast: Vec<crate::structure::locator::Locator> = Vec::new();
        let multicast: Vec<crate::structure::locator::Locator> = Vec::new();
        reader.matched_writer_add(writer, EntityId::unknown(), unicast, multicast)
    } else {
        false
    }
}

/// The instant of the next announcement of a participant that announced
/// itself last at `last`: one announce period later, or the last instant
/// there is.
pub fn next_announce_instant(last: u64, period_nanos: u64) -> (next: u64)
    ensures
        next == crate::dds::reader::instant_after(last, period_nanos),
{
    if last <= u64::MAX - period_nanos {
        last + period_nanos
    } else {
        u64::MAX
    }
}

/// Whether a participant that announced itself last at `last` is to
/// announce itself at `now`.
pub fn announcement_is_due(last: u64, period_nanos: u64, now: u64) -> (due: bool)
    ensures
        due == (now >= crate::dds::reader::instant_after(last, period_nanos)),
{
    now >= next_announce_instant(last, period_nanos)
}

/// The hash under which a participant announces itself: its sixteen
/// octets, read as one number, most significant octet first.
pub open spec fn participant_key_hash(guid: GUID) -> nat {
    crate::serialization::big_endian_value(guid.guidPrefix.entityKey@ + guid.entityId.octets())
}

/// The sample by which a participant that stops takes its leave: it
/// disposes of the participant's own announcement. Its payload names the
/// participant by its key alone, in a parameter list of little-endian
/// octets, and the hash of the key travels beside it.
pub fn participant_dispose(guid: GUID, now: crate::structure::time::Timestamp) -> (d:
    crate::dds::ddsdata::DDSData)
    ensures
        d@.change_kind == crate::structure::cache_change::ChangeKind::NOT_ALIVE_DISPOSED,
        d@.value == Some(
            crate::discovery::wire::participant_key_payload_view(
                guid,
                crate::serialization::Endianness::LittleEndian,
            ),
        ),
        d@.value_key_hash as nat == participant_key_hash(guid),
        crate::discovery::wire::guid_of_key_hash(d@.value_key_hash) == guid,
        d@.source_timestamp == now,
        d@.reader_id == EntityId::spec_unknown(),
        d@.writer_id == EntityId::spec_unknown(),
{
    let key = crate::discovery::wire::key_hash_of_guid(guid);
    let payload = crate::discovery::wire::participant_key_payload(
        guid,
        crate::serialization::Endianness::LittleEndian,
    );
    crate::dds::ddsdata::DDSData::new_dispose_with_timestamp(
        payload,
        crate::structure::inline_qos::KeyHash::new(key),
        now,
    )
}

/// What discovery does when it is told to stop at `now`: it writes the
/// sample by which the participant takes its leave, and ends one announce
/// period later.
pub fn stop_plan(guid: GUID, now_instant: u64, now: crate::structure::time::Timestamp, period_nanos: u64) -> (plan:
    (crate::dds::ddsdata::DDSData, u64))
    ensures
        plan.0@.change_kind == crate::structure::cache_change::ChangeKind::NOT_ALIVE_DISPOSED,
        plan.0@.value == Some(
            crate::discovery::wire::participant_key_payload_view(
                guid,
                crate::serialization::Endianness::LittleEndian,
            ),
        ),
        plan.0@.value_key_hash as nat == participant_key_hash(guid),
        crate::discovery::wire::guid_of_key_hash(plan.0@.value_key_hash) == guid,
        plan.0@.source_timestamp == now,
        plan.0@.reader_id == EntityId::spec_unknown(),
        plan.0@.writer_id == EntityId::spec_unknown(),
        plan.1 == crate::dds::reader::instant_after(now_instant, period_nanos),
{
    (participant_dispose(guid, now), next_announce_instant(now_instant, period_nanos))
}

} // verus!
