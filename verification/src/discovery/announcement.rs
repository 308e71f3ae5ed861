//! What the announcements of the other participants do to what is known of
//! the domain.

use crate::dds::reader::{endpoints_of, instant_after};
use crate::discovery::data_types::{
    endpoints_match, spec_qos_compatible, DiscoveredEndpointView, ParticipantDataView,
};
use crate::discovery::discovery_db::{DiscoveryDB, DiscoveryDBView, ParticipantRecord};
use crate::discovery::wire::{
    endpoint_octets, endpoint_of, endpoint_of_payload, guid_of_key_hash,
    lemma_endpoint_round_trip, participant_of_payload, read_endpoint_payload,
    read_guid_of_key_hash, read_participant_payload, text_fits,
};
use crate::serialization::{Endianness, Error};
use crate::structure::cache_change::{CacheChange, CacheChangeView, ChangeKind};
use crate::structure::guid::{GuidPrefix, GUID};
use vstd::prelude::*;

verus! {

/// What an announcement of a participant says.
#[derive(Debug, Clone, Copy)]
pub enum ParticipantNews {
    /// A participant that was not known has announced itself.
    Discovered { guid_prefix: GuidPrefix },
    /// A participant that was known has announced itself again.
    Renewed { guid_prefix: GuidPrefix },
    /// A participant that was known has taken its leave.
    Left { guid_prefix: GuidPrefix },
    /// The announcement is of the participant itself, or takes the leave
    /// of a participant that was not known.
    Nothing,
    /// The announcement could not be read.
    Unreadable(Error),
}

/// What an announcement of a reader or a writer says.
#[derive(Debug, Clone, Copy)]
pub enum EndpointNews {
    /// An endpoint that was not known has been announced.
    Discovered { guid: GUID },
    /// An endpoint that was known has been announced again.
    Updated { guid: GUID },
    /// An endpoint has taken its leave.
    Left { guid: GUID },
    /// The announcement is of an endpoint of the participant itself.
    Nothing,
    /// The announcement could not be read.
    Unreadable(Error),
}

/// The participant that a change announces.
///
/// Fails with `Malformed` where the change holds no payload, and as the
/// payload does.
pub open spec fn announced_participant(change: CacheChangeView) -> Result<
    ParticipantDataView,
    Error,
> {
    match change.data_value {
        Some(p) => participant_of_payload(p),
        None => Err(Error::Malformed),
    }
}

/// The endpoint that a change announces.
///
/// Fails with `Malformed` where the change holds no payload, and as the
/// payload does.
pub open spec fn announced_endpoint(change: CacheChangeView) -> Result<
    DiscoveredEndpointView,
    Error,
> {
    match change.data_value {
        Some(p) => endpoint_of_payload(p),
        None => Err(Error::Malformed),
    }
}

/// What a change on the topic of participants says to the participant
/// `own`, which knows of the participants `known`.
///
/// A change that is alive announces the participant that its payload
/// describes; another change takes the leave of the participant whose GUID
/// its key hash spells.
pub open spec fn participant_news(known: Set<GuidPrefix>, own: GuidPrefix, change: CacheChangeView) -> ParticipantNews {
    if change.kind == ChangeKind::ALIVE {
        match announced_participant(change) {
            Err(x) => ParticipantNews::Unreadable(x),
            Ok(d) => {
                let guid_prefix = d.participant_guid.guidPrefix;
                if guid_prefix == own {
                    ParticipantNews::Nothing
                } else if known.contains(guid_prefix) {
                    ParticipantNews::Renewed { guid_prefix }
                } else {
                    ParticipantNews::Discovered { guid_prefix }
                }
            },
        }
    } else {
        let guid_prefix = guid_of_key_hash(change.instance_key_hash).guidPrefix;
        if guid_prefix != own && known.contains(guid_prefix) {
            ParticipantNews::Left { guid_prefix }
        } else {
            ParticipantNews::Nothing
        }
    }
}

/// What is known of the domain without a participant and all that it
/// announced.
pub open spec fn without_participant(db: DiscoveryDBView, guid_prefix: GuidPrefix) -> DiscoveryDBView {
    DiscoveryDBView {
        participants: db.participants.remove(guid_prefix),
        remote_readers: db.remote_readers.remove_keys(endpoints_of(guid_prefix)),
        remote_writers: db.remote_writers.remove_keys(endpoints_of(guid_prefix)),
    }
}

/// What is known of the domain after a change on the topic of participants
/// that came at `now`: another participant that announces itself is known
/// with a lease from `now` on, and another participant that takes its leave
/// is forgotten with all that it announced.
pub open spec fn after_participant_news(
    db: DiscoveryDBView,
    own: GuidPrefix,
    change: CacheChangeView,
    now: u64,
) -> DiscoveryDBView {
    if change.kind == ChangeKind::ALIVE {
        match announced_participant(change) {
            Ok(d) => if d.participant_guid.guidPrefix == own {
                db
            } else {
                DiscoveryDBView {
                    participants: db.participants.insert(
                        d.participant_guid.guidPrefix,
                        ParticipantRecord {
                            guid_prefix: d.participant_guid.guidPrefix,
                            lease_duration_nanos: d.lease_duration.nanos() as u64,
                            lease_expiration: instant_after(
                                now,
                                d.lease_duration.nanos() as u64,
                            ),
                        },
                    ),
                    ..db
                }
            },
            Err(_) => db,
        }
    } else {
        let guid_prefix = guid_of_key_hash(change.instance_key_hash).guidPrefix;
        if guid_prefix == own {
            db
        } else {
            without_participant(db, guid_prefix)
        }
    }
}

/// What a change on a topic of endpoints says to the participant `own`,
/// which knows of the endpoints `known`.
///
/// A change that is alive announces the endpoint that its payload
/// describes; another change takes the leave of the endpoint whose GUID its
/// key hash spells.
pub open spec fn endpoint_news(known: Set<GUID>, own: GuidPrefix, change: CacheChangeView) -> EndpointNews {
    if change.kind == ChangeKind::ALIVE {
        match announced_endpoint(change) {
            Err(x) => EndpointNews::Unreadable(x),
            Ok(d) => if d.guid.guidPrefix == own {
                EndpointNews::Nothing
            } else if known.contains(d.guid) {
                EndpointNews::Updated { guid: d.guid }
            } else {
                EndpointNews::Discovered { guid: d.guid }
            },
        }
    } else {
        let guid = guid_of_key_hash(change.instance_key_hash);
        if guid.guidPrefix == own {
            EndpointNews::Nothing
        } else {
            EndpointNews::Left { guid }
        }
    }
}

/// The endpoints that are known after a change on a topic of endpoints: an
/// endpoint of another participant that is announced is known as it is
/// announced, and one that takes its leave is forgotten.
pub open spec fn after_endpoint_news(
    known: Map<GUID, DiscoveredEndpointView>,
    own: GuidPrefix,
    change: CacheChangeView,
) -> Map<GUID, DiscoveredEndpointView> {
    match endpoint_news(known.dom(), own, change) {
        EndpointNews::Discovered { guid } | EndpointNews::Updated { guid } => known.insert(
            guid,
            announced_endpoint(change)->Ok_0,
        ),
        EndpointNews::Left { guid } => known.remove(guid),
        _ => known,
    }
}

/// Takes in a change on the topic of participants that came at `now`, and
/// says what it announces.
pub fn participant_announced(db: &mut DiscoveryDB, own: GuidPrefix, change: &CacheChange, now: u64) -> (news:
    ParticipantNews)
    requires
        old(db).wf(),
    ensures
        final(db).wf(),
        news == participant_news(old(db)@.participants.dom(), own, change@),
        final(db)@ == after_participant_news(old(db)@, own, change@, now),
{
    if change.kind == ChangeKind::ALIVE {
        let announced = match &change.data_value {
            Some(p) => read_participant_payload(p),
            None => Err(Error::Malformed),
        };
        match announced {
            Err(x) => ParticipantNews::Unreadable(x),
            Ok(d) => {
                let guid_prefix = d.participant_guid.guidPrefix;
                if guid_prefix == own {
                    ParticipantNews::Nothing
                } else if db.update_participant(&d, now) {
                    ParticipantNews::Discovered { guid_prefix }
                } else {
                    ParticipantNews::Renewed { guid_prefix }
                }
            },
        }
    } else {
        let guid_prefix = read_guid_of_key_hash(change.instance_key_hash).guidPrefix;
        if guid_prefix == own {
            ParticipantNews::Nothing
        } else if db.remove_participant(guid_prefix) {
            ParticipantNews::Left { guid_prefix }
        } else {
            ParticipantNews::Nothing
        }
    }
}

/// Takes in a change on the topic of writers, and says what it announces.
pub fn writer_announced(db: &mut DiscoveryDB, own: GuidPrefix, change: &CacheChange) -> (news:
    EndpointNews)
    ensures
        final(db).wf() == old(db).wf(),
        news == endpoint_news(old(db)@.remote_writers.dom(), own, change@),
        final(db)@ == (DiscoveryDBView {
            remote_writers: after_endpoint_news(old(db)@.remote_writers, own, change@),
            ..old(db)@
        }),
{
    if change.kind == ChangeKind::ALIVE {
        let announced = match &change.data_value {
            Some(p) => read_endpoint_payload(p),
            None => Err(Error::Malformed),
        };
        match announced {
            Err(x) => EndpointNews::Unreadable(x),
            Ok(d) => {
                let guid = d.guid;
                if guid.guidPrefix == own {
                    EndpointNews::Nothing
                } else if db.update_remote_writer(d) {
                    EndpointNews::Discovered { guid }
                } else {
                    EndpointNews::Updated { guid }
                }
            },
        }
    } else {
        let guid = read_guid_of_key_hash(change.instance_key_hash);
        if guid.guidPrefix == own {
            EndpointNews::Nothing
        } else {
            db.remove_remote_writer(guid);
            EndpointNews::Left { guid }
        }
    }
}

/// Takes in a change on the topic of readers, and says what it announces.
pub fn reader_announced(db: &mut DiscoveryDB, own: GuidPrefix, change: &CacheChange) -> (news:
    EndpointNews)
    ensures
        final(db).wf() == old(db).wf(),
        news == endpoint_news(old(db)@.remote_readers.dom(), own, change@),
        final(db)@ == (DiscoveryDBView {
            remote_readers: after_endpoint_news(old(db)@.remote_readers, own, change@),
            ..old(db)@
        }),
{
    if change.kind == ChangeKind::ALIVE {
        let announced = match &change.data_value {
            Some(p) => read_endpoint_payload(p),
            None => Err(Error::Malformed),
        };
        match announced {
            Err(x) => EndpointNews::Unreadable(x),
            Ok(d) => {
                let guid = d.guid;
                if guid.guidPrefix == own {
                    EndpointNews::Nothing
                } else if db.update_remote_reader(d) {
                    EndpointNews::Discovered { guid }
                } else {
                    EndpointNews::Updated { guid }
                }
            },
        }
    } else {
        let guid = read_guid_of_key_hash(change.instance_key_hash);
        if guid.guidPrefix == own {
            EndpointNews::Nothing
        } else {
            db.remove_remote_reader(guid);
            EndpointNews::Left { guid }
        }
    }
}

/// A match is seen from both sides. Where a reader and a writer are of one
/// topic and one type and what the writer offers serves what the reader
/// asks for, and each is announced once, in whatever byte order: what the
/// participant of the writer reads of the reader is the reader, and matches
/// the writer; and what the participant of the reader reads of the writer
/// is the writer, and is matched by the reader.
pub proof fn lemma_match_is_mutual(
    reader: DiscoveredEndpointView,
    writer: DiscoveredEndpointView,
    reader_order: Endianness,
    writer_order: Endianness,
)
    requires
        text_fits(reader.topic_name),
        text_fits(reader.data_type_name),
        text_fits(writer.topic_name),
        text_fits(writer.data_type_name),
        reader.topic_name == writer.topic_name,
        reader.data_type_name == writer.data_type_name,
        spec_qos_compatible(reader.qos, writer.qos),
    ensures
        endpoint_of(endpoint_octets(reader, reader_order), reader_order) == Ok::<
            DiscoveredEndpointView,
            Error,
        >(reader),
        endpoint_of(endpoint_octets(writer, writer_order), writer_order) == Ok::<
            DiscoveredEndpointView,
            Error,
        >(writer),
        endpoints_match(
            endpoint_of(endpoint_octets(reader, reader_order), reader_order)->Ok_0,
            writer,
        ),
        endpoints_match(
            reader,
            endpoint_of(endpoint_octets(writer, writer_order), writer_order)->Ok_0,
        ),
{
    lemma_endpoint_round_trip(reader, reader_order, Seq::empty());
    lemma_endpoint_round_trip(writer, writer_order, Seq::empty());
    assert(endpoint_octets(reader, reader_order) + Seq::<u8>::empty() =~= endpoint_octets(
        reader,
        reader_order,
    ));
    assert(endpoint_octets(writer, writer_order) + Seq::<u8>::empty() =~= endpoint_octets(
        writer,
        writer_order,
    ));
}

} // verus!
