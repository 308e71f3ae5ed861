//! What a participant knows of the other participants of its domain.

use crate::dds::reader::{endpoints_of, instant_after};
use crate::discovery::data_types::{
    DiscoveredEndpointData, DiscoveredEndpointView, SPDPDiscoveredParticipantData,
};
use crate::structure::guid::{GuidPrefix, GUID};
use crate::structure::keyed_list::{
    is_last_match, keys_differ, lemma_key_has_entry, lemma_last_match, lemma_no_match, lemma_update,
    lemma_without_keys, lemma_without_keys_part, list_map, without_keys,
};
use vstd::prelude::*;

verus! {

/// What is kept of a participant that has announced itself.
#[derive(Debug, Clone, Copy)]
pub struct ParticipantRecord {
    pub guid_prefix: GuidPrefix,
    /// The time for which an announcement holds, in nanoseconds.
    pub lease_duration_nanos: u64,
    /// The instant after which the participant counts as lost.
    pub lease_expiration: u64,
}

/// The participant that a record is of.
pub open spec fn record_prefix() -> spec_fn(ParticipantRecord) -> GuidPrefix {
    |r: ParticipantRecord| r.guid_prefix
}

/// A record as it is.
pub open spec fn record_itself() -> spec_fn(ParticipantRecord) -> ParticipantRecord {
    |r: ParticipantRecord| r
}

/// The endpoint that an announcement is of.
pub open spec fn endpoint_guid() -> spec_fn(DiscoveredEndpointData) -> GUID {
    |d: DiscoveredEndpointData| d@.guid
}

/// What an announcement stands for.
pub open spec fn endpoint_view() -> spec_fn(DiscoveredEndpointData) -> DiscoveredEndpointView {
    |d: DiscoveredEndpointData| d@
}

/// The participants of a map whose lease has run out at `now`.
pub open spec fn expired(participants: Map<GuidPrefix, ParticipantRecord>, now: u64) -> Set<
    GuidPrefix,
> {
    Set::new(
        |p: GuidPrefix| participants.dom().contains(p) && participants[p].lease_expiration < now,
    )
}

/// The endpoints of the participants of `gone`.
pub open spec fn endpoints_of_all(gone: Set<GuidPrefix>) -> Set<GUID> {
    Set::new(|g: GUID| gone.contains(g.guidPrefix))
}

/// A participant that has been silent for twice its lease is lost: where
/// it announced itself last at `last_heard`, with a lease that is longer
/// than no time, and `now` is no less than twice the lease later, its
/// lease has run out, so that a look at the leases at `now` forgets it and
/// everything that it announced, and names it as lost.
pub proof fn lemma_silent_participant_is_lost(
    participants: Map<GuidPrefix, ParticipantRecord>,
    guid_prefix: GuidPrefix,
    last_heard: u64,
    now: u64,
)
    requires
        participants.dom().contains(guid_prefix),
        participants[guid_prefix].lease_duration_nanos > 0,
        participants[guid_prefix].lease_expiration == instant_after(
            last_heard,
            participants[guid_prefix].lease_duration_nanos,
        ),
        now >= last_heard + 2 * participants[guid_prefix].lease_duration_nanos,
    ensures
        expired(participants, now).contains(guid_prefix),
        !participants.remove_keys(expired(participants, now)).dom().contains(guid_prefix),
        forall|g: GUID|
            g.guidPrefix == guid_prefix ==> #[trigger] endpoints_of_all(
                expired(participants, now),
            ).contains(g),
{
}

/// What a participant knows of the others.
pub struct DiscoveryDB {
    participants: Vec<ParticipantRecord>,
    remote_readers: Vec<DiscoveredEndpointData>,
    remote_writers: Vec<DiscoveredEndpointData>,
}

/// What a `DiscoveryDB` stands for.
pub struct DiscoveryDBView {
    pub participants: Map<GuidPrefix, ParticipantRecord>,
    pub remote_readers: Map<GUID, DiscoveredEndpointView>,
    pub remote_writers: Map<GUID, DiscoveredEndpointView>,
}

impl View for DiscoveryDB {
    type V = DiscoveryDBView;

    closed spec fn view(&self) -> DiscoveryDBView {
        DiscoveryDBView {
            participants: list_map(self.participants@, record_prefix(), record_itself()),
            remote_readers: list_map(self.remote_readers@, endpoint_guid(), endpoint_view()),
            remote_writers: list_map(self.remote_writers@, endpoint_guid(), endpoint_view()),
        }
    }
}

/// Puts an announcement in the place of the one of the same endpoint, or
/// behind the others where there is none.
fn put_endpoint(list: &mut Vec<DiscoveredEndpointData>, data: DiscoveredEndpointData) -> (new: bool)
    ensures
        new == !list_map(old(list)@, endpoint_guid(), endpoint_view()).dom().contains(data@.guid),
        list_map(final(list)@, endpoint_guid(), endpoint_view()) == list_map(
            old(list)@,
            endpoint_guid(),
            endpoint_view(),
        ).insert(data@.guid, data@),
{
    let ghost before = list@;
    let n = list.len();
    let mut i: usize = n;
    while i > 0
        invariant
            n == list@.len(),
            list@ == before,
            before == old(list)@,
            i <= n,
            forall|j: int| i <= j < n ==> endpoint_guid()(#[trigger] list@[j]) != data@.guid,
        decreases i,
    {
        i -= 1;
        if list[i].guid == data.guid {
            proof {
                assert(endpoint_guid()(before[i as int]) == data@.guid);
                assert(endpoint_guid()(data) == data@.guid);
                assert(is_last_match(before, endpoint_guid(), i as int));
                lemma_last_match(before, endpoint_guid(), endpoint_view(), i as int);
                lemma_update(before, endpoint_guid(), endpoint_view(), i as int, data);
            }
            let ghost data_view = data@;
            list[i] = data;
            assert(list@ =~= before.update(i as int, list@[i as int]));
            assert(list@[i as int]@ == data_view);
            proof {
                lemma_update(before, endpoint_guid(), endpoint_view(), i as int, list@[i as int]);
            }
            return false;
        }
    }
    proof {
        lemma_no_match(before, endpoint_guid(), endpoint_view(), data@.guid);
    }
    list.push(data);
    assert(list@.drop_last() =~= before);
    true
}

/// The announcement of an endpoint, where the list holds one.
fn find_endpoint(list: &Vec<DiscoveredEndpointData>, guid: GUID) -> (r: Option<
    DiscoveredEndpointData,
>)
    ensures
        match r {
            Some(d) => list_map(list@, endpoint_guid(), endpoint_view()).dom().contains(guid)
                && list_map(list@, endpoint_guid(), endpoint_view())[guid] == d@,
            None => !list_map(list@, endpoint_guid(), endpoint_view()).dom().contains(guid),
        },
{
    let n = list.len();
    let mut i: usize = n;
    while i > 0
        invariant
            n == list@.len(),
            i <= n,
            forall|j: int| i <= j < n ==> endpoint_guid()(#[trigger] list@[j]) != guid,
        decreases i,
    {
        i -= 1;
        if list[i].guid == guid {
            proof {
                assert(endpoint_guid()(list@[i as int]) == guid);
                assert(is_last_match(list@, endpoint_guid(), i as int));
                lemma_last_match(list@, endpoint_guid(), endpoint_view(), i as int);
            }
            return Some(list[i].clone());
        }
    }
    proof {
        lemma_no_match(list@, endpoint_guid(), endpoint_view(), guid);
    }
    None
}

/// Takes the announcements of some endpoints out of a list.
fn drop_endpoints(list: &mut Vec<DiscoveredEndpointData>, guid: GUID, whole_participant: bool) -> (removed:
    usize)
    ensures
        list_map(final(list)@, endpoint_guid(), endpoint_view()) == list_map(
            old(list)@,
            endpoint_guid(),
            endpoint_view(),
        ).remove_keys(
            if whole_participant {
                endpoints_of(guid.guidPrefix)
            } else {
                set![guid]
            },
        ),
        removed == old(list)@.len() - final(list)@.len(),
{
    let ghost gone = if whole_participant {
        endpoints_of(guid.guidPrefix)
    } else {
        set![guid]
    };
    let ghost before = list@;
    let ghost mut j: int = 0;
    let total = list.len();
    let mut i: usize = 0;
    let mut removed: usize = 0;
    proof {
        assert(before.take(0) =~= Seq::<DiscoveredEndpointData>::empty());
        assert(before.skip(0) =~= before);
        assert(list@ =~= without_keys(before.take(0), endpoint_guid(), gone) + before.skip(0));
    }
    while i < list.len()
        invariant
            0 <= j <= before.len(),
            total == before.len(),
            i == without_keys(before.take(j), endpoint_guid(), gone).len(),
            removed == j - i,
            list@ == without_keys(before.take(j), endpoint_guid(), gone) + before.skip(j),
            gone == if whole_participant {
                endpoints_of(guid.guidPrefix)
            } else {
                set![guid]
            },
        decreases before.len() - j,
    {
        let ghost kept = without_keys(before.take(j), endpoint_guid(), gone);
        proof {
            assert(before.skip(j).len() > 0);
            assert(list@[i as int] == before.skip(j)[0]);
            let upto = before.take(j + 1);
            assert(upto.drop_last() =~= before.take(j));
            assert(upto.last() == before[j]);
            assert(before.skip(j + 1) =~= before.skip(j).skip(1));
        }
        let endpoint = list[i].guid;
        let goes = if whole_participant {
            endpoint.guidPrefix == guid.guidPrefix
        } else {
            endpoint == guid
        };
        assert(goes == gone.contains(endpoint_guid()(before[j])));
        if goes {
            list.remove(i);
            removed += 1;
            proof {
                assert(list@ =~= kept + before.skip(j + 1));
            }
        } else {
            i += 1;
            proof {
                assert(list@ =~= kept.push(before[j]) + before.skip(j + 1));
            }
        }
        proof {
            j = j + 1;
        }
    }
    proof {
        assert(before.skip(j).len() == 0);
        assert(before.take(j) =~= before);
        assert(list@ =~= without_keys(before, endpoint_guid(), gone));
        lemma_without_keys(before, endpoint_guid(), endpoint_view(), gone);
    }
    removed
}

impl DiscoveryDB {
    /// No two records are of one participant.
    pub closed spec fn wf(&self) -> bool {
        keys_differ(self.participants@, record_prefix())
    }

    /// What a participant knows before it has heard of any other.
    pub fn new() -> (db: DiscoveryDB)
        ensures
            db.wf(),
            db@ == (DiscoveryDBView {
                participants: Map::<GuidPrefix, ParticipantRecord>::empty(),
                remote_readers: Map::<GUID, DiscoveredEndpointView>::empty(),
                remote_writers: Map::<GUID, DiscoveredEndpointView>::empty(),
            }),
    {
        DiscoveryDB {
            participants: Vec::new(),
            remote_readers: Vec::new(),
            remote_writers: Vec::new(),
        }
    }

    /// Takes in the announcement of a participant that came at `now`, and
    /// says whether the participant is new. Its lease then runs until its
    /// lease duration after `now`.
    pub fn update_participant(&mut self, data: &SPDPDiscoveredParticipantData, now: u64) -> (new:
        bool)
        requires
            old(self).wf(),
        ensures
            final(self).wf(),
            new == !old(self)@.participants.dom().contains(data.participant_guid.guidPrefix),
            final(self)@ == (DiscoveryDBView {
                participants: old(self)@.participants.insert(
                    data.participant_guid.guidPrefix,
                    ParticipantRecord {
                        guid_prefix: data.participant_guid.guidPrefix,
                        lease_duration_nanos: data.lease_duration.nanos() as u64,
                        lease_expiration: instant_after(now, data.lease_duration.nanos() as u64),
                    },
                ),
                ..old(self)@
            }),
    {
        let prefix = data.participant_guid.guidPrefix;
        let lease = data.lease_duration.to_nanos();
        let lease_expiration = if now <= u64::MAX - lease {
            now + lease
        } else {
            u64::MAX
        };
        let record = ParticipantRecord {
            guid_prefix: prefix,
            lease_duration_nanos: lease,
            lease_expiration,
        };
        let ghost before = self.participants@;
        let n = self.participants.len();
        let mut i: usize = 0;
        while i < n
            invariant
                n == self.participants@.len(),
                self.participants@ == before,
                keys_differ(before, record_prefix()),
                i <= n,
                forall|j: int| 0 <= j < i ==> record_prefix()(#[trigger] before[j]) != prefix,
                self.remote_readers == old(self).remote_readers,
                self.remote_writers == old(self).remote_writers,
                record == (ParticipantRecord {
                    guid_prefix: prefix,
                    lease_duration_nanos: data.lease_duration.nanos() as u64,
                    lease_expiration: instant_after(now, data.lease_duration.nanos() as u64),
                }),
                prefix == data.participant_guid.guidPrefix,
                before == old(self).participants@,
            decreases n - i,
        {
            if self.participants[i].guid_prefix == prefix {
                proof {
                    assert forall|j: int| i < j < before.len() implies record_prefix()(
                        #[trigger] before[j],
                    ) != record_prefix()(before[i as int]) by {
                        assert(record_prefix()(before[i as int]) != record_prefix()(before[j]));
                    }
                    lemma_last_match(before, record_prefix(), record_itself(), i as int);
                    lemma_update(before, record_prefix(), record_itself(), i as int, record);
                }
                self.participants[i] = record;
                proof {
                    let after = self.participants@;
                    assert(after =~= before.update(i as int, record));
                    assert forall|a: int, b: int| 0 <= a < b < after.len() implies record_prefix()(
                        after[a],
                    ) != record_prefix()(after[b]) by {
                        assert(record_prefix()(after[a]) == record_prefix()(before[a]));
                        assert(record_prefix()(after[b]) == record_prefix()(before[b]));
                    }
                }
                return false;
            }
            i += 1;
        }
        proof {
            lemma_no_match(before, record_prefix(), record_itself(), prefix);
        }
        self.participants.push(record);
        proof {
            let after = self.participants@;
            assert(after.drop_last() =~= before);
            assert forall|a: int, b: int| 0 <= a < b < after.len() implies record_prefix()(after[a])
                != record_prefix()(after[b]) by {
                assert(after[a] == before[a]);
                if b < before.len() {
                    assert(after[b] == before[b]);
                } else {
                    assert(record_prefix()(before[a]) != prefix);
                }
            }
        }
        true
    }

    /// Forgets the participants whose lease has run out at `now` and
    /// everything that they announced, and names them: each is lost.
    pub fn check_leases(&mut self, now: u64) -> (lost: Vec<GuidPrefix>)
        requires
            old(self).wf(),
        ensures
            final(self).wf(),
            final(self)@.participants == old(self)@.participants.remove_keys(
                expired(old(self)@.participants, now),
            ),
            final(self)@.remote_readers == old(self)@.remote_readers.remove_keys(
                endpoints_of_all(expired(old(self)@.participants, now)),
            ),
            final(self)@.remote_writers == old(self)@.remote_writers.remove_keys(
                endpoints_of_all(expired(old(self)@.participants, now)),
            ),
            forall|k: int|
                0 <= k < lost@.len() ==> expired(old(self)@.participants, now).contains(
                    #[trigger] lost@[k],
                ),
            forall|p: GuidPrefix| #[trigger]
                expired(old(self)@.participants, now).contains(p) ==> exists|k: int|
                    0 <= k < lost@.len() && lost@[k] == p,
    {
        let ghost before = self.participants@;
        let ghost map = self@.participants;
        let ghost gone = expired(map, now);
        let ghost readers_before = self@.remote_readers;
        let ghost writers_before = self@.remote_writers;
        let ghost mut j: int = 0;
        let mut lost: Vec<GuidPrefix> = Vec::new();
        let mut i: usize = 0;
        proof {
            assert(before.take(0) =~= Seq::<ParticipantRecord>::empty());
            assert(before.skip(0) =~= before);
            assert(self.participants@ =~= without_keys(before.take(0), record_prefix(), gone)
                + before.skip(0));
            assert(readers_before.remove_keys(endpoints_of_all(Set::<GuidPrefix>::empty()))
                =~= readers_before);
            assert(writers_before.remove_keys(endpoints_of_all(Set::<GuidPrefix>::empty()))
                =~= writers_before);
        }
        while i < self.participants.len()
            invariant
                0 <= j <= before.len(),
                keys_differ(before, record_prefix()),
                map == list_map(before, record_prefix(), record_itself()),
                gone == expired(map, now),
                i == without_keys(before.take(j), record_prefix(), gone).len(),
                self.participants@ == without_keys(before.take(j), record_prefix(), gone)
                    + before.skip(j),
                forall|k: int| 0 <= k < lost@.len() ==> gone.contains(#[trigger] lost@[k]),
                forall|b: int|
                    0 <= b < j && gone.contains(record_prefix()(#[trigger] before[b])) ==> exists|
                        k: int,
                    | 0 <= k < lost@.len() && lost@[k] == before[b].guid_prefix,
                self@.remote_readers == readers_before.remove_keys(
                    endpoints_of_all(Set::new(|p: GuidPrefix| exists|k: int| 0 <= k < lost@.len() && lost@[k] == p)),
                ),
                self@.remote_writers == writers_before.remove_keys(
                    endpoints_of_all(Set::new(|p: GuidPrefix| exists|k: int| 0 <= k < lost@.len() && lost@[k] == p)),
                ),
            decreases before.len() - j,
        {
            let ghost kept = without_keys(before.take(j), record_prefix(), gone);
            let ghost lost_before = lost@;
            proof {
                assert(before.skip(j).len() > 0);
                assert(self.participants@[i as int] == before.skip(j)[0]);
                let upto = before.take(j + 1);
                assert(upto.drop_last() =~= before.take(j));
                assert(upto.last() == before[j]);
                assert(before.skip(j + 1) =~= before.skip(j).skip(1));
                assert forall|b: int| j < b < before.len() implies record_prefix()(
                    #[trigger] before[b],
                ) != record_prefix()(before[j]) by {
                    assert(record_prefix()(before[j]) != record_prefix()(before[b]));
                }
                lemma_last_match(before, record_prefix(), record_itself(), j);
            }
            let record = self.participants[i];
            let goes = record.lease_expiration < now;
            assert(goes == gone.contains(record_prefix()(before[j])));
            if goes {
                self.participants.remove(i);
                lost.push(record.guid_prefix);
                let about = GUID {
                    guidPrefix: record.guid_prefix,
                    entityId: crate::structure::guid::EntityId::unknown(),
                };
                let ghost readers_now = self@.remote_readers;
                let ghost writers_now = self@.remote_writers;
                drop_endpoints(&mut self.remote_readers, about, true);
                drop_endpoints(&mut self.remote_writers, about, true);
                proof {
                    assert(self.participants@ =~= kept + before.skip(j + 1));
                    let named_before = Set::new(
                        |p: GuidPrefix| exists|k: int| 0 <= k < lost_before.len() && lost_before[k] == p,
                    );
                    let named = Set::new(
                        |p: GuidPrefix| exists|k: int| 0 <= k < lost@.len() && lost@[k] == p,
                    );
                    assert forall|p: GuidPrefix| named.contains(p) <==> (named_before.contains(p)
                        || p == record.guid_prefix) by {
                        if named_before.contains(p) {
                            let k = choose|k: int| 0 <= k < lost_before.len() && lost_before[k] == p;
                            assert(lost@[k] == p);
                        }
                        if p == record.guid_prefix {
                            assert(lost@[lost@.len() - 1] == p);
                        }
                        if named.contains(p) {
                            let k = choose|k: int| 0 <= k < lost@.len() && lost@[k] == p;
                            if k < lost_before.len() {
                                assert(lost_before[k] == p);
                            }
                        }
                    }
                    assert(self@.remote_readers =~= readers_before.remove_keys(
                        endpoints_of_all(named),
                    ));
                    assert(self@.remote_writers =~= writers_before.remove_keys(
                        endpoints_of_all(named),
                    ));
                    assert forall|k: int| 0 <= k < lost@.len() implies gone.contains(
                        #[trigger] lost@[k],
                    ) by {
                        if k < lost_before.len() {
                            assert(lost@[k] == lost_before[k]);
                        }
                    }
                }
            } else {
                i += 1;
                proof {
                    assert(self.participants@ =~= kept.push(before[j]) + before.skip(j + 1));
                }
            }
            proof {
                assert forall|b: int|
                    0 <= b < j + 1 && gone.contains(record_prefix()(#[trigger] before[b])) implies exists|
                    k: int,
                | 0 <= k < lost@.len() && lost@[k] == before[b].guid_prefix by {
                    if b < j {
                        let k = choose|k: int|
                            0 <= k < lost_before.len() && lost_before[k] == before[b].guid_prefix;
                        assert(lost@[k] == lost_before[k]);
                    } else {
                        assert(lost@[lost@.len() - 1] == before[b].guid_prefix);
                    }
                }
                j = j + 1;
            }
        }
        proof {
            assert(before.skip(j).len() == 0);
            assert(before.take(j) =~= before);
            assert(self.participants@ =~= without_keys(before, record_prefix(), gone));
            lemma_without_keys(before, record_prefix(), record_itself(), gone);
            lemma_without_keys_part(before, record_prefix(), gone);
            let named = Set::new(
                |p: GuidPrefix| exists|k: int| 0 <= k < lost@.len() && lost@[k] == p,
            );
            assert forall|p: GuidPrefix| #[trigger] gone.contains(p) implies exists|k: int|
                0 <= k < lost@.len() && lost@[k] == p by {
                lemma_key_has_entry(before, record_prefix(), record_itself(), p);
                let b = choose|b: int|
                    is_last_match(before, record_prefix(), b) && record_prefix()(
                        #[trigger] before[b],
                    ) == p;
                assert(gone.contains(record_prefix()(before[b])));
            }
            assert(named =~= gone);
        }
        lost
    }

    /// Forgets a participant that has taken its leave, and everything that
    /// it announced; says whether it was known.
    pub fn remove_participant(&mut self, prefix: GuidPrefix) -> (known: bool)
        requires
            old(self).wf(),
        ensures
            final(self).wf(),
            known == old(self)@.participants.dom().contains(prefix),
            final(self)@.participants == old(self)@.participants.remove(prefix),
            final(self)@.remote_readers == old(self)@.remote_readers.remove_keys(
                endpoints_of(prefix),
            ),
            final(self)@.remote_writers == old(self)@.remote_writers.remove_keys(
                endpoints_of(prefix),
            ),
    {
        let ghost before = self.participants@;
        let about = GUID {
            guidPrefix: prefix,
            entityId: crate::structure::guid::EntityId::unknown(),
        };
        drop_endpoints(&mut self.remote_readers, about, true);
        drop_endpoints(&mut self.remote_writers, about, true);
        let n = self.participants.len();
        let mut i: usize = 0;
        while i < n
            invariant
                n == self.participants@.len(),
                self.participants@ == before,
                keys_differ(before, record_prefix()),
                before == old(self).participants@,
                i <= n,
                forall|j: int| 0 <= j < i ==> record_prefix()(#[trigger] before[j]) != prefix,
                self@.remote_readers == old(self)@.remote_readers.remove_keys(endpoints_of(prefix)),
                self@.remote_writers == old(self)@.remote_writers.remove_keys(endpoints_of(prefix)),
            decreases n - i,
        {
            if self.participants[i].guid_prefix == prefix {
                self.participants.remove(i);
                proof {
                    let after = self.participants@;
                    let gone = set![prefix];
                    lemma_without_keys(before, record_prefix(), record_itself(), gone);
                    lemma_without_keys_part(before, record_prefix(), gone);
                    lemma_remove_one(before, i as int, prefix);
                    assert(old(self)@.participants.remove_keys(gone) =~= old(self)@.participants.remove(
                        prefix,
                    ));
                    assert forall|j: int| i < j < before.len() implies record_prefix()(
                        #[trigger] before[j],
                    ) != record_prefix()(before[i as int]) by {
                        assert(record_prefix()(before[i as int]) != record_prefix()(before[j]));
                    }
                    lemma_last_match(before, record_prefix(), record_itself(), i as int);
                }
                return true;
            }
            i += 1;
        }
        proof {
            lemma_no_match(before, record_prefix(), record_itself(), prefix);
            assert(old(self)@.participants.remove(prefix) =~= old(self)@.participants);
        }
        false
    }

    /// Takes in the announcement of a remote reader, and says whether the
    /// reader is new.
    pub fn update_remote_reader(&mut self, data: DiscoveredEndpointData) -> (new: bool)
        ensures
            final(self).wf() == old(self).wf(),
            new == !old(self)@.remote_readers.dom().contains(data@.guid),
            final(self)@ == (DiscoveryDBView {
                remote_readers: old(self)@.remote_readers.insert(data@.guid, data@),
                ..old(self)@
            }),
    {
        put_endpoint(&mut self.remote_readers, data)
    }

    /// Takes in the announcement of a remote writer, and says whether the
    /// writer is new.
    pub fn update_remote_writer(&mut self, data: DiscoveredEndpointData) -> (new: bool)
        ensures
            final(self).wf() == old(self).wf(),
            new == !old(self)@.remote_writers.dom().contains(data@.guid),
            final(self)@ == (DiscoveryDBView {
                remote_writers: old(self)@.remote_writers.insert(data@.guid, data@),
                ..old(self)@
            }),
    {
        put_endpoint(&mut self.remote_writers, data)
    }

    /// Forgets a remote reader that is gone.
    pub fn remove_remote_reader(&mut self, guid: GUID)
        ensures
            final(self).wf() == old(self).wf(),
            final(self)@ == (DiscoveryDBView {
                remote_readers: old(self)@.remote_readers.remove(guid),
                ..old(self)@
            }),
    {
        drop_endpoints(&mut self.remote_readers, guid, false);
        assert(old(self)@.remote_readers.remove_keys(set![guid]) =~= old(self)@.remote_readers.remove(
            guid,
        ));
    }

    /// Forgets a remote writer that is gone.
    pub fn remove_remote_writer(&mut self, guid: GUID)
        ensures
            final(self).wf() == old(self).wf(),
            final(self)@ == (DiscoveryDBView {
                remote_writers: old(self)@.remote_writers.remove(guid),
                ..old(self)@
            }),
    {
        drop_endpoints(&mut self.remote_writers, guid, false);
        assert(old(self)@.remote_writers.remove_keys(set![guid]) =~= old(self)@.remote_writers.remove(
            guid,
        ));
    }

    /// What a remote reader was last announced as, where it is known.
    pub fn find_remote_reader(&self, guid: GUID) -> (r: Option<DiscoveredEndpointData>)
        ensures
            match r {
                Some(d) => self@.remote_readers.dom().contains(guid) && self@.remote_readers[guid]
                    == d@,
                None => !self@.remote_readers.dom().contains(guid),
            },
    {
        find_endpoint(&self.remote_readers, guid)
    }

    /// What a remote writer was last announced as, where it is known.
    pub fn find_remote_writer(&self, guid: GUID) -> (r: Option<DiscoveredEndpointData>)
        ensures
            match r {
                Some(d) => self@.remote_writers.dom().contains(guid) && self@.remote_writers[guid]
                    == d@,
                None => !self@.remote_writers.dom().contains(guid),
            },
    {
        find_endpoint(&self.remote_writers, guid)
    }

    /// What is known of the participant with the prefix `prefix`.
    pub fn find_participant(&self, prefix: GuidPrefix) -> (r: Option<ParticipantRecord>)
        requires
            self.wf(),
        ensures
            match r {
                Some(record) => self@.participants.dom().contains(prefix)
                    && self@.participants[prefix] == record,
                None => !self@.participants.dom().contains(prefix),
            },
    {
        let n = self.participants.len();
        let mut i: usize = 0;
        while i < n
            invariant
                n == self.participants@.len(),
                self.wf(),
                i <= n,
                forall|j: int|
                    0 <= j < i ==> record_prefix()(#[trigger] self.participants@[j]) != prefix,
            decreases n - i,
        {
            if self.participants[i].guid_prefix == prefix {
                proof {
                    let list = self.participants@;
                    assert forall|j: int| i < j < list.len() implies record_prefix()(
                        #[trigger] list[j],
                    ) != record_prefix()(list[i as int]) by {
                        assert(record_prefix()(list[i as int]) != record_prefix()(list[j]));
                    }
                    lemma_last_match(list, record_prefix(), record_itself(), i as int);
                }
                return Some(self.participants[i]);
            }
            i += 1;
        }
        proof {
            lemma_no_match(self.participants@, record_prefix(), record_itself(), prefix);
        }
        None
    }
}

/// A list without the one entry of a key is the list without that key.
proof fn lemma_remove_one(list: Seq<ParticipantRecord>, i: int, prefix: GuidPrefix)
    requires
        keys_differ(list, record_prefix()),
        0 <= i < list.len(),
        list[i].guid_prefix == prefix,
    ensures
        list.remove(i) == without_keys(list, record_prefix(), set![prefix]),
    decreases list.len(),
{
    let gone = set![prefix];
    let head = list.drop_last();
    let n = list.len() - 1;
    if i == n {
        lemma_all_kept(head, prefix);
        assert forall|j: int| 0 <= j < head.len() implies record_prefix()(#[trigger] head[j])
            != prefix by {
            assert(head[j] == list[j]);
            assert(record_prefix()(list[j]) != record_prefix()(list[n]));
        }
        lemma_all_kept(head, prefix);
        assert(list.remove(i) =~= head);
    } else {
        assert forall|a: int, b: int| 0 <= a < b < head.len() implies record_prefix()(head[a])
            != record_prefix()(head[b]) by {
            assert(head[a] == list[a] && head[b] == list[b]);
        }
        assert(head[i] == list[i]);
        lemma_remove_one(head, i, prefix);
        assert(record_prefix()(list[i]) != record_prefix()(list[n]));
        assert(list.remove(i) =~= head.remove(i).push(list[n]));
    }
}

/// A list that has no entry of a key is the list without that key.
proof fn lemma_all_kept(list: Seq<ParticipantRecord>, prefix: GuidPrefix)
    requires
        forall|j: int| 0 <= j < list.len() ==> record_prefix()(#[trigger] list[j]) != prefix,
    ensures
        without_keys(list, record_prefix(), set![prefix]) == list,
    decreases list.len(),
{
    if list.len() > 0 {
        let head = list.drop_last();
        assert forall|j: int| 0 <= j < head.len() implies record_prefix()(#[trigger] head[j])
            != prefix by {
            assert(head[j] == list[j]);
        }
        lemma_all_kept(head, prefix);
        assert(record_prefix()(list[list.len() - 1]) != prefix);
        assert(without_keys(list, record_prefix(), set![prefix]) =~= list);
    } else {
        assert(without_keys(list, record_prefix(), set![prefix]) =~= list);
    }
}

} // verus!
