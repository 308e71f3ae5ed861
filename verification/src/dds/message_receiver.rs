//! What a datagram says of itself while its submessages are worked through.

use crate::dds::reader::Reader;
use crate::dds::writer::Writer;
use crate::messages::message::{Submessage, SubmessageView};
use crate::structure::guid::{EntityId, GuidPrefix};
use crate::structure::locator::Locator;
use crate::structure::time::Timestamp;
use vstd::prelude::*;

verus! {

/// What is known of the datagram at hand: whom it is for, whom it is from,
/// when its submessages were made and where answers go.
pub struct MessageReceiverState {
    pub dest_guid_prefix: GuidPrefix,
    pub source_guid_prefix: GuidPrefix,
    /// The time of the submessages, the invalid time until one is told.
    pub source_timestamp: Timestamp,
    pub unicast_reply_locator_list: Vec<Locator>,
    pub multicast_reply_locator_list: Vec<Locator>,
}

impl Default for MessageReceiverState {
    fn default() -> (s: MessageReceiverState)
        ensures
            s.dest_guid_prefix.entityKey@ == Seq::new(12, |i: int| 0u8),
            s.source_guid_prefix.entityKey@ == Seq::new(12, |i: int| 0u8),
            s.source_timestamp == Timestamp::spec_time_invalid(),
            s.unicast_reply_locator_list@.len() == 0,
            s.multicast_reply_locator_list@.len() == 0,
    {
        MessageReceiverState {
            dest_guid_prefix: GuidPrefix::unknown(),
            source_guid_prefix: GuidPrefix::unknown(),
            source_timestamp: Timestamp::time_invalid(),
            unicast_reply_locator_list: Vec::new(),
            multicast_reply_locator_list: Vec::new(),
        }
    }
}

impl Clone for MessageReceiverState {
    fn clone(&self) -> (s: MessageReceiverState)
        ensures
            s.dest_guid_prefix == self.dest_guid_prefix,
            s.source_guid_prefix == self.source_guid_prefix,
            s.source_timestamp == self.source_timestamp,
            s.unicast_reply_locator_list@ == self.unicast_reply_locator_list@,
            s.multicast_reply_locator_list@ == self.multicast_reply_locator_list@,
    {
        MessageReceiverState {
            dest_guid_prefix: self.dest_guid_prefix,
            source_guid_prefix: self.source_guid_prefix,
            source_timestamp: self.source_timestamp,
            unicast_reply_locator_list: crate::structure::locator::copy_locators(
                &self.unicast_reply_locator_list,
            ),
            multicast_reply_locator_list: crate::structure::locator::copy_locators(
                &self.multicast_reply_locator_list,
            ),
        }
    }
}

/// Whom a submessage is to be handed to.
#[derive(Debug, Clone, Copy)]
pub enum Dispatch {
    /// The submessage is for nobody here: it told of the datagram only, or
    /// the datagram is meant for another participant.
    Nobody,
    /// The submessage is for the local reader with this entity id, and for
    /// every local reader where the id is the unknown one.
    ToReaders { reader_id: EntityId },
    /// The submessage is for the local writer with this entity id, and for
    /// every local writer where the id is the unknown one.
    ToWriters { writer_id: EntityId },
}

/// What is known of a datagram once its header has been read, by the
/// participant with the prefix `own`: it is meant for that participant,
/// it comes from the participant that the header names, and nothing is yet
/// known of its time or of where answers go.
pub open spec fn spec_state_at_header(own: GuidPrefix, source: GuidPrefix) -> MessageReceiverStateView {
    MessageReceiverStateView {
        dest_guid_prefix: own,
        source_guid_prefix: source,
        source_timestamp: Timestamp::spec_time_invalid(),
        unicast_reply_locator_list: Seq::empty(),
        multicast_reply_locator_list: Seq::empty(),
    }
}

/// What a `MessageReceiverState` stands for.
pub struct MessageReceiverStateView {
    pub dest_guid_prefix: GuidPrefix,
    pub source_guid_prefix: GuidPrefix,
    pub source_timestamp: Timestamp,
    pub unicast_reply_locator_list: Seq<Locator>,
    pub multicast_reply_locator_list: Seq<Locator>,
}

impl View for MessageReceiverState {
    type V = MessageReceiverStateView;

    open spec fn view(&self) -> MessageReceiverStateView {
        MessageReceiverStateView {
            dest_guid_prefix: self.dest_guid_prefix,
            source_guid_prefix: self.source_guid_prefix,
            source_timestamp: self.source_timestamp,
            unicast_reply_locator_list: self.unicast_reply_locator_list@,
            multicast_reply_locator_list: self.multicast_reply_locator_list@,
        }
    }
}

/// The prefix that names no participant.
pub open spec fn is_unknown_prefix(prefix: GuidPrefix) -> bool {
    prefix.entityKey@ == Seq::new(12, |i: int| 0u8)
}

/// What is known of the datagram after a submessage.
///
/// INFO_DST sets whom the datagram is for, which is this participant where
/// the submessage names nobody. INFO_SRC sets whom it is from and forgets
/// the time and where answers go. INFO_TS sets the time, which is invalid
/// where the submessage declares it unknown. INFO_REPLY sets where answers
/// go: to one as it says, and to a group as it says or nowhere. Any other
/// submessage leaves what is known as it is.
pub open spec fn state_after(
    state: MessageReceiverStateView,
    sub: SubmessageView,
    own: GuidPrefix,
) -> MessageReceiverStateView {
    match sub {
        SubmessageView::InfoDestination(info) => MessageReceiverStateView {
            dest_guid_prefix: if is_unknown_prefix(info.guid_prefix) {
                own
            } else {
                info.guid_prefix
            },
            ..state
        },
        SubmessageView::InfoSource(info) => MessageReceiverStateView {
            source_guid_prefix: info.guid_prefix,
            source_timestamp: Timestamp::spec_time_invalid(),
            unicast_reply_locator_list: Seq::empty(),
            multicast_reply_locator_list: Seq::empty(),
            ..state
        },
        SubmessageView::InfoTimestamp(info) => MessageReceiverStateView {
            source_timestamp: match info.timestamp {
                Some(t) => t,
                None => Timestamp::spec_time_invalid(),
            },
            ..state
        },
        SubmessageView::InfoReply(info) => MessageReceiverStateView {
            unicast_reply_locator_list: info.unicast_locator_list,
            multicast_reply_locator_list: match info.multicast_locator_list {
                Some(list) => list,
                None => Seq::empty(),
            },
            ..state
        },
        _ => state,
    }
}

/// Whom a submessage is handed to by a participant with the prefix `own`
/// that knows `state` of the datagram: DATA, HEARTBEAT and GAP go to the
/// readers that they name, ACKNACK goes to the writers that it names, and
/// nothing is handed out of a datagram that is meant for another
/// participant.
pub open spec fn dispatch_of(
    state: MessageReceiverStateView,
    sub: SubmessageView,
    own: GuidPrefix,
) -> Dispatch {
    if state.dest_guid_prefix != own {
        Dispatch::Nobody
    } else {
        match sub {
            SubmessageView::Data(d) => Dispatch::ToReaders { reader_id: d.reader_id },
            SubmessageView::Heartbeat(h) => Dispatch::ToReaders { reader_id: h.reader_id },
            SubmessageView::Gap(g) => Dispatch::ToReaders { reader_id: g.reader_id },
            SubmessageView::AckNack(a) => Dispatch::ToWriters { writer_id: a.writer_id },
            _ => Dispatch::Nobody,
        }
    }
}

/// Whether an endpoint with the entity id `own_id` is one that a
/// submessage for `addressed` is handed to: it is the one named, or none is
/// named.
pub open spec fn is_addressed(own_id: EntityId, addressed: EntityId) -> bool {
    addressed == EntityId::spec_unknown() || own_id == addressed
}

/// Works through the submessages of a datagram for one participant.
pub struct MessageReceiver {
    own_guid_prefix: GuidPrefix,
    state: MessageReceiverState,
}

impl MessageReceiver {
    /// The participant that the receiver works for.
    pub closed spec fn own(&self) -> GuidPrefix {
        self.own_guid_prefix
    }

    /// What is known of the datagram at hand.
    pub closed spec fn state(&self) -> MessageReceiverStateView {
        self.state@
    }

    /// A receiver for the participant with the prefix `own_guid_prefix`.
    pub fn new(own_guid_prefix: GuidPrefix) -> (r: MessageReceiver)
        ensures
            r.own() == own_guid_prefix,
            r.state() == spec_state_at_header(own_guid_prefix, r.state().source_guid_prefix),
    {
        let mut state = MessageReceiverState::default();
        state.dest_guid_prefix = own_guid_prefix;
        let r = MessageReceiver { own_guid_prefix, state };
        assert(r.state().unicast_reply_locator_list =~= Seq::<Locator>::empty());
        assert(r.state().multicast_reply_locator_list =~= Seq::<Locator>::empty());
        r
    }

    /// Begins a datagram, whose header names the participant `source`.
    pub fn begin(&mut self, source: GuidPrefix)
        ensures
            final(self).own() == old(self).own(),
            final(self).state() == spec_state_at_header(old(self).own(), source),
    {
        let mut state = MessageReceiverState::default();
        state.dest_guid_prefix = self.own_guid_prefix;
        state.source_guid_prefix = source;
        self.state = state;
        assert(self.state().unicast_reply_locator_list =~= Seq::<Locator>::empty());
        assert(self.state().multicast_reply_locator_list =~= Seq::<Locator>::empty());
    }

    /// What is known of the datagram at hand.
    pub fn get_state(&self) -> (s: &MessageReceiverState)
        ensures
            s@ == self.state(),
    {
        &self.state
    }

    /// Takes in the next submessage of the datagram: notes what it tells of
    /// the datagram, and says whom it is to be handed to.
    pub fn interpret(&mut self, sub: &Submessage) -> (d: Dispatch)
        ensures
            final(self).own() == old(self).own(),
            final(self).state() == state_after(old(self).state(), sub@, old(self).own()),
            d == dispatch_of(old(self).state(), sub@, old(self).own()),
    {
        let addressed_here = self.state.dest_guid_prefix == self.own_guid_prefix;
        match sub {
            Submessage::InfoDestination(info) => {
                let unknown = GuidPrefix::unknown();
                if info.guid_prefix == unknown {
                    assert(info.guid_prefix.entityKey@ == Seq::new(12, |i: int| 0u8));
                    self.state.dest_guid_prefix = self.own_guid_prefix;
                } else {
                    assert(!is_unknown_prefix(info.guid_prefix)) by {
                        if is_unknown_prefix(info.guid_prefix) {
                            assert(info.guid_prefix.entityKey =~= unknown.entityKey);
                        }
                    }
                    self.state.dest_guid_prefix = info.guid_prefix;
                }
                Dispatch::Nobody
            },
            Submessage::InfoSource(info) => {
                self.state.source_guid_prefix = info.guid_prefix;
                self.state.source_timestamp = Timestamp::time_invalid();
                self.state.unicast_reply_locator_list = Vec::new();
                self.state.multicast_reply_locator_list = Vec::new();
                proof {
                    assert(self.state().unicast_reply_locator_list =~= Seq::<Locator>::empty());
                    assert(self.state().multicast_reply_locator_list =~= Seq::<Locator>::empty());
                }
                Dispatch::Nobody
            },
            Submessage::InfoTimestamp(info) => {
                self.state.source_timestamp = match info.timestamp {
                    Some(t) => t,
                    None => Timestamp::time_invalid(),
                };
                Dispatch::Nobody
            },
            Submessage::InfoReply(info) => {
                self.state.unicast_reply_locator_list = crate::structure::locator::copy_locators(
                    &info.unicast_locator_list,
                );
                self.state.multicast_reply_locator_list = match &info.multicast_locator_list {
                    Some(list) => crate::structure::locator::copy_locators(list),
                    None => Vec::new(),
                };
                proof {
                    if info.multicast_locator_list is None {
                        assert(self.state().multicast_reply_locator_list =~= Seq::<
                            Locator,
                        >::empty());
                    }
                }
                Dispatch::Nobody
            },
            Submessage::Data(d) => if addressed_here {
                Dispatch::ToReaders { reader_id: d.reader_id }
            } else {
                Dispatch::Nobody
            },
            Submessage::Heartbeat(h) => if addressed_here {
                Dispatch::ToReaders { reader_id: h.reader_id }
            } else {
                Dispatch::Nobody
            },
            Submessage::Gap(g) => if addressed_here {
                Dispatch::ToReaders { reader_id: g.reader_id }
            } else {
                Dispatch::Nobody
            },
            Submessage::AckNack(a) => if addressed_here {
                Dispatch::ToWriters { writer_id: a.writer_id }
            } else {
                Dispatch::Nobody
            },
        }
    }

    /// The places of the readers that a submessage for `reader_id` is handed
    /// to: the reader with that entity id, and every reader where the id is
    /// the unknown one, in the order in which they stand.
    pub fn addressed_readers(readers: &Vec<Reader>, reader_id: EntityId) -> (places: Vec<usize>)
        ensures
            forall|k: int|
                0 <= k < places@.len() ==> (#[trigger] places@[k]) < readers@.len() && is_addressed(
                    readers@[places@[k] as int]@.guid.entityId,
                    reader_id,
                ),
            forall|i: int|
                0 <= i < readers@.len() && is_addressed(
                    (#[trigger] readers@[i])@.guid.entityId,
                    reader_id,
                ) ==> places@.contains(i as usize),
            forall|a: int, b: int| 0 <= a < b < places@.len() ==> places@[a] < places@[b],
    {
        let everyone = reader_id == EntityId::unknown();
        let mut places: Vec<usize> = Vec::new();
        let n = readers.len();
        let mut i: usize = 0;
        while i < n
            invariant
                n == readers@.len(),
                i <= n,
                everyone == (reader_id == EntityId::spec_unknown()),
                forall|k: int|
                    0 <= k < places@.len() ==> (#[trigger] places@[k]) < i && is_addressed(
                        readers@[places@[k] as int]@.guid.entityId,
                        reader_id,
                    ),
                forall|j: int|
                    0 <= j < i && is_addressed((#[trigger] readers@[j])@.guid.entityId, reader_id)
                        ==> places@.contains(j as usize),
                forall|a: int, b: int| 0 <= a < b < places@.len() ==> places@[a] < places@[b],
            decreases n - i,
        {
            let ghost before = places@;
            if everyone || readers[i].get_entity_id() == reader_id {
                places.push(i);
                assert(places@[places@.len() - 1] == i);
            }
            proof {
                assert forall|j: int|
                    0 <= j < i + 1 && is_addressed(
                        (#[trigger] readers@[j])@.guid.entityId,
                        reader_id,
                    ) implies places@.contains(j as usize) by {
                    if j < i {
                        assert(before.contains(j as usize));
                        let w = choose|w: int| 0 <= w < before.len() && before[w] == j as usize;
                        assert(places@[w] == j as usize);
                    }
                }
            }
            i += 1;
        }
        places
    }

    /// The places of the writers that a submessage for `writer_id` is handed
    /// to: the writer with that entity id, and every writer where the id is
    /// the unknown one, in the order in which they stand.
    pub fn addressed_writers(writers: &Vec<Writer>, writer_id: EntityId) -> (places: Vec<usize>)
        ensures
            forall|k: int|
                0 <= k < places@.len() ==> (#[trigger] places@[k]) < writers@.len() && is_addressed(
                    writers@[places@[k] as int]@.guid.entityId,
                    writer_id,
                ),
            forall|i: int|
                0 <= i < writers@.len() && is_addressed(
                    (#[trigger] writers@[i])@.guid.entityId,
                    writer_id,
                ) ==> places@.contains(i as usize),
            forall|a: int, b: int| 0 <= a < b < places@.len() ==> places@[a] < places@[b],
    {
        let everyone = writer_id == EntityId::unknown();
        let mut places: Vec<usize> = Vec::new();
        let n = writers.len();
        let mut i: usize = 0;
        while i < n
            invariant
                n == writers@.len(),
                i <= n,
                everyone == (writer_id == EntityId::spec_unknown()),
                forall|k: int|
                    0 <= k < places@.len() ==> (#[trigger] places@[k]) < i && is_addressed(
                        writers@[places@[k] as int]@.guid.entityId,
                        writer_id,
                    ),
                forall|j: int|
                    0 <= j < i && is_addressed((#[trigger] writers@[j])@.guid.entityId, writer_id)
                        ==> places@.contains(j as usize),
                forall|a: int, b: int| 0 <= a < b < places@.len() ==> places@[a] < places@[b],
            decreases n - i,
        {
            let ghost before = places@;
            if everyone || writers[i].get_guid().entityId == writer_id {
                places.push(i);
                assert(places@[places@.len() - 1] == i);
            }
            proof {
                assert forall|j: int|
                    0 <= j < i + 1 && is_addressed(
                        (#[trigger] writers@[j])@.guid.entityId,
                        writer_id,
                    ) implies places@.contains(j as usize) by {
                    if j < i {
                        assert(before.contains(j as usize));
                        let w = choose|w: int| 0 <= w < before.len() && before[w] == j as usize;
                        assert(places@[w] == j as usize);
                    }
                }
            }
            i += 1;
        }
        places
    }
}

} // verus!
