//! The sending side of a topic: what each matched reader has yet to get and
//! to acknowledge.

use crate::dds::message_receiver::MessageReceiverState;
use crate::dds::qos::{History, QosPolicies};
use crate::dds::reader::{change_of_data, endpoints_of, instant_after, next_count};
use crate::messages::serialized_payload::{SerializedPayload, SerializedPayloadView};
use crate::messages::submessages::{AckNack, Data, DataView, Gap, Heartbeat, InlineQos};
use crate::structure::cache_change::{CacheChange, CacheChangeView, ChangeKind};
use crate::structure::dds_cache::{
    holds_identity, holds_instant, log_after_add, log_keep_newest, log_without_acknowledged,
    CacheError, ChangeLog, DDSCache,
};
use crate::structure::guid::{EntityId, GuidPrefix, GUID};
use crate::structure::inline_qos::{KeyHash, StatusInfo, StatusInfoEnum};
use crate::structure::keyed_list::{
    is_last_match, keys_differ, lemma_last_match, lemma_mapped, lemma_no_match, lemma_update,
    lemma_without_keys, lemma_without_keys_part, list_map, no_match, without_keys,
};
use crate::structure::locator::Locator;
use crate::structure::sequence_number::{number_range, NumberSet, SequenceNumber, SequenceNumberSet};
use vstd::prelude::*;

verus! {

/// The time between two heartbeats of a writer, in nanoseconds, unless it is
/// told otherwise: 200 ms.
pub const DEFAULT_HEARTBEAT_PERIOD_NANOS: u64 = 200_000_000;

/// The time for which a writer sends no change again after it was asked to,
/// in nanoseconds, unless it is told otherwise: 200 ms.
pub const DEFAULT_NACK_SUPPRESSION_NANOS: u64 = 200_000_000;

/// What a writer knows of one matched reader.
pub struct ReaderProxy {
    reader_guid: GUID,
    unicast_locators: Vec<Locator>,
    multicast_locators: Vec<Locator>,
    expects_inline_qos: bool,
    is_reliable: bool,
    unacked_changes: NumberSet,
    unsent_changes: NumberSet,
    highest_acked_sn: SequenceNumber,
    nack_suppression_until: u64,
    last_acknack_count: i32,
    announced: bool,
}

/// What a `ReaderProxy` stands for.
pub struct ReaderProxyView {
    pub reader_guid: GUID,
    pub unicast_locators: Seq<Locator>,
    pub multicast_locators: Seq<Locator>,
    pub expects_inline_qos: bool,
    pub is_reliable: bool,
    /// The changes that the reader has not acknowledged.
    pub unacked_changes: Set<int>,
    /// The changes that are to be sent to the reader: new ones and ones
    /// that it asked for again.
    pub unsent_changes: Set<int>,
    /// The number below which the reader has acknowledged every change.
    pub highest_acked_sn: int,
    /// The instant before which changes that the reader asks for again are
    /// not sent again.
    pub nack_suppression_until: u64,
    pub last_acknack_count: int,
    /// Whether a heartbeat has gone out since a change was last added.
    pub announced: bool,
}

/// Where a writer stands with a reliable reader.
#[derive(Debug, Clone, Copy, PartialEq, Eq, Structural)]
pub enum ReaderProxyState {
    /// Nothing is to be sent and nothing awaits acknowledgement.
    Idle,
    /// Changes are to be sent.
    Pushing,
    /// Changes await acknowledgement and a heartbeat has announced them.
    WaitingForAck,
    /// Changes await acknowledgement and a heartbeat is to announce them.
    Announcing,
}

impl View for ReaderProxy {
    type V = ReaderProxyView;

    closed spec fn view(&self) -> ReaderProxyView {
        ReaderProxyView {
            reader_guid: self.reader_guid,
            unicast_locators: self.unicast_locators@,
            multicast_locators: self.multicast_locators@,
            expects_inline_qos: self.expects_inline_qos,
            is_reliable: self.is_reliable,
            unacked_changes: self.unacked_changes@,
            unsent_changes: self.unsent_changes@,
            highest_acked_sn: self.highest_acked_sn.0 as int,
            nack_suppression_until: self.nack_suppression_until,
            last_acknack_count: self.last_acknack_count as int,
            announced: self.announced,
        }
    }
}

/// The numbers that a window says are in the set.
pub open spec fn window_members(base: int, bits: Seq<bool>) -> Set<int> {
    Set::new(|n: int| 0 <= n - base < bits.len() && bits[n - base])
}

/// The numbers that a window speaks of.
pub open spec fn window_span(base: int, bits: Seq<bool>) -> Set<int> {
    Set::new(|n: int| 0 <= n - base < bits.len())
}

impl ReaderProxyView {
    /// Where the writer stands with the reader.
    pub open spec fn state(self) -> ReaderProxyState {
        if self.unsent_changes != Set::<int>::empty() {
            ReaderProxyState::Pushing
        } else if self.unacked_changes == Set::<int>::empty() {
            ReaderProxyState::Idle
        } else if self.announced {
            ReaderProxyState::WaitingForAck
        } else {
            ReaderProxyState::Announcing
        }
    }

    /// The proxy after the writer has written the change `sn`: the change is
    /// to be sent, and a reliable reader is to acknowledge it.
    pub open spec fn with_change(self, sn: int) -> ReaderProxyView {
        ReaderProxyView {
            unsent_changes: self.unsent_changes.insert(sn),
            unacked_changes: if self.is_reliable {
                self.unacked_changes.insert(sn)
            } else {
                self.unacked_changes
            },
            announced: false,
            ..self
        }
    }

    /// Whether an acknowledgement with this count is new: a count that is
    /// not greater than the last is a replay.
    pub open spec fn acknack_is_new(self, count: int) -> bool {
        count > self.last_acknack_count
    }

    /// The proxy after a new acknowledgement that came at `now`.
    ///
    /// Every change below the base of the window is acknowledged, and so is
    /// every change of the window whose bit is not set. The changes whose
    /// bits are set, as far as the writer has written them, are to be sent
    /// again, unless the reader asked less than the suppression time ago.
    pub open spec fn after_acknack(
        self,
        base: int,
        bits: Seq<bool>,
        count: int,
        last_written: int,
        now: u64,
        suppression: u64,
    ) -> ReaderProxyView {
        let asked = window_members(base, bits).intersect(number_range(i64::MIN as int, last_written));
        let resend = now >= self.nack_suppression_until && asked != Set::<int>::empty();
        ReaderProxyView {
            highest_acked_sn: base - 1,
            unacked_changes: self.unacked_changes.difference(
                number_range(i64::MIN as int, base - 1),
            ).difference(window_span(base, bits).difference(window_members(base, bits))),
            unsent_changes: if resend {
                self.unsent_changes.union(asked)
            } else {
                self.unsent_changes
            },
            nack_suppression_until: if resend {
                instant_after(now, suppression)
            } else {
                self.nack_suppression_until
            },
            last_acknack_count: count,
            ..self
        }
    }

    /// The proxy after the change `sn` has been handed out for sending.
    pub open spec fn after_send(self, sn: int) -> ReaderProxyView {
        ReaderProxyView { unsent_changes: self.unsent_changes.remove(sn), ..self }
    }

    /// The proxy after a heartbeat has gone out to the reader.
    pub open spec fn after_heartbeat(self) -> ReaderProxyView {
        ReaderProxyView { announced: true, ..self }
    }
}

/// The status that a change of the given kind travels with, if it travels
/// with one.
pub open spec fn status_of_kind(kind: ChangeKind) -> Option<StatusInfo> {
    match kind {
        ChangeKind::ALIVE => None,
        ChangeKind::NOT_ALIVE_DISPOSED => Some(
            StatusInfo::of_octets(seq![0u8, 0u8, 0u8, StatusInfoEnum::Disposed.spec_bits()]),
        ),
        ChangeKind::NOT_ALIVE_UNREGISTERED => Some(
            StatusInfo::of_octets(seq![0u8, 0u8, 0u8, StatusInfoEnum::Unregistered.spec_bits()]),
        ),
    }
}

/// The DATA submessage that carries a change to the reader `reader_id`.
///
/// It carries the inline key hash where the change is no living sample or
/// the topic is keyed, and the inline status where the change is no living
/// sample. The payload of a change that is no living sample holds the key.
pub open spec fn data_of_change(change: CacheChangeView, reader_id: EntityId, keyed: bool) -> DataView {
    DataView {
        reader_id,
        writer_id: change.writer_guid.entityId,
        writer_sn: change.sequence_number,
        inline_qos: if change.kind != ChangeKind::ALIVE || keyed {
            Some(
                InlineQos {
                    status_info: status_of_kind(change.kind),
                    key_hash: Some(KeyHash::of_value(change.instance_key_hash)),
                },
            )
        } else {
            None
        },
        serialized_payload: change.data_value,
        payload_is_key: change.kind != ChangeKind::ALIVE && change.data_value is Some,
    }
}

/// A change comes back from the DATA submessage that carries it: a reader
/// that takes the submessage as coming from the change's writer composes
/// the same change, with its payload, be it a sample or a key, where a
/// change of a topic without keys has the key hash zero.
pub proof fn lemma_data_carries_change(change: CacheChangeView, reader_id: EntityId, keyed: bool)
    requires
        !keyed && change.kind == ChangeKind::ALIVE ==> change.instance_key_hash == 0,
    ensures
        change_of_data(data_of_change(change, reader_id, keyed), change.writer_guid) == change,
{
    let data = data_of_change(change, reader_id, keyed);
    KeyHash::lemma_value(
        KeyHash::of_value(change.instance_key_hash),
        KeyHash::of_value(change.instance_key_hash),
        change.instance_key_hash,
    );
    match status_of_kind(change.kind) {
        Some(status) => {
            let octets = if change.kind == ChangeKind::NOT_ALIVE_DISPOSED {
                seq![0u8, 0u8, 0u8, StatusInfoEnum::Disposed.spec_bits()]
            } else {
                seq![0u8, 0u8, 0u8, StatusInfoEnum::Unregistered.spec_bits()]
            };
            StatusInfo::lemma_octets(status, status, octets);
            assert(status.flags() == octets[3]);
            assert(1u8 & 1u8 == 1u8) by (bit_vector);
            assert(2u8 & 1u8 != 1u8) by (bit_vector);
            assert(2u8 & 2u8 == 2u8) by (bit_vector);
        },
        None => {},
    }
}

/// Why a change was not written.
#[derive(Debug, Clone, Copy, PartialEq, Eq, Structural)]
pub enum WriteError {
    /// The writer has given out its last sequence number.
    SequenceExhausted,
    /// The cache did not take the change.
    Cache(CacheError),
}

/// What became of an ACKNACK submessage.
#[derive(Debug, Clone, Copy, PartialEq, Eq, Structural)]
pub enum AckNackOutcome {
    /// The reader is not matched; nothing was done.
    UnknownReader,
    /// The acknowledgement is a replay; nothing was done.
    Replay,
    /// The window of the acknowledgement begins below every sequence number;
    /// nothing was done.
    Malformed,
    /// The acknowledgement was taken in.
    Accepted,
}

/// What a writer hands out for sending to one reader.
pub enum SendStep {
    /// Nothing is to be sent to the reader.
    Nothing,
    /// This change is to be sent.
    Data(Data),
    /// The change with the number that the gap starts at is to be had no
    /// more; this gap is to be sent in its place.
    Gap(Gap),
}

impl ReaderProxy {
    /// What a writer knows of a reader that it has sent nothing to.
    pub fn new(
        reader_guid: GUID,
        expects_inline_qos: bool,
        is_reliable: bool,
        unicast_locators: Vec<Locator>,
        multicast_locators: Vec<Locator>,
    ) -> (p: ReaderProxy)
        ensures
            p@ == (ReaderProxyView {
                reader_guid,
                unicast_locators: unicast_locators@,
                multicast_locators: multicast_locators@,
                expects_inline_qos,
                is_reliable,
                unacked_changes: Set::<int>::empty(),
                unsent_changes: Set::<int>::empty(),
                highest_acked_sn: 0,
                nack_suppression_until: 0,
                last_acknack_count: 0,
                announced: false,
            }),
    {
        ReaderProxy {
            reader_guid,
            unicast_locators,
            multicast_locators,
            expects_inline_qos,
            is_reliable,
            unacked_changes: NumberSet::new(),
            unsent_changes: NumberSet::new(),
            highest_acked_sn: SequenceNumber(0),
            nack_suppression_until: 0,
            last_acknack_count: 0,
            announced: false,
        }
    }

    /// The reader.
    pub fn reader_guid(&self) -> (g: GUID)
        ensures
            g == self@.reader_guid,
    {
        self.reader_guid
    }

    /// Whether lost changes are sent to the reader again.
    pub fn is_reliable(&self) -> (b: bool)
        ensures
            b == self@.is_reliable,
    {
        self.is_reliable
    }

    /// Where the reader takes datagrams for it alone.
    pub fn unicast_locators(&self) -> (l: &Vec<Locator>)
        ensures
            l@ == self@.unicast_locators,
    {
        &self.unicast_locators
    }

    /// Where the reader takes datagrams for its group.
    pub fn multicast_locators(&self) -> (l: &Vec<Locator>)
        ensures
            l@ == self@.multicast_locators,
    {
        &self.multicast_locators
    }

    /// The number below which the reader has acknowledged every change.
    pub fn highest_acked_sn(&self) -> (n: SequenceNumber)
        ensures
            n.0 == self@.highest_acked_sn,
    {
        self.highest_acked_sn
    }

    /// Whether the reader has yet to acknowledge the change `sn`.
    pub fn is_unacked(&self, sn: SequenceNumber) -> (b: bool)
        ensures
            b == self@.unacked_changes.contains(sn.0 as int),
    {
        self.unacked_changes.contains(sn.0)
    }

    /// Whether the change `sn` is to be sent to the reader.
    pub fn is_unsent(&self, sn: SequenceNumber) -> (b: bool)
        ensures
            b == self@.unsent_changes.contains(sn.0 as int),
    {
        self.unsent_changes.contains(sn.0)
    }

    /// Where the writer stands with the reader.
    pub fn state(&self) -> (s: ReaderProxyState)
        ensures
            s == self@.state(),
    {
        if !self.unsent_changes.is_empty() {
            ReaderProxyState::Pushing
        } else if self.unacked_changes.is_empty() {
            ReaderProxyState::Idle
        } else if self.announced {
            ReaderProxyState::WaitingForAck
        } else {
            ReaderProxyState::Announcing
        }
    }

    /// Notes that the writer has written the change `sn`.
    fn add_change(&mut self, sn: SequenceNumber)
        ensures
            final(self)@ == old(self)@.with_change(sn.0 as int),
    {
        self.unsent_changes.insert(sn.0);
        if self.is_reliable {
            self.unacked_changes.insert(sn.0);
        }
        self.announced = false;
    }

    /// Takes in an acknowledgement that came at `now`.
    fn acknowledge(
        &mut self,
        window: &SequenceNumberSet,
        count: i32,
        last_written: SequenceNumber,
        now: u64,
        suppression: u64,
    )
        requires
            window.wf(),
            window.spec_base() > i64::MIN,
        ensures
            final(self)@ == old(self)@.after_acknack(
                window.spec_base(),
                window.spec_bits(),
                count as int,
                last_written.0 as int,
                now,
                suppression,
            ),
    {
        let ghost before = self@;
        let ghost bits = window.spec_bits();
        let base = window.base().0;
        let ghost members = window_members(base as int, bits);
        let ghost span = window_span(base as int, bits);
        let ghost asked = members.intersect(number_range(i64::MIN as int, last_written.0 as int));
        self.highest_acked_sn = SequenceNumber(base - 1);
        self.unacked_changes.remove_range(i64::MIN, base - 1);
        let ghost below = self.unacked_changes@;
        let mut requested = NumberSet::new();
        let n = window.num_bits();
        let mut i: usize = 0;
        assert(requested@ =~= Set::new(
            |v: int| members.contains(v) && v < base + 0 && v <= last_written.0,
        ));
        while i < n
            invariant
                n == bits.len(),
                bits == window.spec_bits(),
                base == window.spec_base(),
                window.wf(),
                i <= n,
                members == window_members(base as int, bits),
                forall|v: int|
                    self.unacked_changes@.contains(v) <==> (below.contains(v) && !(base <= v < base
                        + i && !members.contains(v))),
                requested@ == Set::new(
                    |v: int| members.contains(v) && v < base + i && v <= last_written.0,
                ),
                self.reader_guid == old(self).reader_guid,
                self.unicast_locators == old(self).unicast_locators,
                self.multicast_locators == old(self).multicast_locators,
                self.expects_inline_qos == old(self).expects_inline_qos,
                self.is_reliable == old(self).is_reliable,
                self.unsent_changes == old(self).unsent_changes,
                self.highest_acked_sn.0 == base - 1,
                self.nack_suppression_until == old(self).nack_suppression_until,
                self.announced == old(self).announced,
            decreases n - i,
        {
            let number: i64 = (base as i128 + i as i128) as i64;
            let ghost requested_before = requested@;
            if window.bit(i) {
                assert(members.contains(number as int));
                if number <= last_written.0 {
                    requested.insert(number);
                }
            } else {
                assert(!members.contains(number as int));
                self.unacked_changes.remove(number);
            }
            proof {
                assert(members.contains(number as int) == bits[i as int]);
                assert(requested@ =~= Set::new(
                    |v: int| members.contains(v) && v < base + i + 1 && v <= last_written.0,
                ));
            }
            i += 1;
        }
        proof {
            assert(requested@ =~= asked);
            assert(self.unacked_changes@ =~= before.unacked_changes.difference(
                number_range(i64::MIN as int, base - 1),
            ).difference(span.difference(members)));
        }
        if now >= self.nack_suppression_until && !requested.is_empty() {
            let ghost unsent = self.unsent_changes@;
            let mut i: usize = 0;
            while i < n
                invariant
                    n == bits.len(),
                    bits == window.spec_bits(),
                    base == window.spec_base(),
                    window.wf(),
                    i <= n,
                    members == window_members(base as int, bits),
                    forall|v: int|
                        self.unsent_changes@.contains(v) <==> (unsent.contains(v) || (
                        members.contains(v) && v < base + i && v <= last_written.0)),
                    self.reader_guid == old(self).reader_guid,
                    self.unicast_locators == old(self).unicast_locators,
                    self.multicast_locators == old(self).multicast_locators,
                    self.expects_inline_qos == old(self).expects_inline_qos,
                    self.is_reliable == old(self).is_reliable,
                    self.unacked_changes@ == before.unacked_changes.difference(
                        number_range(i64::MIN as int, base - 1),
                    ).difference(span.difference(members)),
                    self.highest_acked_sn.0 == base - 1,
                    self.nack_suppression_until == old(self).nack_suppression_until,
                    self.announced == old(self).announced,
                decreases n - i,
            {
                let number: i64 = (base as i128 + i as i128) as i64;
                if window.bit(i) {
                    assert(members.contains(number as int));
                    if number <= last_written.0 {
                        self.unsent_changes.insert(number);
                    }
                } else {
                    assert(!members.contains(number as int));
                }
                i += 1;
            }
            assert(self.unsent_changes@ =~= unsent.union(asked));
            self.nack_suppression_until = if now <= u64::MAX - suppression {
                now + suppression
            } else {
                u64::MAX
            };
        }
        self.last_acknack_count = count;
    }
}

/// The reader that a proxy is of.
pub open spec fn proxy_guid() -> spec_fn(ReaderProxy) -> GUID {
    |p: ReaderProxy| p@.reader_guid
}

/// What a proxy stands for.
pub open spec fn proxy_view() -> spec_fn(ReaderProxy) -> ReaderProxyView {
    |p: ReaderProxy| p@
}

/// No two proxies are of one reader.
pub open spec fn readers_differ(list: Seq<ReaderProxy>) -> bool {
    keys_differ(list, proxy_guid())
}

/// The least of the numbers below which the reliable readers of a list have
/// acknowledged every change; `None` where no reader of the list is reliable.
pub open spec fn least_acked(list: Seq<ReaderProxy>) -> Option<int>
    decreases list.len(),
{
    if list.len() == 0 {
        None
    } else {
        let before = least_acked(list.drop_last());
        let last = list.last()@;
        if !last.is_reliable {
            before
        } else {
            match before {
                Some(b) => if last.highest_acked_sn < b {
                    Some(last.highest_acked_sn)
                } else {
                    Some(b)
                },
                None => Some(last.highest_acked_sn),
            }
        }
    }
}

/// Whether one of the first `n` proxies of a list is of the reader `reader`.
pub open spec fn is_among(list: Seq<ReaderProxy>, n: int, reader: GUID) -> bool {
    exists|k: int| 0 <= k < n && (#[trigger] list[k])@.reader_guid == reader
}

/// Whether `first` is the first number that a heartbeat of the writer
/// `writer` announces: the least number of its changes in the log, and the
/// number that follows `last` where the log holds no change of it.
pub open spec fn is_first_announced(log: ChangeLog, writer: GUID, last: int, first: int) -> bool {
    if exists|i: int| 0 <= i < log.len() && (#[trigger] log[i]).1.writer_guid == writer {
        &&& exists|i: int|
            0 <= i < log.len() && (#[trigger] log[i]).1.writer_guid == writer
                && log[i].1.sequence_number.0 == first
        &&& forall|i: int|
            0 <= i < log.len() && (#[trigger] log[i]).1.writer_guid == writer ==> first
                <= log[i].1.sequence_number.0
    } else if last < i64::MAX {
        first == last + 1
    } else {
        first == last
    }
}

/// The log of a topic in a cache; empty where the cache has no such topic.
pub open spec fn log_of(cache: Map<Seq<char>, ChangeLog>, topic: Seq<char>) -> ChangeLog {
    if cache.dom().contains(topic) {
        cache[topic]
    } else {
        Seq::empty()
    }
}

/// The heartbeat that a writer sends to a reader.
pub open spec fn heartbeat_for(
    proxy: ReaderProxyView,
    writer_id: EntityId,
    first: SequenceNumber,
    last: SequenceNumber,
    count: i32,
) -> Heartbeat {
    Heartbeat {
        reader_id: proxy.reader_guid.entityId,
        writer_id,
        first_sn: first,
        last_sn: last,
        count,
        final_flag: proxy.unacked_changes == Set::<int>::empty(),
        liveliness_flag: false,
    }
}

/// The log of a writer's topic after the history policy has taken its toll
/// of a change just written: of the change's instance the newest stay, as
/// many as the depth says and one by default; or, where all are to be kept,
/// those go that every reliable reader has acknowledged.
pub open spec fn log_after_eviction(
    log: ChangeLog,
    writer: GUID,
    key_hash: u128,
    history: Option<History>,
    acknowledged_by_all: Option<int>,
) -> ChangeLog {
    match history {
        None => log_keep_newest(log, writer, key_hash, 1),
        Some(History::KeepLast { depth }) => log_keep_newest(
            log,
            writer,
            key_hash,
            if depth > 0 {
                depth as nat
            } else {
                0nat
            },
        ),
        Some(History::KeepAll) => match acknowledged_by_all {
            Some(bound) => log_without_acknowledged(log, writer, bound),
            None => log,
        },
    }
}

/// The sending side of one topic.
pub struct Writer {
    guid: GUID,
    topic_name: String,
    keyed: bool,
    history: Option<History>,
    last_change_sequence_number: SequenceNumber,
    heartbeat_count: i32,
    heartbeat_period_nanos: u64,
    nack_suppression_nanos: u64,
    readers: Vec<ReaderProxy>,
}

/// What a `Writer` stands for.
pub struct WriterView {
    pub guid: GUID,
    pub topic_name: Seq<char>,
    /// Whether the samples of the topic belong to instances.
    pub keyed: bool,
    pub history: Option<History>,
    /// The number of the last change that the writer wrote; zero before the
    /// first.
    pub last_change_sequence_number: int,
    pub heartbeat_count: i32,
    pub heartbeat_period_nanos: u64,
    pub nack_suppression_nanos: u64,
    /// What the writer knows of each matched reader.
    pub readers: Map<GUID, ReaderProxyView>,
    /// The least of the numbers below which the reliable readers have
    /// acknowledged every change, if a reader is reliable.
    pub acknowledged_by_all: Option<int>,
}

impl View for Writer {
    type V = WriterView;

    closed spec fn view(&self) -> WriterView {
        WriterView {
            guid: self.guid,
            topic_name: self.topic_name@,
            keyed: self.keyed,
            history: self.history,
            last_change_sequence_number: self.last_change_sequence_number.0 as int,
            heartbeat_count: self.heartbeat_count,
            heartbeat_period_nanos: self.heartbeat_period_nanos,
            nack_suppression_nanos: self.nack_suppression_nanos,
            readers: list_map(self.readers@, proxy_guid(), proxy_view()),
            acknowledged_by_all: least_acked(self.readers@),
        }
    }
}

/// Where no two proxies are of one reader, each proxy is the last of its
/// reader, and the map holds it under its reader.
proof fn lemma_unique_is_last(list: Seq<ReaderProxy>, i: int)
    requires
        readers_differ(list),
        0 <= i < list.len(),
    ensures
        is_last_match(list, proxy_guid(), i),
        list_map(list, proxy_guid(), proxy_view()).dom().contains(list[i]@.reader_guid),
        list_map(list, proxy_guid(), proxy_view())[list[i]@.reader_guid] == list[i]@,
{
    assert forall|j: int| i < j < list.len() implies proxy_guid()(#[trigger] list[j])
        != proxy_guid()(list[i]) by {
        assert(proxy_guid()(list[i]) != proxy_guid()(list[j]));
    }
    lemma_last_match(list, proxy_guid(), proxy_view(), i);
}

/// What `least_acked` finds: the least of the numbers that the reliable
/// readers have acknowledged up to, which is that of one of them.
proof fn lemma_least_acked(list: Seq<ReaderProxy>)
    ensures
        match least_acked(list) {
            Some(b) => {
                &&& forall|i: int|
                    0 <= i < list.len() && (#[trigger] list[i])@.is_reliable ==> b
                        <= list[i]@.highest_acked_sn
                &&& exists|i: int|
                    0 <= i < list.len() && (#[trigger] list[i])@.is_reliable
                        && list[i]@.highest_acked_sn == b
            },
            None => forall|i: int| 0 <= i < list.len() ==> !(#[trigger] list[i])@.is_reliable,
        },
    decreases list.len(),
{
    if list.len() > 0 {
        let head = list.drop_last();
        lemma_least_acked(head);
        let n = list.len() - 1;
        match least_acked(list) {
            Some(b) => {
                assert forall|i: int|
                    0 <= i < list.len() && (#[trigger] list[i])@.is_reliable implies b
                    <= list[i]@.highest_acked_sn by {
                    if i < n {
                        assert(head[i] == list[i]);
                    }
                }
                if list[n]@.is_reliable && list[n]@.highest_acked_sn == b {
                } else {
                    let w = choose|w: int|
                        0 <= w < head.len() && (#[trigger] head[w])@.is_reliable
                            && head[w]@.highest_acked_sn == b;
                    assert(list[w] == head[w]);
                }
            },
            None => {
                assert forall|i: int| 0 <= i < list.len() implies !(#[trigger] list[i])@.is_reliable by {
                    if i < n {
                        assert(head[i] == list[i]);
                    }
                }
            },
        }
    }
}

impl Writer {
    /// No two proxies of the writer are of one reader.
    pub closed spec fn wf(&self) -> bool {
        readers_differ(self.readers@)
    }

    /// What `acknowledged_by_all` says: every reliable reader has
    /// acknowledged every change below it, one of them no more than that,
    /// and there is none where no reader is reliable.
    pub proof fn lemma_acknowledged_by_all(&self)
        requires
            self.wf(),
        ensures
            match self@.acknowledged_by_all {
                Some(b) => {
                    &&& forall|g: GUID|
                        self@.readers.dom().contains(g) && (#[trigger] self@.readers[g]).is_reliable
                            ==> b <= self@.readers[g].highest_acked_sn
                    &&& exists|g: GUID|
                        self@.readers.dom().contains(g) && (#[trigger] self@.readers[g]).is_reliable
                            && self@.readers[g].highest_acked_sn == b
                },
                None => forall|g: GUID|
                    self@.readers.dom().contains(g) ==> !(#[trigger] self@.readers[g]).is_reliable,
            },
    {
        let list = self.readers@;
        lemma_least_acked(list);
        assert forall|g: GUID| self@.readers.dom().contains(g) implies exists|i: int|
            0 <= i < list.len() && #[trigger] list[i]@ == self@.readers[g] by {
            crate::structure::keyed_list::lemma_key_has_entry(list, proxy_guid(), proxy_view(), g);
            let i = choose|i: int|
                is_last_match(list, proxy_guid(), i) && proxy_guid()(#[trigger] list[i]) == g;
            lemma_last_match(list, proxy_guid(), proxy_view(), i);
        }
        match self@.acknowledged_by_all {
            Some(b) => {
                let w = choose|w: int|
                    0 <= w < list.len() && (#[trigger] list[w])@.is_reliable
                        && list[w]@.highest_acked_sn == b;
                lemma_unique_is_last(list, w);
                assert(self@.readers[list[w]@.reader_guid].is_reliable);
                assert forall|g: GUID|
                    self@.readers.dom().contains(g) && (#[trigger] self@.readers[g]).is_reliable implies b
                    <= self@.readers[g].highest_acked_sn by {
                    let i = choose|i: int| 0 <= i < list.len() && #[trigger] list[i]@ == self@.readers[g];
                    assert(list[i]@.is_reliable);
                }
            },
            None => {
                assert forall|g: GUID| self@.readers.dom().contains(g) implies !(#[trigger] self@.readers[g]).is_reliable by {
                    let i = choose|i: int| 0 <= i < list.len() && #[trigger] list[i]@ == self@.readers[g];
                    assert(!list[i]@.is_reliable);
                }
            },
        }
    }

    /// A writer of the topic `topic_name` without matched readers, which
    /// keeps its changes by the history policy of `qos`.
    pub fn new(guid: GUID, topic_name: String, qos: &QosPolicies, keyed: bool) -> (w: Writer)
        ensures
            w.wf(),
            w@ == (WriterView {
                guid,
                topic_name: topic_name@,
                keyed,
                history: qos.history,
                last_change_sequence_number: 0,
                heartbeat_count: 0,
                heartbeat_period_nanos: DEFAULT_HEARTBEAT_PERIOD_NANOS,
                nack_suppression_nanos: DEFAULT_NACK_SUPPRESSION_NANOS,
                readers: Map::<GUID, ReaderProxyView>::empty(),
                acknowledged_by_all: None,
            }),
    {
        Writer {
            guid,
            topic_name,
            keyed,
            history: qos.history,
            last_change_sequence_number: SequenceNumber(0),
            heartbeat_count: 0,
            heartbeat_period_nanos: DEFAULT_HEARTBEAT_PERIOD_NANOS,
            nack_suppression_nanos: DEFAULT_NACK_SUPPRESSION_NANOS,
            readers: Vec::new(),
        }
    }

    /// The writer's identifier.
    pub fn get_guid(&self) -> (g: GUID)
        ensures
            g == self@.guid,
    {
        self.guid
    }

    /// The number of the last change that the writer wrote.
    pub fn last_change_sequence_number(&self) -> (n: SequenceNumber)
        ensures
            n.0 == self@.last_change_sequence_number,
    {
        self.last_change_sequence_number
    }

    /// The time between two heartbeats, in nanoseconds.
    pub fn heartbeat_period_nanos(&self) -> (n: u64)
        ensures
            n == self@.heartbeat_period_nanos,
    {
        self.heartbeat_period_nanos
    }

    /// Where the proxy of the reader stands, if the reader is matched.
    fn find_reader(&self, guid: &GUID) -> (r: Option<usize>)
        requires
            self.wf(),
        ensures
            match r {
                Some(i) => {
                    &&& i < self.readers@.len()
                    &&& is_last_match(self.readers@, proxy_guid(), i as int)
                    &&& self.readers@[i as int]@.reader_guid == *guid
                    &&& self@.readers.dom().contains(*guid)
                    &&& self@.readers[*guid] == self.readers@[i as int]@
                },
                None => !self@.readers.dom().contains(*guid) && no_match(
                    self.readers@,
                    proxy_guid(),
                    *guid,
                ),
            },
    {
        let n = self.readers.len();
        let mut i: usize = 0;
        while i < n
            invariant
                self.wf(),
                n == self.readers@.len(),
                i <= n,
                forall|j: int| 0 <= j < i ==> proxy_guid()(#[trigger] self.readers@[j]) != *guid,
            decreases n - i,
        {
            if self.readers[i].reader_guid == *guid {
                proof {
                    lemma_unique_is_last(self.readers@, i as int);
                }
                return Some(i);
            }
            i += 1;
        }
        proof {
            lemma_no_match(self.readers@, proxy_guid(), proxy_view(), *guid);
        }
        None
    }

    /// What the writer knows of the reader, if the reader is matched.
    pub fn matched_reader_lookup(&self, guid: GUID) -> (r: Option<&ReaderProxy>)
        requires
            self.wf(),
        ensures
            match r {
                Some(proxy) => self@.readers.dom().contains(guid) && self@.readers[guid] == proxy@,
                None => !self@.readers.dom().contains(guid),
            },
    {
        match self.find_reader(&guid) {
            Some(i) => Some(&self.readers[i]),
            None => None,
        }
    }

    /// Matches the reader, and says whether it did: a reader that is
    /// matched stays as the writer knows it.
    pub fn matched_reader_add(
        &mut self,
        reader_guid: GUID,
        expects_inline_qos: bool,
        is_reliable: bool,
        unicast_locator_list: Vec<Locator>,
        multicast_locator_list: Vec<Locator>,
    ) -> (added: bool)
        requires
            old(self).wf(),
        ensures
            final(self).wf(),
            added == !old(self)@.readers.dom().contains(reader_guid),
            !added ==> final(self)@ == old(self)@,
            added ==> final(self)@.readers == old(self)@.readers.insert(
                reader_guid,
                ReaderProxyView {
                    reader_guid,
                    unicast_locators: unicast_locator_list@,
                    multicast_locators: multicast_locator_list@,
                    expects_inline_qos,
                    is_reliable,
                    unacked_changes: Set::<int>::empty(),
                    unsent_changes: Set::<int>::empty(),
                    highest_acked_sn: 0,
                    nack_suppression_until: 0,
                    last_acknack_count: 0,
                    announced: false,
                },
            ),
            final(self)@.guid == old(self)@.guid,
            final(self)@.topic_name == old(self)@.topic_name,
            final(self)@.keyed == old(self)@.keyed,
            final(self)@.history == old(self)@.history,
            final(self)@.last_change_sequence_number == old(self)@.last_change_sequence_number,
            final(self)@.heartbeat_count == old(self)@.heartbeat_count,
            final(self)@.heartbeat_period_nanos == old(self)@.heartbeat_period_nanos,
            final(self)@.nack_suppression_nanos == old(self)@.nack_suppression_nanos,
    {
        match self.find_reader(&reader_guid) {
            Some(_) => false,
            None => {
                let ghost before = self.readers@;
                let proxy = ReaderProxy::new(
                    reader_guid,
                    expects_inline_qos,
                    is_reliable,
                    unicast_locator_list,
                    multicast_locator_list,
                );
                self.readers.push(proxy);
                proof {
                    let after = self.readers@;
                    assert(after.drop_last() =~= before);
                    assert forall|i: int, j: int| 0 <= i < j < after.len() implies proxy_guid()(
                        after[i],
                    ) != proxy_guid()(after[j]) by {
                        assert(after[i] == before[i]);
                        if j < before.len() {
                            assert(after[j] == before[j]);
                        } else {
                            assert(proxy_guid()(before[i]) != reader_guid);
                        }
                    }
                }
                true
            },
        }
    }

    /// Takes out the proxies of one reader, or of every reader of a
    /// participant, and says how many they were.
    fn remove_readers(&mut self, guid: GUID, whole_participant: bool) -> (removed: usize)
        requires
            old(self).wf(),
        ensures
            final(self).wf(),
            final(self)@.readers == old(self)@.readers.remove_keys(
                if whole_participant {
                    endpoints_of(guid.guidPrefix)
                } else {
                    set![guid]
                },
            ),
            final(self)@.guid == old(self)@.guid,
            final(self)@.topic_name == old(self)@.topic_name,
            final(self)@.keyed == old(self)@.keyed,
            final(self)@.history == old(self)@.history,
            final(self)@.last_change_sequence_number == old(self)@.last_change_sequence_number,
            final(self)@.heartbeat_count == old(self)@.heartbeat_count,
            final(self)@.heartbeat_period_nanos == old(self)@.heartbeat_period_nanos,
            final(self)@.nack_suppression_nanos == old(self)@.nack_suppression_nanos,
            removed == old(self).readers@.len() - final(self).readers@.len(),
    {
        let ghost gone = if whole_participant {
            endpoints_of(guid.guidPrefix)
        } else {
            set![guid]
        };
        let ghost list = self.readers@;
        let ghost mut j: int = 0;
        let total = self.readers.len();
        let mut i: usize = 0;
        let mut removed: usize = 0;
        proof {
            assert(list.take(0) =~= Seq::<ReaderProxy>::empty());
            assert(list.skip(0) =~= list);
            assert(self.readers@ =~= without_keys(list.take(0), proxy_guid(), gone) + list.skip(0));
        }
        while i < self.readers.len()
            invariant
                0 <= j <= list.len(),
                total == list.len(),
                readers_differ(list),
                i == without_keys(list.take(j), proxy_guid(), gone).len(),
                removed == j - i,
                self.readers@ == without_keys(list.take(j), proxy_guid(), gone) + list.skip(j),
                self.guid == old(self).guid,
                self.topic_name == old(self).topic_name,
                self.keyed == old(self).keyed,
                self.history == old(self).history,
                self.last_change_sequence_number == old(self).last_change_sequence_number,
                self.heartbeat_count == old(self).heartbeat_count,
                self.heartbeat_period_nanos == old(self).heartbeat_period_nanos,
                self.nack_suppression_nanos == old(self).nack_suppression_nanos,
                gone == if whole_participant {
                    endpoints_of(guid.guidPrefix)
                } else {
                    set![guid]
                },
            decreases list.len() - j,
        {
            let ghost kept = without_keys(list.take(j), proxy_guid(), gone);
            let ghost current = self.readers@;
            proof {
                assert(list.skip(j).len() > 0);
                assert(self.readers@[i as int] == list.skip(j)[0]);
                let upto = list.take(j + 1);
                assert(upto.drop_last() =~= list.take(j));
                assert(upto.last() == list[j]);
                assert(list.skip(j + 1) =~= list.skip(j).skip(1));
            }
            let reader = self.readers[i].reader_guid;
            let goes = if whole_participant {
                reader.guidPrefix == guid.guidPrefix
            } else {
                reader == guid
            };
            assert(goes == gone.contains(proxy_guid()(list[j])));
            if goes {
                self.readers.remove(i);
                removed += 1;
                proof {
                    assert(self.readers@ =~= kept + list.skip(j + 1));
                }
            } else {
                i += 1;
                proof {
                    assert(self.readers@ =~= kept.push(list[j]) + list.skip(j + 1));
                }
            }
            proof {
                j = j + 1;
            }
        }
        proof {
            assert(list.skip(j).len() == 0);
            assert(list.take(j) =~= list);
            assert(self.readers@ =~= without_keys(list, proxy_guid(), gone));
            lemma_without_keys(list, proxy_guid(), proxy_view(), gone);
            lemma_without_keys_part(list, proxy_guid(), gone);
        }
        removed
    }

    /// Unmatches the reader, and says whether it was matched.
    pub fn matched_reader_remove(&mut self, guid: GUID) -> (removed: bool)
        requires
            old(self).wf(),
        ensures
            final(self).wf(),
            removed == old(self)@.readers.dom().contains(guid),
            final(self)@.readers == old(self)@.readers.remove(guid),
            final(self)@.guid == old(self)@.guid,
            final(self)@.topic_name == old(self)@.topic_name,
            final(self)@.keyed == old(self)@.keyed,
            final(self)@.history == old(self)@.history,
            final(self)@.last_change_sequence_number == old(self)@.last_change_sequence_number,
            final(self)@.heartbeat_count == old(self)@.heartbeat_count,
            final(self)@.heartbeat_period_nanos == old(self)@.heartbeat_period_nanos,
            final(self)@.nack_suppression_nanos == old(self)@.nack_suppression_nanos,
    {
        let found = self.find_reader(&guid);
        self.remove_readers(guid, false);
        proof {
            assert(old(self)@.readers.remove_keys(set![guid]) =~= old(self)@.readers.remove(guid));
        }
        found.is_some()
    }

    /// Unmatches every reader of the participant with the prefix `prefix`,
    /// which is lost.
    pub fn remove_readers_of(&mut self, prefix: GuidPrefix)
        requires
            old(self).wf(),
        ensures
            final(self).wf(),
            final(self)@.readers == old(self)@.readers.remove_keys(endpoints_of(prefix)),
            final(self)@.guid == old(self)@.guid,
            final(self)@.topic_name == old(self)@.topic_name,
            final(self)@.keyed == old(self)@.keyed,
            final(self)@.history == old(self)@.history,
            final(self)@.last_change_sequence_number == old(self)@.last_change_sequence_number,
            final(self)@.heartbeat_count == old(self)@.heartbeat_count,
            final(self)@.heartbeat_period_nanos == old(self)@.heartbeat_period_nanos,
            final(self)@.nack_suppression_nanos == old(self)@.nack_suppression_nanos,
    {
        self.remove_readers(GUID { guidPrefix: prefix, entityId: EntityId::unknown() }, true);
    }
}

/// Lists whose proxies agree, place by place, on which readers are reliable
/// and on what they have acknowledged have the same least.
proof fn lemma_least_acked_same(a: Seq<ReaderProxy>, b: Seq<ReaderProxy>)
    requires
        a.len() == b.len(),
        forall|i: int|
            0 <= i < a.len() ==> (#[trigger] a[i])@.is_reliable == b[i]@.is_reliable
                && a[i]@.highest_acked_sn == b[i]@.highest_acked_sn,
    ensures
        least_acked(a) == least_acked(b),
    decreases a.len(),
{
    if a.len() > 0 {
        let ha = a.drop_last();
        let hb = b.drop_last();
        assert forall|i: int| 0 <= i < ha.len() implies (#[trigger] ha[i])@.is_reliable
            == hb[i]@.is_reliable && ha[i]@.highest_acked_sn == hb[i]@.highest_acked_sn by {
            assert(ha[i] == a[i] && hb[i] == b[i]);
        }
        lemma_least_acked_same(ha, hb);
        assert(a[a.len() - 1]@.is_reliable == b[b.len() - 1]@.is_reliable);
    }
}

/// The change that a writer makes of what the application hands it.
pub open spec fn change_written(
    writer: GUID,
    sn: int,
    kind: ChangeKind,
    data_value: Option<SerializedPayloadView>,
    instance_key_hash: u128,
) -> CacheChangeView {
    CacheChangeView {
        kind,
        writer_guid: writer,
        sequence_number: SequenceNumber(sn as i64),
        data_value,
        instance_key_hash,
    }
}

/// The gap that stands for one change that is to be had no more.
pub open spec fn gap_for_one(gap: Gap, reader_id: EntityId, writer_id: EntityId, sn: int) -> bool {
    &&& gap.reader_id == reader_id
    &&& gap.writer_id == writer_id
    &&& gap.gap_start.0 == sn
    &&& gap.gap_list.wf()
    &&& gap.gap_list.spec_bits().len() == 0
    &&& gap.gap_list.spec_base() == if sn < i64::MAX {
        sn + 1
    } else {
        sn
    }
}

impl Writer {
    /// The least of the numbers below which the reliable readers have
    /// acknowledged every change, if a reader is reliable.
    pub fn acknowledged_by_all(&self) -> (r: Option<SequenceNumber>)
        ensures
            match r {
                Some(sn) => self@.acknowledged_by_all == Some(sn.0 as int),
                None => self@.acknowledged_by_all is None,
            },
    {
        let n = self.readers.len();
        let mut least: Option<SequenceNumber> = None;
        let mut i: usize = 0;
        assert(self.readers@.take(0) =~= Seq::<ReaderProxy>::empty());
        while i < n
            invariant
                n == self.readers@.len(),
                i <= n,
                match least {
                    Some(sn) => least_acked(self.readers@.take(i as int)) == Some(sn.0 as int),
                    None => least_acked(self.readers@.take(i as int)) is None,
                },
            decreases n - i,
        {
            proof {
                let upto = self.readers@.take(i as int + 1);
                assert(upto.drop_last() =~= self.readers@.take(i as int));
                assert(upto.last() == self.readers@[i as int]);
            }
            if self.readers[i].is_reliable {
                let acked = self.readers[i].highest_acked_sn;
                least = match least {
                    Some(sn) => if acked.0 < sn.0 {
                        Some(acked)
                    } else {
                        Some(sn)
                    },
                    None => Some(acked),
                };
            }
            i += 1;
        }
        assert(self.readers@.take(n as int) =~= self.readers@);
        least
    }

    /// Writes a change: gives it the next sequence number, adds it to the
    /// cache under the writer's topic as having come at `now`, and notes for
    /// every matched reader that it is to be sent, and for every reliable
    /// one that it is to be acknowledged. The history policy then evicts
    /// what it keeps no longer.
    ///
    /// Fails with `SequenceExhausted` where the writer has given out its
    /// last number, and as the cache fails; nothing is noted then.
    pub fn write(
        &mut self,
        dds_cache: &mut DDSCache,
        now: u64,
        kind: ChangeKind,
        data_value: Option<SerializedPayload>,
        instance_key_hash: u128,
    ) -> (r: Result<SequenceNumber, WriteError>)
        requires
            old(self).wf(),
            old(dds_cache).wf(),
        ensures
            final(self).wf(),
            final(dds_cache).wf(),
            ({
                let before = old(self)@;
                let sn = before.last_change_sequence_number + 1;
                let payload = match data_value {
                    Some(p) => Some(p@),
                    None => None,
                };
                let change = change_written(before.guid, sn, kind, payload, instance_key_hash);
                let topic = before.topic_name;
                if before.last_change_sequence_number >= i64::MAX {
                    &&& r == Err::<SequenceNumber, WriteError>(WriteError::SequenceExhausted)
                    &&& final(self)@ == before
                    &&& final(dds_cache)@ == old(dds_cache)@
                } else if !old(dds_cache)@.dom().contains(topic) {
                    &&& r == Err::<SequenceNumber, WriteError>(
                        WriteError::Cache(CacheError::UnknownTopic),
                    )
                    &&& final(self)@ == before
                    &&& final(dds_cache)@ == old(dds_cache)@
                } else {
                    let log = old(dds_cache)@[topic];
                    if holds_identity(log, change.identity()) {
                        &&& r == Err::<SequenceNumber, WriteError>(
                            WriteError::Cache(CacheError::DuplicateChange),
                        )
                        &&& final(self)@ == before
                        &&& final(dds_cache)@ == old(dds_cache)@
                    } else if holds_instant(log, now) {
                        &&& r == Err::<SequenceNumber, WriteError>(
                            WriteError::Cache(CacheError::InstantTaken),
                        )
                        &&& final(self)@ == before
                        &&& final(dds_cache)@ == old(dds_cache)@
                    } else {
                        &&& r == Ok::<SequenceNumber, WriteError>(SequenceNumber(sn as i64))
                        &&& final(self)@ == (WriterView {
                            last_change_sequence_number: sn,
                            readers: before.readers.map_values(
                                |p: ReaderProxyView| p.with_change(sn),
                            ),
                            ..before
                        })
                        &&& final(dds_cache)@ == old(dds_cache)@.insert(
                            topic,
                            log_after_eviction(
                                log_after_add(log, now, change),
                                before.guid,
                                instance_key_hash,
                                before.history,
                                before.acknowledged_by_all,
                            ),
                        )
                    }
                }
            }),
    {
        if self.last_change_sequence_number.0 >= i64::MAX {
            return Err(WriteError::SequenceExhausted);
        }
        let sn = SequenceNumber(self.last_change_sequence_number.0 + 1);
        let change = CacheChange::new(kind, self.guid, sn, data_value, instance_key_hash);
        let ghost cache_before = dds_cache@;
        match dds_cache.add_change(&self.topic_name, now, change) {
            Ok(()) => {},
            Err(e) => {
                proof {
                    assert(dds_cache@ =~= cache_before);
                }
                return Err(WriteError::Cache(e));
            },
        }
        let ghost cache_added = dds_cache@;
        let bound = self.acknowledged_by_all();
        match self.history {
            None => {
                dds_cache.keep_newest_of_instance(&self.topic_name, self.guid, instance_key_hash, 1);
            },
            Some(History::KeepLast { depth }) => {
                let depth: usize = if depth > 0 {
                    depth as usize
                } else {
                    0
                };
                dds_cache.keep_newest_of_instance(
                    &self.topic_name,
                    self.guid,
                    instance_key_hash,
                    depth,
                );
            },
            Some(History::KeepAll) => {
                match bound {
                    Some(bound) => {
                        dds_cache.remove_acknowledged(&self.topic_name, self.guid, bound);
                    },
                    None => {
                        assert(dds_cache@ =~= cache_added.insert(
                            self.topic_name@,
                            cache_added[self.topic_name@],
                        ));
                    },
                }
            },
        }
        proof {
            assert(dds_cache@ =~= cache_before.insert(
                self.topic_name@,
                log_after_eviction(
                    cache_added[self.topic_name@],
                    self.guid,
                    instance_key_hash,
                    self.history,
                    least_acked(self.readers@),
                ),
            ));
        }
        let ghost list = self.readers@;
        let n = self.readers.len();
        let mut i: usize = 0;
        while i < n
            invariant
                n == list.len(),
                self.readers@.len() == n,
                i <= n,
                forall|k: int| 0 <= k < i ==> (#[trigger] self.readers@[k])@ == list[k]@.with_change(
                    sn.0 as int,
                ),
                forall|k: int| i <= k < n ==> #[trigger] self.readers@[k] == list[k],
                self.guid == old(self).guid,
                self.topic_name == old(self).topic_name,
                self.keyed == old(self).keyed,
                self.history == old(self).history,
                self.last_change_sequence_number == old(self).last_change_sequence_number,
                self.heartbeat_count == old(self).heartbeat_count,
                self.heartbeat_period_nanos == old(self).heartbeat_period_nanos,
                self.nack_suppression_nanos == old(self).nack_suppression_nanos,
            decreases n - i,
        {
            let ghost current = self.readers@;
            self.readers[i].add_change(sn);
            proof {
                assert forall|k: int| 0 <= k < i + 1 implies (#[trigger] self.readers@[k])@
                    == list[k]@.with_change(sn.0 as int) by {
                    if k < i {
                        assert(self.readers@[k] == current[k]);
                    }
                }
                assert forall|k: int| i + 1 <= k < n implies #[trigger] self.readers@[k]
                    == list[k] by {
                    assert(self.readers@[k] == current[k]);
                }
            }
            i += 1;
        }
        self.last_change_sequence_number = sn;
        proof {
            let after = self.readers@;
            let change = |p: ReaderProxyView| p.with_change(sn.0 as int);
            assert forall|k: int| 0 <= k < list.len() implies proxy_guid()(#[trigger] after[k])
                == proxy_guid()(list[k]) && proxy_view()(after[k]) == change(
                proxy_view()(list[k]),
            ) by {
                assert(after[k]@ == list[k]@.with_change(sn.0 as int));
            }
            lemma_mapped(list, after, proxy_guid(), proxy_view(), change);
            assert forall|a: int, b: int| 0 <= a < b < after.len() implies proxy_guid()(after[a])
                != proxy_guid()(after[b]) by {
                assert(proxy_guid()(after[a]) == proxy_guid()(list[a]));
                assert(proxy_guid()(after[b]) == proxy_guid()(list[b]));
            }
            assert forall|k: int| 0 <= k < after.len() implies (#[trigger] after[k])@.is_reliable
                == list[k]@.is_reliable && after[k]@.highest_acked_sn
                == list[k]@.highest_acked_sn by {
                assert(after[k]@ == list[k]@.with_change(sn.0 as int));
            }
            lemma_least_acked_same(after, list);
        }
        Ok(sn)
    }

    /// Hands out the next change that is to be sent to the reader: the one
    /// with the least number. It is to be sent no more after that, unless
    /// the reader asks for it again.
    ///
    /// Where the cache holds the change no more, a gap is handed out in its
    /// place.
    pub fn next_send(&mut self, reader_guid: GUID, dds_cache: &DDSCache) -> (step: SendStep)
        requires
            old(self).wf(),
            dds_cache.wf(),
        ensures
            final(self).wf(),
            ({
                let before = old(self)@;
                if !before.readers.dom().contains(reader_guid)
                    || before.readers[reader_guid].unsent_changes == Set::<int>::empty() {
                    &&& step is Nothing
                    &&& final(self)@ == before
                } else {
                    let proxy = before.readers[reader_guid];
                    let sn = crate::structure::sequence_number::least_of(proxy.unsent_changes);
                    &&& final(self)@ == (WriterView {
                        readers: before.readers.insert(reader_guid, proxy.after_send(sn)),
                        ..before
                    })
                    &&& match step {
                        SendStep::Nothing => false,
                        SendStep::Data(data) => {
                            &&& dds_cache@.dom().contains(before.topic_name)
                            &&& exists|i: int|
                                0 <= i < dds_cache@[before.topic_name].len() && (
                                #[trigger] dds_cache@[before.topic_name][i]).1.identity() == (
                                    before.guid,
                                    SequenceNumber(sn as i64),
                                ) && data@ == data_of_change(
                                    dds_cache@[before.topic_name][i].1,
                                    reader_guid.entityId,
                                    before.keyed,
                                )
                        },
                        SendStep::Gap(gap) => {
                            &&& !(dds_cache@.dom().contains(before.topic_name) && holds_identity(
                                dds_cache@[before.topic_name],
                                (before.guid, SequenceNumber(sn as i64)),
                            ))
                            &&& gap_for_one(gap, reader_guid.entityId, before.guid.entityId, sn)
                        },
                    }
                }
            }),
    {
        let i = match self.find_reader(&reader_guid) {
            Some(i) => i,
            None => {
                return SendStep::Nothing;
            },
        };
        let sn = match self.readers[i].unsent_changes.min() {
            Some(sn) => sn,
            None => {
                return SendStep::Nothing;
            },
        };
        proof {
            let unsent = self.readers@[i as int]@.unsent_changes;
            assert(unsent.contains(sn as int));
            assert(unsent != Set::<int>::empty());
            let l = crate::structure::sequence_number::least_of(unsent);
            assert(unsent.contains(l) && forall|w: int| unsent.contains(w) ==> l <= w);
            assert(l == sn);
        }
        let ghost list = self.readers@;
        self.readers[i].unsent_changes.remove(sn);
        proof {
            let after = self.readers@;
            assert(after =~= list.update(i as int, after[i as int]));
            lemma_update(list, proxy_guid(), proxy_view(), i as int, after[i as int]);
            assert forall|a: int, b: int| 0 <= a < b < after.len() implies proxy_guid()(after[a])
                != proxy_guid()(after[b]) by {
                assert(proxy_guid()(after[a]) == proxy_guid()(list[a]));
                assert(proxy_guid()(after[b]) == proxy_guid()(list[b]));
            }
            assert forall|k: int| 0 <= k < after.len() implies (#[trigger] after[k])@.is_reliable
                == list[k]@.is_reliable && after[k]@.highest_acked_sn
                == list[k]@.highest_acked_sn by {
                if k != i {
                    assert(after[k] == list[k]);
                }
            }
            lemma_least_acked_same(after, list);
        }
        let reader_id = reader_guid.entityId;
        match dds_cache.change_of(&self.topic_name, self.guid, SequenceNumber(sn)) {
            Some(change) => {
                let inline_qos = if !matches!(change.kind, ChangeKind::ALIVE) || self.keyed {
                    let status_info = match change.kind {
                        ChangeKind::ALIVE => None,
                        ChangeKind::NOT_ALIVE_DISPOSED => Some(
                            StatusInfo::empty().with(StatusInfoEnum::Disposed),
                        ),
                        ChangeKind::NOT_ALIVE_UNREGISTERED => Some(
                            StatusInfo::empty().with(StatusInfoEnum::Unregistered),
                        ),
                    };
                    let key_hash = KeyHash::new(change.instance_key_hash);
                    proof {
                        KeyHash::lemma_value(
                            key_hash,
                            KeyHash::of_value(change.instance_key_hash),
                            change.instance_key_hash,
                        );
                        match status_info {
                            Some(status) => {
                                let bit: u8 = if change.kind == ChangeKind::NOT_ALIVE_DISPOSED {
                                    StatusInfoEnum::Disposed.spec_bits()
                                } else {
                                    StatusInfoEnum::Unregistered.spec_bits()
                                };
                                let octets = seq![0u8, 0u8, 0u8, bit];
                                assert(0u8 | 1u8 == 1u8) by (bit_vector);
                                assert(0u8 | 2u8 == 2u8) by (bit_vector);
                                assert(status.spec_cdr_bytes() =~= octets);
                                StatusInfo::lemma_octets(
                                    status,
                                    StatusInfo::of_octets(octets),
                                    octets,
                                );
                            },
                            None => {},
                        }
                    }
                    Some(InlineQos { status_info, key_hash: Some(key_hash) })
                } else {
                    None
                };
                let serialized_payload = match &change.data_value {
                    Some(p) => Some(p.clone()),
                    None => None,
                };
                SendStep::Data(
                    Data {
                        reader_id,
                        writer_id: change.writer_guid.entityId,
                        writer_sn: change.sequence_number,
                        inline_qos,
                        payload_is_key: change.kind != ChangeKind::ALIVE,
                        serialized_payload,
                    },
                )
            },
            None => {
                let base = if sn < i64::MAX {
                    sn + 1
                } else {
                    sn
                };
                SendStep::Gap(
                    Gap {
                        reader_id,
                        writer_id: self.guid.entityId,
                        gap_start: SequenceNumber(sn),
                        gap_list: SequenceNumberSet::new(SequenceNumber(base)),
                    },
                )
            },
        }
    }

    /// Makes the heartbeats of one round: one for every reliable reader,
    /// all with the next count, announcing the changes from the oldest that
    /// the cache holds of the writer to the last that the writer wrote. A
    /// heartbeat asks for no answer where the reader has acknowledged
    /// everything.
    pub fn heartbeat(&mut self, dds_cache: &DDSCache) -> (out: Vec<(GUID, Heartbeat)>)
        requires
            old(self).wf(),
            dds_cache.wf(),
        ensures
            final(self).wf(),
            ({
                let before = old(self)@;
                let count = next_count(before.heartbeat_count);
                &&& final(self)@ == (WriterView {
                    heartbeat_count: count,
                    readers: before.readers.map_values(
                        |p: ReaderProxyView|
                            if p.is_reliable {
                                p.after_heartbeat()
                            } else {
                                p
                            },
                    ),
                    ..before
                })
                &&& forall|k: int|
                    0 <= k < out@.len() ==> {
                        &&& before.readers.dom().contains((#[trigger] out@[k]).0)
                        &&& before.readers[out@[k].0].is_reliable
                        &&& out@[k].1.reader_id == out@[k].0.entityId
                        &&& out@[k].1.writer_id == before.guid.entityId
                        &&& out@[k].1.last_sn.0 == before.last_change_sequence_number
                        &&& out@[k].1.count == count
                        &&& out@[k].1.final_flag == (before.readers[out@[k].0].unacked_changes
                            == Set::<int>::empty())
                        &&& !out@[k].1.liveliness_flag
                        &&& is_first_announced(
                            log_of(dds_cache@, before.topic_name),
                            before.guid,
                            before.last_change_sequence_number,
                            out@[k].1.first_sn.0 as int,
                        )
                    }
                &&& forall|g: GUID|
                    before.readers.dom().contains(g) && (#[trigger] before.readers[g]).is_reliable
                        ==> exists|k: int| 0 <= k < out@.len() && (#[trigger] out@[k]).0 == g
                &&& forall|j: int, k: int| 0 <= j < k < out@.len() ==> out@[j].0 != out@[k].0
            }),
    {
        let count = if self.heartbeat_count < i32::MAX {
            self.heartbeat_count + 1
        } else {
            i32::MIN
        };
        let last = self.last_change_sequence_number;
        let first = match dds_cache.lowest_sequence_number_of(&self.topic_name, self.guid) {
            Some(sn) => sn,
            None => if last.0 < i64::MAX {
                SequenceNumber(last.0 + 1)
            } else {
                last
            },
        };
        let ghost list = self.readers@;
        let ghost before = self@;
        let ghost log = log_of(dds_cache@, before.topic_name);
        assert(is_first_announced(log, self.guid, last.0 as int, first.0 as int));
        let mut out: Vec<(GUID, Heartbeat)> = Vec::new();
        let n = self.readers.len();
        let mut i: usize = 0;
        while i < n
            invariant
                n == list.len(),
                self.readers@.len() == n,
                i <= n,
                readers_differ(list),
                is_first_announced(log, before.guid, last.0 as int, first.0 as int),
                before.readers == list_map(list, proxy_guid(), proxy_view()),
                before.guid == self.guid,
                before.last_change_sequence_number == last.0,
                forall|k: int|
                    0 <= k < i ==> (#[trigger] self.readers@[k])@ == if list[k]@.is_reliable {
                        list[k]@.after_heartbeat()
                    } else {
                        list[k]@
                    },
                forall|k: int| i <= k < n ==> #[trigger] self.readers@[k] == list[k],
                forall|k: int|
                    0 <= k < out@.len() ==> {
                        &&& before.readers.dom().contains((#[trigger] out@[k]).0)
                        &&& before.readers[out@[k].0].is_reliable
                        &&& before.readers[out@[k].0].reader_guid == out@[k].0
                        &&& out@[k].1 == heartbeat_for(
                            before.readers[out@[k].0],
                            before.guid.entityId,
                            first,
                            last,
                            count,
                        )
                    },
                forall|k: int|
                    0 <= k < i && (#[trigger] list[k])@.is_reliable ==> exists|m: int|
                        0 <= m < out@.len() && (#[trigger] out@[m]).0 == list[k]@.reader_guid,
                forall|m: int|
                    0 <= m < out@.len() ==> #[trigger] is_among(list, i as int, out@[m].0),
                forall|a: int, b: int| 0 <= a < b < out@.len() ==> out@[a].0 != out@[b].0,
                self.guid == old(self).guid,
                self.topic_name == old(self).topic_name,
                self.keyed == old(self).keyed,
                self.history == old(self).history,
                self.last_change_sequence_number == old(self).last_change_sequence_number,
                self.heartbeat_count == old(self).heartbeat_count,
                self.heartbeat_period_nanos == old(self).heartbeat_period_nanos,
                self.nack_suppression_nanos == old(self).nack_suppression_nanos,
            decreases n - i,
        {
            let ghost current = self.readers@;
            let ghost out_before = out@;
            proof {
                lemma_unique_is_last(list, i as int);
            }
            if self.readers[i].is_reliable {
                let reader = self.readers[i].reader_guid;
                let final_flag = self.readers[i].unacked_changes.is_empty();
                out.push(
                    (
                        reader,
                        Heartbeat {
                            reader_id: reader.entityId,
                            writer_id: self.guid.entityId,
                            first_sn: first,
                            last_sn: last,
                            count,
                            final_flag,
                            liveliness_flag: false,
                        },
                    ),
                );
                self.readers[i].announced = true;
            }
            proof {
                assert forall|k: int| 0 <= k < i + 1 implies (#[trigger] self.readers@[k])@
                    == if list[k]@.is_reliable {
                    list[k]@.after_heartbeat()
                } else {
                    list[k]@
                } by {
                    if k < i {
                        assert(self.readers@[k] == current[k]);
                    }
                }
                assert forall|k: int| i + 1 <= k < n implies #[trigger] self.readers@[k]
                    == list[k] by {
                    assert(self.readers@[k] == current[k]);
                }
                assert forall|k: int|
                    0 <= k < i + 1 && (#[trigger] list[k])@.is_reliable implies exists|m: int|
                    0 <= m < out@.len() && (#[trigger] out@[m]).0 == list[k]@.reader_guid by {
                    if k < i {
                        let m = choose|m: int|
                            0 <= m < out_before.len() && (#[trigger] out_before[m]).0
                                == list[k]@.reader_guid;
                        assert(out@[m] == out_before[m]);
                    } else {
                        assert(out@[out@.len() - 1].0 == list[k]@.reader_guid);
                    }
                }
                assert forall|m: int| 0 <= m < out@.len() implies #[trigger] is_among(
                    list,
                    i + 1,
                    out@[m].0,
                ) by {
                    if m < out_before.len() {
                        assert(out@[m] == out_before[m]);
                        assert(is_among(list, i as int, out_before[m].0));
                        let k = choose|k: int|
                            0 <= k < i && (#[trigger] list[k])@.reader_guid == out_before[m].0;
                        assert(list[k]@.reader_guid == out@[m].0);
                    } else {
                        assert(list[i as int]@.reader_guid == out@[m].0);
                    }
                }
                assert forall|a: int, b: int| 0 <= a < b < out@.len() implies out@[a].0
                    != out@[b].0 by {
                    assert(out@[a] == out_before[a]);
                    if b < out_before.len() {
                        assert(out@[b] == out_before[b]);
                    } else {
                        assert(is_among(list, i as int, out_before[a].0));
                        let k = choose|k: int|
                            0 <= k < i && (#[trigger] list[k])@.reader_guid == out_before[a].0;
                        assert(proxy_guid()(list[k]) != proxy_guid()(list[i as int]));
                    }
                }
                assert forall|k: int| 0 <= k < out@.len() implies {
                    &&& before.readers.dom().contains((#[trigger] out@[k]).0)
                    &&& before.readers[out@[k].0].is_reliable
                    &&& before.readers[out@[k].0].reader_guid == out@[k].0
                    &&& out@[k].1 == heartbeat_for(
                        before.readers[out@[k].0],
                        before.guid.entityId,
                        first,
                        last,
                        count,
                    )
                } by {
                    if k < out_before.len() {
                        assert(out@[k] == out_before[k]);
                    }
                }
            }
            i += 1;
        }
        self.heartbeat_count = count;
        proof {
            let after = self.readers@;
            let change = |p: ReaderProxyView|
                if p.is_reliable {
                    p.after_heartbeat()
                } else {
                    p
                };
            assert forall|k: int| 0 <= k < list.len() implies proxy_guid()(#[trigger] after[k])
                == proxy_guid()(list[k]) && proxy_view()(after[k]) == change(
                proxy_view()(list[k]),
            ) by {
                assert(after[k]@ == if list[k]@.is_reliable {
                    list[k]@.after_heartbeat()
                } else {
                    list[k]@
                });
            }
            lemma_mapped(list, after, proxy_guid(), proxy_view(), change);
            assert forall|a: int, b: int| 0 <= a < b < after.len() implies proxy_guid()(after[a])
                != proxy_guid()(after[b]) by {
                assert(proxy_guid()(after[a]) == proxy_guid()(list[a]));
                assert(proxy_guid()(after[b]) == proxy_guid()(list[b]));
            }
            assert forall|k: int| 0 <= k < after.len() implies (#[trigger] after[k])@.is_reliable
                == list[k]@.is_reliable && after[k]@.highest_acked_sn
                == list[k]@.highest_acked_sn by {
                assert(proxy_view()(after[k]) == change(proxy_view()(list[k])));
            }
            lemma_least_acked_same(after, list);
            assert forall|g: GUID|
                before.readers.dom().contains(g) && (#[trigger] before.readers[g]).is_reliable implies exists|
                k: int,
            | 0 <= k < out@.len() && (#[trigger] out@[k]).0 == g by {
                crate::structure::keyed_list::lemma_key_has_entry(
                    list,
                    proxy_guid(),
                    proxy_view(),
                    g,
                );
                let w = choose|w: int|
                    is_last_match(list, proxy_guid(), w) && proxy_guid()(#[trigger] list[w]) == g;
                lemma_last_match(list, proxy_guid(), proxy_view(), w);
                assert(list[w]@.is_reliable);
            }
            assert(self@.readers =~= before.readers.map_values(
                |p: ReaderProxyView|
                    if p.is_reliable {
                        p.after_heartbeat()
                    } else {
                        p
                    },
            ));
        }
        out
    }

    /// Takes in an ACKNACK submessage of the datagram that `mr_state`
    /// describes, which came at `now`.
    ///
    /// An acknowledgement of a matched reader whose count is greater than
    /// the last one's settles what the reader has acknowledged and what is
    /// to be sent to it again.
    pub fn handle_acknack(
        &mut self,
        acknack: &AckNack,
        mr_state: &MessageReceiverState,
        now: u64,
    ) -> (outcome: AckNackOutcome)
        requires
            old(self).wf(),
            acknack.reader_sn_state.wf(),
        ensures
            final(self).wf(),
            ({
                let reader = GUID {
                    guidPrefix: mr_state.source_guid_prefix,
                    entityId: acknack.reader_id,
                };
                let before = old(self)@;
                if !before.readers.dom().contains(reader) {
                    &&& outcome == AckNackOutcome::UnknownReader
                    &&& final(self)@ == before
                } else if !before.readers[reader].acknack_is_new(acknack.count as int) {
                    &&& outcome == AckNackOutcome::Replay
                    &&& final(self)@ == before
                } else if acknack.reader_sn_state.spec_base() <= i64::MIN {
                    &&& outcome == AckNackOutcome::Malformed
                    &&& final(self)@ == before
                } else {
                    &&& outcome == AckNackOutcome::Accepted
                    &&& final(self)@.readers == before.readers.insert(
                        reader,
                        before.readers[reader].after_acknack(
                            acknack.reader_sn_state.spec_base(),
                            acknack.reader_sn_state.spec_bits(),
                            acknack.count as int,
                            before.last_change_sequence_number,
                            now,
                            before.nack_suppression_nanos,
                        ),
                    )
                    &&& final(self)@.guid == before.guid
                    &&& final(self)@.topic_name == before.topic_name
                    &&& final(self)@.keyed == before.keyed
                    &&& final(self)@.history == before.history
                    &&& final(self)@.last_change_sequence_number
                        == before.last_change_sequence_number
                    &&& final(self)@.heartbeat_count == before.heartbeat_count
                    &&& final(self)@.heartbeat_period_nanos == before.heartbeat_period_nanos
                    &&& final(self)@.nack_suppression_nanos == before.nack_suppression_nanos
                }
            }),
    {
        let reader_guid = GUID::new_with_prefix_and_id(
            mr_state.source_guid_prefix,
            acknack.reader_id,
        );
        let i = match self.find_reader(&reader_guid) {
            Some(i) => i,
            None => {
                return AckNackOutcome::UnknownReader;
            },
        };
        if acknack.count <= self.readers[i].last_acknack_count {
            return AckNackOutcome::Replay;
        }
        if acknack.reader_sn_state.base().0 <= i64::MIN {
            return AckNackOutcome::Malformed;
        }
        let ghost list = self.readers@;
        let last = self.last_change_sequence_number;
        let suppression = self.nack_suppression_nanos;
        self.readers[i].acknowledge(&acknack.reader_sn_state, acknack.count, last, now, suppression);
        proof {
            let after = self.readers@;
            assert(after =~= list.update(i as int, after[i as int]));
            lemma_update(list, proxy_guid(), proxy_view(), i as int, after[i as int]);
            assert forall|a: int, b: int| 0 <= a < b < after.len() implies proxy_guid()(after[a])
                != proxy_guid()(after[b]) by {
                assert(proxy_guid()(after[a]) == proxy_guid()(list[a]));
                assert(proxy_guid()(after[b]) == proxy_guid()(list[b]));
            }
        }
        AckNackOutcome::Accepted
    }
}

} // verus!
