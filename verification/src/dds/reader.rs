//! The receiving side of a topic: for each matched writer, which of its
//! changes have come and which are missing.

use crate::dds::message_receiver::MessageReceiverState;
use crate::messages::submessages::{AckNack, Data, DataView, Gap, Heartbeat};
use crate::structure::cache_change::{CacheChange, CacheChangeView, ChangeKind};
use crate::structure::dds_cache::{log_after_add, CacheError, ChangeLog, DDSCache};
use crate::structure::guid::{EntityId, GuidPrefix, GUID};
use crate::structure::keyed_list::{
    is_last_match, lemma_last_match, lemma_no_match, lemma_update, lemma_without_keys, list_map,
    without_keys,
};
use crate::structure::locator::Locator;
use crate::structure::sequence_number::{
    greatest_of, number_range, SequenceNumber, SequenceNumberSet, SEQUENCE_NUMBER_SET_MAX_BITS,
};
use vstd::prelude::*;

verus! {

/// What a reader knows of one matched writer.
pub struct WriterProxy {
    remote_writer_guid: GUID,
    unicast_locators: Vec<Locator>,
    multicast_locators: Vec<Locator>,
    highest_sn_received: SequenceNumber,
    /// The last number that the writer has announced.
    announced: i64,
    /// The ranges of numbers that the writer has declared irrelevant since
    /// it last announced its numbers, each with its first and last number.
    settled: Vec<(i64, i64)>,
    last_heartbeat_count: i32,
}

/// Whether one of the ranges holds the number `v`.
pub open spec fn covered(ranges: Seq<(i64, i64)>, v: int) -> bool {
    exists|i: int| 0 <= i < ranges.len() && (#[trigger] ranges[i]).0 <= v <= ranges[i].1
}

/// Whether one of the ranges holds the number `v`.
fn is_covered(ranges: &Vec<(i64, i64)>, v: i64) -> (b: bool)
    ensures
        b == covered(ranges@, v as int),
{
    let n = ranges.len();
    let mut i: usize = 0;
    while i < n
        invariant
            i <= n,
            n == ranges@.len(),
            forall|k: int| 0 <= k < i ==> !((#[trigger] ranges@[k]).0 <= v <= ranges@[k].1),
        decreases n - i,
    {
        if ranges[i].0 <= v && v <= ranges[i].1 {
            return true;
        }
        i += 1;
    }
    false
}

/// The last number of the ranges that hold `v`, if any holds it.
fn reach(ranges: &Vec<(i64, i64)>, v: i64) -> (r: Option<i64>)
    ensures
        match r {
            Some(hi) => v <= hi && forall|w: int| v <= w <= hi ==> covered(ranges@, w),
            None => !covered(ranges@, v as int),
        },
{
    let n = ranges.len();
    let mut i: usize = 0;
    while i < n
        invariant
            i <= n,
            n == ranges@.len(),
            forall|k: int| 0 <= k < i ==> !((#[trigger] ranges@[k]).0 <= v <= ranges@[k].1),
        decreases n - i,
    {
        if ranges[i].0 <= v && v <= ranges[i].1 {
            let hi = ranges[i].1;
            assert forall|w: int| v <= w <= hi implies covered(ranges@, w) by {
                assert(ranges@[i as int].0 <= w <= ranges@[i as int].1);
            }
            return Some(hi);
        }
        i += 1;
    }
    None
}

/// The first number of the ranges that hold `v`, if any holds it.
fn reach_down(ranges: &Vec<(i64, i64)>, v: i64) -> (r: Option<i64>)
    ensures
        match r {
            Some(lo) => lo <= v && forall|w: int| lo <= w <= v ==> covered(ranges@, w),
            None => !covered(ranges@, v as int),
        },
{
    let n = ranges.len();
    let mut i: usize = 0;
    while i < n
        invariant
            i <= n,
            n == ranges@.len(),
            forall|k: int| 0 <= k < i ==> !((#[trigger] ranges@[k]).0 <= v <= ranges@[k].1),
        decreases n - i,
    {
        if ranges[i].0 <= v && v <= ranges[i].1 {
            let lo = ranges[i].0;
            assert forall|w: int| lo <= w <= v implies covered(ranges@, w) by {
                assert(ranges@[i as int].0 <= w <= ranges@[i as int].1);
            }
            return Some(lo);
        }
        i += 1;
    }
    None
}

/// The least number from `from` to `to` that none of the ranges holds, if
/// there is one.
fn first_uncovered(ranges: &Vec<(i64, i64)>, from: i64, to: i64) -> (r: Option<i64>)
    ensures
        match r {
            Some(v) => from <= v <= to && !covered(ranges@, v as int) && forall|w: int|
                from <= w < v ==> covered(ranges@, w),
            None => forall|w: int| from <= w <= to ==> covered(ranges@, w),
        },
{
    let mut v: i64 = from;
    while v <= to
        invariant
            from <= v,
            forall|w: int| from <= w < v && w <= to ==> covered(ranges@, w),
        decreases to - v + 1,
    {
        match reach(ranges, v) {
            None => {
                return Some(v);
            },
            Some(hi) => {
                if hi >= to {
                    return None;
                }
                v = hi + 1;
            },
        }
    }
    None
}

/// The greatest number from `from` to `to` that none of the ranges holds,
/// if there is one.
fn last_uncovered(ranges: &Vec<(i64, i64)>, from: i64, to: i64) -> (r: Option<i64>)
    ensures
        match r {
            Some(v) => from <= v <= to && !covered(ranges@, v as int) && forall|w: int|
                v < w <= to ==> covered(ranges@, w),
            None => forall|w: int| from <= w <= to ==> covered(ranges@, w),
        },
{
    let mut v: i64 = to;
    while v >= from
        invariant
            v <= to,
            forall|w: int| v < w <= to && from <= w ==> covered(ranges@, w),
        decreases v - from + 1,
    {
        match reach_down(ranges, v) {
            None => {
                return Some(v);
            },
            Some(lo) => {
                if lo <= from {
                    return None;
                }
                v = lo - 1;
            },
        }
    }
    None
}

/// What a `WriterProxy` stands for.
pub struct WriterProxyView {
    pub writer_guid: GUID,
    pub unicast_locators: Seq<Locator>,
    pub multicast_locators: Seq<Locator>,
    pub highest_sn_received: int,
    pub missing_samples: Set<int>,
    pub last_heartbeat_count: int,
}

/// The number below every sequence number that a writer gives out: what a
/// reader has received of a writer it has heard nothing from.
pub const SEQUENCE_NUMBER_BEFORE_ALL: i64 = -1;

/// The time for which a reader holds back after an acknowledgement, in
/// nanoseconds, unless it is told otherwise: 200 ms.
pub const DEFAULT_NACK_SUPPRESSION_NANOS: u64 = 200_000_000;

impl View for WriterProxy {
    type V = WriterProxyView;

    closed spec fn view(&self) -> WriterProxyView {
        WriterProxyView {
            writer_guid: self.remote_writer_guid,
            unicast_locators: self.unicast_locators@,
            multicast_locators: self.multicast_locators@,
            highest_sn_received: self.highest_sn_received.0 as int,
            missing_samples: Set::new(
                |v: int|
                    first_skipped(self.highest_sn_received.0 as int) <= v <= self.announced
                        && !covered(self.settled@, v),
            ),
            last_heartbeat_count: self.last_heartbeat_count as int,
        }
    }
}

/// The number that follows `highest` among those that a writer gives out:
/// the next one, but none below the first, which is 1.
pub open spec fn first_skipped(highest: int) -> int {
    if highest < 0 {
        1
    } else {
        highest + 1
    }
}

/// Whether the numbers of `gone` that follow `highest` without a break end
/// at `m`: `m` is `highest` itself where the number that follows it is not
/// in `gone`.
pub open spec fn ends_run(highest: int, gone: Set<int>, m: int) -> bool {
    &&& m == highest || m >= first_skipped(highest)
    &&& forall|v: int| first_skipped(highest) <= v <= m ==> gone.contains(v)
    &&& !gone.contains(first_skipped(m))
}

/// Where the numbers of `gone` that follow `highest` without a break end;
/// `highest` itself where they never do.
pub open spec fn run_end(highest: int, gone: Set<int>) -> int {
    if exists|m: int| ends_run(highest, gone, m) {
        choose|m: int| ends_run(highest, gone, m)
    } else {
        highest
    }
}

/// The numbers that follow `highest` without a break end in one place only.
pub proof fn lemma_run_end(highest: int, gone: Set<int>, m: int)
    requires
        ends_run(highest, gone, m),
    ensures
        run_end(highest, gone) == m,
{
    let r = run_end(highest, gone);
    assert(ends_run(highest, gone, r));
    if r < m {
        assert(gone.contains(first_skipped(r)));
    } else if m < r {
        assert(gone.contains(first_skipped(m)));
    }
}

impl WriterProxyView {
    /// Whether a change with the number `sn` is taken in. A reliable reader
    /// takes the changes of a writer in their order: the change that
    /// follows the newest that came, and no other. Another reader takes
    /// every change that is newer than the newest that came.
    pub open spec fn accepts(self, sn: int, reliable: bool) -> bool {
        if reliable {
            sn == first_skipped(self.highest_sn_received)
        } else {
            sn > self.highest_sn_received
        }
    }

    /// Whether the change with the number `sn` counts as received: it is not
    /// newer than the newest that came and it is not missing.
    pub open spec fn has_received(self, sn: int) -> bool {
        sn <= self.highest_sn_received && !self.missing_samples.contains(sn)
    }

    /// Whether everything that is missing is yet to come: no number up to
    /// the newest that came is missing, and none below the first that a
    /// writer gives out.
    pub open spec fn missing_is_ahead(self) -> bool {
        forall|v: int|
            self.missing_samples.contains(v) ==> v >= first_skipped(self.highest_sn_received)
    }

    /// The proxy after a change with the number `sn` has been taken in:
    /// where it is newer than the newest that came, it is the newest that
    /// came from then on, and what is missing is what was missing of the
    /// numbers that follow it.
    pub open spec fn after_data(self, sn: int) -> WriterProxyView {
        if sn > self.highest_sn_received {
            WriterProxyView {
                highest_sn_received: sn,
                missing_samples: Set::new(
                    |v: int| self.missing_samples.contains(v) && v >= first_skipped(sn),
                ),
                ..self
            }
        } else {
            self
        }
    }

    /// Whether a heartbeat with this count is new: a count that is not
    /// greater than the last is a replay.
    pub open spec fn heartbeat_is_new(self, count: int) -> bool {
        count > self.last_heartbeat_count
    }

    /// The proxy after a new heartbeat that announces the numbers from
    /// `first` to `last`. The numbers below `first` will not come any more,
    /// so the newest that came is the one before `first` at least; of the
    /// numbers that are announced, the ones after it are missing, and
    /// nothing else is.
    pub open spec fn after_heartbeat(self, first: int, last: int, count: int) -> WriterProxyView {
        let highest = if first - 1 > self.highest_sn_received {
            first - 1
        } else {
            self.highest_sn_received
        };
        WriterProxyView {
            highest_sn_received: highest,
            missing_samples: number_range(first_skipped(highest), last),
            last_heartbeat_count: count,
            ..self
        }
    }

    /// The proxy after a gap that declares the numbers of `gone`
    /// irrelevant: they are missing no longer, and those of them that
    /// follow the newest that came without a break count as having come.
    pub open spec fn after_gap(self, gone: Set<int>) -> WriterProxyView {
        WriterProxyView {
            highest_sn_received: run_end(self.highest_sn_received, gone),
            missing_samples: self.missing_samples.difference(gone),
            ..self
        }
    }

    /// The first number of the window that an acknowledgement reports: all
    /// numbers below it have been received or will never be.
    pub open spec fn acknack_base(self) -> int {
        if self.highest_sn_received < i64::MAX {
            first_skipped(self.highest_sn_received)
        } else {
            self.highest_sn_received
        }
    }

    /// How many bits the window of an acknowledgement has: enough to reach
    /// the greatest missing number, but no more than a window holds.
    pub open spec fn acknack_num_bits(self) -> int {
        if self.missing_samples == Set::<int>::empty() {
            0
        } else {
            let span = greatest_of(self.missing_samples) - self.acknack_base() + 1;
            if span > SEQUENCE_NUMBER_SET_MAX_BITS {
                SEQUENCE_NUMBER_SET_MAX_BITS as int
            } else {
                span
            }
        }
    }
}

/// The kind of the change that a DATA submessage stands for: alive where
/// the payload holds a sample; else what the inline status says, and alive
/// where there is none.
pub open spec fn kind_of_data(data: DataView) -> ChangeKind {
    if data.serialized_payload is Some && !data.payload_is_key {
        ChangeKind::ALIVE
    } else {
        match data.inline_qos {
            Some(qos) => match qos.status_info {
                Some(status) => status.spec_change_kind(),
                None => ChangeKind::ALIVE,
            },
            None => ChangeKind::ALIVE,
        }
    }
}

/// The change that a DATA submessage from the writer `writer_guid` stands for.
///
/// Its kind is alive where the payload holds a sample; else it is what the
/// inline status says, and alive where there is none. It carries the
/// payload, be it a sample or the key of an instance that is alive no
/// longer; a key that comes with no word on the instance is not kept. Its
/// key hash is the inline key hash, zero where there is none.
pub open spec fn change_of_data(data: DataView, writer_guid: GUID) -> CacheChangeView {
    CacheChangeView {
        kind: kind_of_data(data),
        writer_guid,
        sequence_number: data.writer_sn,
        data_value: if data.payload_is_key && kind_of_data(data) == ChangeKind::ALIVE {
            None
        } else {
            data.serialized_payload
        },
        instance_key_hash: match data.inline_qos {
            Some(qos) => match qos.key_hash {
                Some(hash) => hash.spec_value(),
                None => 0,
            },
            None => 0,
        },
    }
}

/// The numbers that a GAP submessage declares irrelevant: those from its
/// start up to the base of its list, and those that its list holds.
pub open spec fn gap_numbers(gap_start: int, list_base: int, listed: Set<int>) -> Set<int> {
    number_range(gap_start, list_base - 1).union(listed)
}

/// A disposal that carries its key: a DATA submessage whose payload is
/// absent or holds the key, and whose inline status says disposed, stands
/// for a change that disposes of the instance with the inline key hash, and
/// carries the key where the submessage did.
pub proof fn lemma_dispose_carries_key(data: DataView, writer_guid: GUID)
    requires
        data.serialized_payload is None || data.payload_is_key,
        data.inline_qos is Some,
        data.inline_qos->Some_0.status_info is Some,
        data.inline_qos->Some_0.status_info->Some_0.spec_contains(
            crate::structure::inline_qos::StatusInfoEnum::Disposed,
        ),
        data.inline_qos->Some_0.key_hash is Some,
    ensures
        change_of_data(data, writer_guid).kind == ChangeKind::NOT_ALIVE_DISPOSED,
        change_of_data(data, writer_guid).instance_key_hash
            == data.inline_qos->Some_0.key_hash->Some_0.spec_value(),
        change_of_data(data, writer_guid).data_value == data.serialized_payload,
{
}

/// The proxy after a change with the number `sn` has come: taken in where
/// the proxy takes it in, and left as it is where it does not.
pub open spec fn after_arrival(proxy: WriterProxyView, sn: int, reliable: bool) -> WriterProxyView {
    if proxy.accepts(sn, reliable) {
        proxy.after_data(sn)
    } else {
        proxy
    }
}

/// The proxy after changes with the numbers of `arrivals` have come, in
/// that order.
pub open spec fn after_arrivals(proxy: WriterProxyView, arrivals: Seq<int>, reliable: bool) -> WriterProxyView
    decreases arrivals.len(),
{
    if arrivals.len() == 0 {
        proxy
    } else {
        after_arrival(after_arrivals(proxy, arrivals.drop_last(), reliable), arrivals.last(), reliable)
    }
}

/// The numbers of the changes that are taken in as changes with the numbers
/// of `arrivals` come, in the order in which they are taken in.
pub open spec fn taken_in(proxy: WriterProxyView, arrivals: Seq<int>, reliable: bool) -> Seq<int>
    decreases arrivals.len(),
{
    if arrivals.len() == 0 {
        Seq::empty()
    } else {
        let before = taken_in(proxy, arrivals.drop_last(), reliable);
        if after_arrivals(proxy, arrivals.drop_last(), reliable).accepts(arrivals.last(), reliable) {
            before.push(arrivals.last())
        } else {
            before
        }
    }
}

/// Whether changes with the numbers from `from` to `to` come among
/// `arrivals` in the order of their numbers, whatever else comes before,
/// between and after them, and however often.
pub open spec fn come_in_order(arrivals: Seq<int>, from: int, to: int) -> bool
    decreases arrivals.len(),
{
    if to < from {
        true
    } else if arrivals.len() == 0 {
        false
    } else if arrivals.last() == to {
        come_in_order(arrivals.drop_last(), from, to - 1)
    } else {
        come_in_order(arrivals.drop_last(), from, to)
    }
}

/// The newest number that has come from a writer never becomes an older
/// one: not by a change that comes, whether it is taken in or not, not by a
/// heartbeat, not by a gap. A change that is taken in is newer than all
/// that came before it.
pub proof fn lemma_highest_never_decreases(
    proxy: WriterProxyView,
    sn: int,
    first: int,
    last: int,
    count: int,
    gone: Set<int>,
    reliable: bool,
)
    ensures
        proxy.accepts(sn, reliable) ==> proxy.after_data(sn).highest_sn_received
            > proxy.highest_sn_received,
        after_arrival(proxy, sn, reliable).highest_sn_received >= proxy.highest_sn_received,
        proxy.after_heartbeat(first, last, count).highest_sn_received
            >= proxy.highest_sn_received,
        proxy.after_gap(gone).highest_sn_received >= proxy.highest_sn_received,
{
    if exists|m: int| ends_run(proxy.highest_sn_received, gone, m) {
        let m = choose|m: int| ends_run(proxy.highest_sn_received, gone, m);
        assert(ends_run(proxy.highest_sn_received, gone, m));
    }
}

/// What is missing is yet to come: this holds of a reader that has heard
/// nothing of a writer, and stays so when a reliable reader takes a change
/// in, and after a heartbeat and after a gap.
pub proof fn lemma_missing_is_ahead(
    proxy: WriterProxyView,
    sn: int,
    first: int,
    last: int,
    count: int,
    gone: Set<int>,
)
    requires
        proxy.missing_is_ahead(),
    ensures
        after_arrival(proxy, sn, true).missing_is_ahead(),
        proxy.after_heartbeat(first, last, count).missing_is_ahead(),
        proxy.after_gap(gone).missing_is_ahead(),
{
    let h = proxy.highest_sn_received;
    let after = proxy.after_gap(gone);
    if exists|m: int| ends_run(h, gone, m) {
        let m = choose|m: int| ends_run(h, gone, m);
        assert(ends_run(h, gone, m));
        assert forall|v: int| after.missing_samples.contains(v) implies v >= first_skipped(m) by {
            if v < first_skipped(m) {
                assert(v >= first_skipped(h));
                assert(gone.contains(v));
            }
        }
    }
}

/// What a change taken in does to what counts as received: the change's
/// number counts as received from then on, and so does every number that
/// did before.
pub proof fn lemma_data_is_received(proxy: WriterProxyView, sn: int, reliable: bool)
    requires
        proxy.accepts(sn, reliable),
    ensures
        proxy.after_data(sn).has_received(sn),
        forall|v: int| proxy.has_received(v) ==> proxy.after_data(sn).has_received(v),
{
}

/// What a heartbeat leaves missing: of the numbers that it announces, the
/// ones that are newer than the newest that came, and no others. A
/// reliable reader takes in the first of them, and after it the others in
/// their turn.
pub proof fn lemma_heartbeat_asks_for_the_rest(proxy: WriterProxyView, first: int, last: int, count: int)
    ensures
        forall|v: int|
            proxy.after_heartbeat(first, last, count).missing_samples.contains(v) <==> (
            first_skipped(proxy.after_heartbeat(first, last, count).highest_sn_received) <= v
                <= last),
        proxy.after_heartbeat(first, last, count).missing_samples != Set::<int>::empty()
            ==> proxy.after_heartbeat(first, last, count).missing_samples.contains(
            first_skipped(proxy.after_heartbeat(first, last, count).highest_sn_received),
        ) && proxy.after_heartbeat(first, last, count).accepts(
            first_skipped(proxy.after_heartbeat(first, last, count).highest_sn_received),
            true,
        ),
        proxy.after_heartbeat(first, last, count).missing_samples == Set::<int>::empty() <==> last
            <= proxy.after_heartbeat(first, last, count).highest_sn_received || last < 1,
{
    let after = proxy.after_heartbeat(first, last, count);
    let next = first_skipped(after.highest_sn_received);
    if next <= last {
        assert(after.missing_samples.contains(next));
    } else {
        assert(after.missing_samples =~= Set::<int>::empty());
    }
}

/// A change that a reader takes in is in the cache from then on: where the
/// cache has the reader's topic and no other change of the instant, the log
/// of the topic holds the change's writer and sequence number after it was
/// added, whether it held them before or not.
pub proof fn lemma_accepted_change_is_in_cache(log: ChangeLog, now: u64, change: CacheChangeView)
    requires
        crate::structure::dds_cache::instants_increase(log),
        crate::structure::dds_cache::identities_differ(log),
        crate::structure::dds_cache::holds_identity(log, change.identity())
            || !crate::structure::dds_cache::holds_instant(log, now),
    ensures
        crate::structure::dds_cache::holds_identity(
            log_after_add(log, now, change),
            change.identity(),
        ),
        crate::structure::dds_cache::count_identity(
            log_after_add(log, now, change),
            change.identity(),
        ) == 1,
{
    crate::structure::dds_cache::lemma_log_after_add(log, now, change);
    crate::structure::dds_cache::lemma_count_identity(
        log_after_add(log, now, change),
        change.identity(),
    );
}

/// The changes of the writer `writer` stand in the log in the order of
/// their sequence numbers.
pub open spec fn writer_numbers_ascend(log: ChangeLog, writer: GUID) -> bool {
    forall|i: int, j: int|
        0 <= i < j < log.len() && log[i].1.writer_guid == writer && log[j].1.writer_guid == writer
            ==> log[i].1.sequence_number.0 < log[j].1.sequence_number.0
}

/// No change of the writer `writer` in the log has a number above `highest`.
pub open spec fn numbers_up_to(log: ChangeLog, writer: GUID, highest: int) -> bool {
    forall|i: int|
        0 <= i < log.len() && (#[trigger] log[i]).1.writer_guid == writer
            ==> log[i].1.sequence_number.0 <= highest
}

/// The cache holds the changes of a writer in the order of their numbers:
/// a reader takes in only what is newer than the newest that came, so
/// where the log holds no newer change of the writer and the change comes
/// at a later instant than all that the log holds, the change stands last
/// in the log, behind every older change of its writer.
pub proof fn lemma_changes_stay_in_order(
    log: ChangeLog,
    now: u64,
    change: CacheChangeView,
    proxy: WriterProxyView,
    reliable: bool,
)
    requires
        crate::structure::dds_cache::instants_increase(log),
        writer_numbers_ascend(log, change.writer_guid),
        numbers_up_to(log, change.writer_guid, proxy.highest_sn_received),
        proxy.accepts(change.sequence_number.0 as int, reliable),
        forall|i: int| 0 <= i < log.len() ==> (#[trigger] log[i]).0 < now,
    ensures
        log_after_add(log, now, change) == log.push((now, change)),
        writer_numbers_ascend(log_after_add(log, now, change), change.writer_guid),
        numbers_up_to(
            log_after_add(log, now, change),
            change.writer_guid,
            proxy.after_data(change.sequence_number.0 as int).highest_sn_received,
        ),
{
    let id = change.identity();
    assert(!crate::structure::dds_cache::holds_identity(log, id)) by {
        if crate::structure::dds_cache::holds_identity(log, id) {
            let i = choose|i: int| 0 <= i < log.len() && #[trigger] log[i].1.identity() == id;
            assert(log[i].1.writer_guid == change.writer_guid);
            assert(log[i].1.sequence_number.0 <= proxy.highest_sn_received);
        }
    }
    assert(!crate::structure::dds_cache::holds_instant(log, now)) by {
        if crate::structure::dds_cache::holds_instant(log, now) {
            let i = choose|i: int| 0 <= i < log.len() && #[trigger] log[i].0 == now;
            assert(log[i].0 < now);
        }
    }
    crate::structure::dds_cache::lemma_insertion_point_is(log, now, log.len() as int);
    let after = log_after_add(log, now, change);
    assert(after =~= log.push((now, change)));
    assert forall|i: int, j: int|
        0 <= i < j < after.len() && after[i].1.writer_guid == change.writer_guid
            && after[j].1.writer_guid == change.writer_guid implies after[i].1.sequence_number.0
        < after[j].1.sequence_number.0 by {
        assert(after[i] == log[i]);
        if j < log.len() {
            assert(after[j] == log[j]);
        }
    }
    assert forall|i: int|
        0 <= i < after.len() && (#[trigger] after[i]).1.writer_guid
            == change.writer_guid implies after[i].1.sequence_number.0
        <= change.sequence_number.0 by {
        if i < log.len() {
            assert(after[i] == log[i]);
        }
    }
}

/// A reliable reader takes the changes of a writer in without a break and
/// in their order: whatever comes, in whatever order and however often,
/// the numbers that are taken in are the ones that follow the newest that
/// had come, one after the other, and the last of them is then the newest
/// that came.
pub proof fn lemma_taken_in_order(proxy: WriterProxyView, arrivals: Seq<int>)
    ensures
        forall|k: int|
            0 <= k < taken_in(proxy, arrivals, true).len() ==> #[trigger] taken_in(
                proxy,
                arrivals,
                true,
            )[k] == first_skipped(proxy.highest_sn_received) + k,
        after_arrivals(proxy, arrivals, true).highest_sn_received == if taken_in(
            proxy,
            arrivals,
            true,
        ).len() == 0 {
            proxy.highest_sn_received
        } else {
            first_skipped(proxy.highest_sn_received) + taken_in(proxy, arrivals, true).len() - 1
        },
    decreases arrivals.len(),
{
    if arrivals.len() > 0 {
        lemma_taken_in_order(proxy, arrivals.drop_last());
    }
}

/// A reader that is not reliable takes in changes of rising numbers only,
/// each newer than the newest that had come, and the last of them is then
/// the newest that came.
pub proof fn lemma_taken_in_rising(proxy: WriterProxyView, arrivals: Seq<int>)
    ensures
        forall|j: int, k: int|
            0 <= j < k < taken_in(proxy, arrivals, false).len() ==> taken_in(
                proxy,
                arrivals,
                false,
            )[j] < taken_in(proxy, arrivals, false)[k],
        forall|k: int|
            0 <= k < taken_in(proxy, arrivals, false).len() ==> proxy.highest_sn_received
                < #[trigger] taken_in(proxy, arrivals, false)[k] <= after_arrivals(
                proxy,
                arrivals,
                false,
            ).highest_sn_received,
        after_arrivals(proxy, arrivals, false).highest_sn_received >= proxy.highest_sn_received,
    decreases arrivals.len(),
{
    if arrivals.len() > 0 {
        let head = arrivals.drop_last();
        lemma_taken_in_rising(proxy, head);
        let before = taken_in(proxy, head, false);
        let taken = taken_in(proxy, arrivals, false);
        let after = after_arrivals(proxy, arrivals, false);
        assert forall|k: int| 0 <= k < taken.len() implies proxy.highest_sn_received
            < #[trigger] taken[k] <= after.highest_sn_received by {
            if k < before.len() {
                assert(taken[k] == before[k]);
            }
        }
        assert forall|j: int, k: int| 0 <= j < k < taken.len() implies taken[j] < taken[k] by {
            assert(taken[j] == before[j]);
            if k < before.len() {
                assert(taken[k] == before[k]);
            }
        }
    }
}

/// An exchange in which the change that a reliable reader waits for gets
/// through takes the reader on: where a change with the number that
/// follows the newest that came is among those that come, whatever else
/// comes and is lost, the newest that came is that number at least
/// afterwards.
pub proof fn lemma_exchange_makes_progress(proxy: WriterProxyView, arrivals: Seq<int>)
    requires
        arrivals.contains(first_skipped(proxy.highest_sn_received)),
    ensures
        after_arrivals(proxy, arrivals, true).highest_sn_received >= first_skipped(
            proxy.highest_sn_received,
        ),
        after_arrivals(proxy, arrivals, true).highest_sn_received > proxy.highest_sn_received,
    decreases arrivals.len(),
{
    let next = first_skipped(proxy.highest_sn_received);
    let head = arrivals.drop_last();
    lemma_taken_in_order(proxy, head);
    lemma_taken_in_order(proxy, arrivals);
    if arrivals.last() != next {
        let k = choose|k: int| 0 <= k < arrivals.len() && arrivals[k] == next;
        assert(head[k] == next);
        lemma_exchange_makes_progress(proxy, head);
    }
}

/// Reliable delivery, once the transport lets the changes through: where
/// the changes that follow the newest that came, up to the one with the
/// number `last`, come in the order of their numbers at last, after
/// whatever losses and among whatever repetitions and changes out of their
/// turn, the reader has taken every one of them in, in that order.
pub proof fn lemma_delivery_completes(proxy: WriterProxyView, arrivals: Seq<int>, last: int)
    requires
        come_in_order(arrivals, first_skipped(proxy.highest_sn_received), last),
    ensures
        last >= first_skipped(proxy.highest_sn_received) ==> after_arrivals(
            proxy,
            arrivals,
            true,
        ).highest_sn_received >= last,
        taken_in(proxy, arrivals, true).len() > last - first_skipped(proxy.highest_sn_received),
        forall|k: int|
            0 <= k <= last - first_skipped(proxy.highest_sn_received) ==> #[trigger] taken_in(
                proxy,
                arrivals,
                true,
            )[k] == first_skipped(proxy.highest_sn_received) + k,
    decreases arrivals.len(),
{
    let from = first_skipped(proxy.highest_sn_received);
    lemma_taken_in_order(proxy, arrivals);
    if last >= from {
        let head = arrivals.drop_last();
        lemma_taken_in_order(proxy, head);
        if arrivals.last() == last {
            lemma_delivery_completes(proxy, head, last - 1);
        } else {
            lemma_delivery_completes(proxy, head, last);
        }
    }
}

/// The sequence numbers of DATA submessages, in their order.
pub open spec fn numbers_of(arrivals: Seq<(DataView, u64)>) -> Seq<int> {
    Seq::new(arrivals.len(), |k: int| arrivals[k].0.writer_sn.0 as int)
}

/// What a reader knows of a matched writer, and the log of its topic, after
/// DATA submessages of the writer have come, each with the instant at
/// which it came, as `handle_data_msg` takes them in: a submessage whose
/// turn has not come changes nothing, nor does one that the cache refuses;
/// any other is added to the log and noted as received.
pub open spec fn after_deliveries(
    proxy: WriterProxyView,
    log: ChangeLog,
    writer: GUID,
    arrivals: Seq<(DataView, u64)>,
    reliable: bool,
) -> (WriterProxyView, ChangeLog)
    decreases arrivals.len(),
{
    if arrivals.len() == 0 {
        (proxy, log)
    } else {
        let before = after_deliveries(proxy, log, writer, arrivals.drop_last(), reliable);
        let (data, now) = arrivals.last();
        let change = change_of_data(data, writer);
        if !before.0.accepts(data.writer_sn.0 as int, reliable) {
            before
        } else if !crate::structure::dds_cache::holds_identity(before.1, change.identity())
            && crate::structure::dds_cache::holds_instant(before.1, now) {
            before
        } else {
            (before.0.after_data(data.writer_sn.0 as int), log_after_add(before.1, now, change))
        }
    }
}

/// Every change of the log came before the instant `t`.
pub open spec fn all_before(log: ChangeLog, t: u64) -> bool {
    forall|i: int| 0 <= i < log.len() ==> (#[trigger] log[i]).0 < t
}

/// Every submessage came before the instant `t`.
pub open spec fn came_before(arrivals: Seq<(DataView, u64)>, t: u64) -> bool {
    forall|k: int| 0 <= k < arrivals.len() ==> (#[trigger] arrivals[k]).1 < t
}

/// Whether the log holds the change that the writer gave the number `v`.
pub open spec fn holds_number(log: ChangeLog, writer: GUID, v: int) -> bool {
    exists|i: int|
        0 <= i < log.len() && (#[trigger] log[i]).1.writer_guid == writer
            && log[i].1.sequence_number.0 == v
}

/// Reliable delivery into the cache. A reliable reader whose cache holds
/// the changes of a writer in the order of their numbers, none newer than
/// the newest that came, takes DATA submessages of the writer in, each at
/// a later instant than the one before and than all that the cache holds.
/// Whatever the transport loses, repeats or brings out of turn: the cache
/// then still holds the changes of the writer in the order of their
/// numbers, and it holds every change from the one that followed the
/// newest up to the newest that has come. Where the changes up to the
/// number `last` came in the order of their numbers at last, as sending
/// again what is missing makes them, the cache holds them all.
pub proof fn lemma_reliable_delivery(
    proxy: WriterProxyView,
    log: ChangeLog,
    writer: GUID,
    arrivals: Seq<(DataView, u64)>,
    last: int,
)
    requires
        crate::structure::dds_cache::instants_increase(log),
        writer_numbers_ascend(log, writer),
        numbers_up_to(log, writer, proxy.highest_sn_received),
        forall|j: int, k: int| 0 <= j < k < arrivals.len() ==> arrivals[j].1 < arrivals[k].1,
        forall|i: int, k: int|
            0 <= i < log.len() && 0 <= k < arrivals.len() ==> (#[trigger] log[i]).0
                < (#[trigger] arrivals[k]).1,
        come_in_order(numbers_of(arrivals), first_skipped(proxy.highest_sn_received), last),
    ensures
        ({
            let after = after_deliveries(proxy, log, writer, arrivals, true);
            &&& after.0 == after_arrivals(proxy, numbers_of(arrivals), true)
            &&& crate::structure::dds_cache::instants_increase(after.1)
            &&& writer_numbers_ascend(after.1, writer)
            &&& numbers_up_to(after.1, writer, after.0.highest_sn_received)
            &&& forall|v: int|
                first_skipped(proxy.highest_sn_received) <= v <= after.0.highest_sn_received
                    ==> #[trigger] holds_number(after.1, writer, v)
            &&& last >= first_skipped(proxy.highest_sn_received) ==> after.0.highest_sn_received
                >= last
            &&& forall|v: int|
                first_skipped(proxy.highest_sn_received) <= v <= last ==> #[trigger] holds_number(
                    after.1,
                    writer,
                    v,
                )
        }),
{
    lemma_deliveries(proxy, log, writer, arrivals);
    lemma_delivery_completes(proxy, numbers_of(arrivals), last);
}

/// What deliveries leave behind, whatever comes: the reader's proxy is as
/// the numbers that came make it, and the cache holds the changes of the
/// writer in the order of their numbers, every one from the one that
/// followed the newest up to the newest that has come, all of them older
/// than whatever comes later.
proof fn lemma_deliveries(
    proxy: WriterProxyView,
    log: ChangeLog,
    writer: GUID,
    arrivals: Seq<(DataView, u64)>,
)
    requires
        crate::structure::dds_cache::instants_increase(log),
        writer_numbers_ascend(log, writer),
        numbers_up_to(log, writer, proxy.highest_sn_received),
        forall|j: int, k: int| 0 <= j < k < arrivals.len() ==> arrivals[j].1 < arrivals[k].1,
        forall|i: int, k: int|
            0 <= i < log.len() && 0 <= k < arrivals.len() ==> (#[trigger] log[i]).0
                < (#[trigger] arrivals[k]).1,
    ensures
        ({
            let after = after_deliveries(proxy, log, writer, arrivals, true);
            &&& after.0 == after_arrivals(proxy, numbers_of(arrivals), true)
            &&& crate::structure::dds_cache::instants_increase(after.1)
            &&& writer_numbers_ascend(after.1, writer)
            &&& numbers_up_to(after.1, writer, after.0.highest_sn_received)
            &&& after.0.highest_sn_received >= proxy.highest_sn_received
            &&& forall|v: int|
                first_skipped(proxy.highest_sn_received) <= v <= after.0.highest_sn_received
                    ==> #[trigger] holds_number(after.1, writer, v)
            &&& forall|t: u64|
                came_before(arrivals, t) && all_before(log, t) ==> #[trigger] all_before(
                    after.1,
                    t,
                )
        }),
    decreases arrivals.len(),
{
    let numbers = numbers_of(arrivals);
    if arrivals.len() > 0 {
        let head = arrivals.drop_last();
        assert(numbers_of(head) =~= numbers.drop_last());
        assert forall|j: int, k: int| 0 <= j < k < head.len() implies head[j].1 < head[k].1 by {
            assert(head[j] == arrivals[j] && head[k] == arrivals[k]);
        }
        assert forall|i: int, k: int| 0 <= i < log.len() && 0 <= k < head.len() implies (
        #[trigger] log[i]).0 < (#[trigger] head[k]).1 by {
            assert(head[k] == arrivals[k]);
        }
        lemma_deliveries(proxy, log, writer, head);
        let before = after_deliveries(proxy, log, writer, head, true);
        let after = after_deliveries(proxy, log, writer, arrivals, true);
        let (data, now) = arrivals.last();
        let sn = data.writer_sn.0 as int;
        let change = change_of_data(data, writer);
        assert(numbers.last() == sn);
        // all that the cache holds came before this submessage
        assert(came_before(head, now)) by {
            assert forall|k: int| 0 <= k < head.len() implies (#[trigger] head[k]).1 < now by {
                assert(head[k] == arrivals[k]);
            }
        }
        assert(all_before(log, now)) by {
            assert forall|i0: int| 0 <= i0 < log.len() implies (#[trigger] log[i0]).0 < now by {
                assert(log[i0].0 < arrivals[arrivals.len() - 1].1);
            }
        }
        assert(all_before(before.1, now));
        if before.0.accepts(sn, true) {
            lemma_changes_stay_in_order(before.1, now, change, before.0, true);
            assert(after.1 == before.1.push((now, change)));
            assert(after.0 == before.0.after_data(sn));
            assert forall|i: int, j: int| 0 <= i < j < after.1.len() implies after.1[i].0
                < after.1[j].0 by {
                assert(after.1[i] == before.1[i]);
                if j < before.1.len() {
                    assert(after.1[j] == before.1[j]);
                }
            }
            assert forall|v: int|
                first_skipped(proxy.highest_sn_received) <= v
                    <= after.0.highest_sn_received implies #[trigger] holds_number(
                after.1,
                writer,
                v,
            ) by {
                if v == sn {
                    assert(after.1[after.1.len() - 1].1.sequence_number.0 == v);
                } else {
                    assert(v <= before.0.highest_sn_received);
                    assert(holds_number(before.1, writer, v));
                    let i = choose|i: int|
                        0 <= i < before.1.len() && (#[trigger] before.1[i]).1.writer_guid == writer
                            && before.1[i].1.sequence_number.0 == v;
                    assert(after.1[i] == before.1[i]);
                }
            }
            assert forall|t: u64| came_before(arrivals, t) && all_before(log, t) implies #[trigger] all_before(
                after.1,
                t,
            ) by {
                assert(came_before(head, t)) by {
                    assert forall|k: int| 0 <= k < head.len() implies (#[trigger] head[k]).1
                        < t by {
                        assert(head[k] == arrivals[k]);
                    }
                }
                assert(all_before(before.1, t));
                assert forall|i: int| 0 <= i < after.1.len() implies (#[trigger] after.1[i]).0
                    < t by {
                    if i < before.1.len() {
                        assert(after.1[i] == before.1[i]);
                    } else {
                        assert(arrivals[arrivals.len() - 1].1 < t);
                    }
                }
            }
        } else {
            assert(after == before);
            assert forall|t: u64| came_before(arrivals, t) && all_before(log, t) implies #[trigger] all_before(
                after.1,
                t,
            ) by {
                assert(came_before(head, t)) by {
                    assert forall|k: int| 0 <= k < head.len() implies (#[trigger] head[k]).1
                        < t by {
                        assert(head[k] == arrivals[k]);
                    }
                }
            }
        }
    } else {
        assert forall|v: int|
            first_skipped(proxy.highest_sn_received) <= v
                <= proxy.highest_sn_received implies #[trigger] holds_number(log, writer, v) by {
        }
    }
}

/// What became of a DATA submessage.
#[derive(Debug, Clone, Copy, PartialEq, Eq, Structural)]
pub enum DataOutcome {
    /// The writer is not matched; nothing was done.
    UnknownWriter,
    /// The change had come before, or comes before its turn; nothing was
    /// done.
    NotAccepted,
    /// The change is in the cache; the application is to be told.
    Stored,
    /// The cache held the change already, as another reader of the topic
    /// had stored it; it counts as received, and the application is to be
    /// told.
    AlreadyCached,
    /// The cache did not take the change; nothing else was done.
    CacheRejected(CacheError),
}

/// What became of a HEARTBEAT submessage.
pub enum HeartbeatOutcome {
    /// The writer is not matched; nothing was done.
    UnknownWriter,
    /// The heartbeat is a replay; nothing was done.
    Replay,
    /// The heartbeat was taken in and asks for no answer.
    NoAnswer,
    /// The heartbeat was taken in; an answer is due, but the last one is
    /// too recent.
    Suppressed,
    /// The heartbeat was taken in; this answer is to be sent.
    Answer(AckNack),
}

/// The count after `count`; the greatest count is followed by the least.
pub open spec fn next_count(count: i32) -> i32 {
    if count < i32::MAX {
        (count + 1) as i32
    } else {
        i32::MIN
    }
}

/// The instant `delay` nanoseconds after `now`, or the last instant there
/// is.
pub open spec fn instant_after(now: u64, delay: u64) -> u64 {
    if now + delay <= u64::MAX {
        (now + delay) as u64
    } else {
        u64::MAX
    }
}

impl WriterProxy {
    /// What a reader knows of a writer it has heard nothing from.
    pub fn new(
        remote_writer_guid: GUID,
        unicast_locators: Vec<Locator>,
        multicast_locators: Vec<Locator>,
    ) -> (p: WriterProxy)
        ensures
            p@ == (WriterProxyView {
                writer_guid: remote_writer_guid,
                unicast_locators: unicast_locators@,
                multicast_locators: multicast_locators@,
                highest_sn_received: SEQUENCE_NUMBER_BEFORE_ALL as int,
                missing_samples: Set::<int>::empty(),
                last_heartbeat_count: 0,
            }),
    {
        let p = WriterProxy {
            remote_writer_guid,
            unicast_locators,
            multicast_locators,
            highest_sn_received: SequenceNumber(SEQUENCE_NUMBER_BEFORE_ALL),
            announced: 0,
            settled: Vec::new(),
            last_heartbeat_count: 0,
        };
        assert(p@.missing_samples =~= Set::<int>::empty());
        p
    }

    /// The writer.
    pub fn remote_writer_guid(&self) -> (g: GUID)
        ensures
            g == self@.writer_guid,
    {
        self.remote_writer_guid
    }

    /// The greatest number of a change that has come from the writer, or
    /// that the writer has said will not come.
    pub fn highest_sn_received(&self) -> (n: SequenceNumber)
        ensures
            n.0 == self@.highest_sn_received,
    {
        self.highest_sn_received
    }

    /// What is missing is yet to come.
    pub proof fn lemma_missing_is_ahead(&self)
        ensures
            self@.missing_is_ahead(),
    {
    }

    /// The number that follows the newest that came, if there is one.
    fn next(&self) -> (r: Option<i64>)
        ensures
            match r {
                Some(next) => next == first_skipped(self@.highest_sn_received),
                None => self@.highest_sn_received == i64::MAX,
            },
    {
        let highest = self.highest_sn_received.0;
        if highest < 0 {
            Some(1)
        } else if highest < i64::MAX {
            Some(highest + 1)
        } else {
            None
        }
    }

    /// Whether the change with the number `sn` is known to be missing.
    pub fn is_missing(&self, sn: SequenceNumber) -> (b: bool)
        ensures
            b == self@.missing_samples.contains(sn.0 as int),
    {
        match self.next() {
            Some(next) => next <= sn.0 && sn.0 <= self.announced && !is_covered(
                &self.settled,
                sn.0,
            ),
            None => false,
        }
    }

    /// Whether no change is known to be missing.
    pub fn nothing_missing(&self) -> (b: bool)
        ensures
            b == (self@.missing_samples == Set::<int>::empty()),
    {
        let found = match self.next() {
            Some(next) => first_uncovered(&self.settled, next, self.announced),
            None => None,
        };
        proof {
            match found {
                Some(v) => {
                    assert(self@.missing_samples.contains(v as int));
                },
                None => {
                    assert(self@.missing_samples =~= Set::<int>::empty());
                },
            }
        }
        found.is_none()
    }

    /// Whether a change with the number `sn` is taken in by a reader that
    /// is reliable or not.
    pub fn accepts(&self, sn: SequenceNumber, reliable: bool) -> (b: bool)
        ensures
            b == self@.accepts(sn.0 as int, reliable),
    {
        if !reliable {
            sn.0 > self.highest_sn_received.0
        } else {
            match self.next() {
                Some(next) => sn.0 == next,
                None => false,
            }
        }
    }

    /// Notes that the change with the number `sn` has been taken in.
    pub fn received(&mut self, sn: SequenceNumber)
        ensures
            final(self)@ == old(self)@.after_data(sn.0 as int),
    {
        if sn.0 > self.highest_sn_received.0 {
            self.highest_sn_received = sn;
            assert(self@.missing_samples =~= old(self)@.after_data(sn.0 as int).missing_samples);
        }
    }

    /// Takes in a heartbeat that announces the numbers from `first` to
    /// `last`, and says whether it did: a heartbeat whose count is not
    /// greater than the last one's is a replay and changes nothing.
    pub fn heard(&mut self, first: SequenceNumber, last: SequenceNumber, count: i32) -> (new: bool)
        ensures
            new == old(self)@.heartbeat_is_new(count as int),
            final(self)@ == if new {
                old(self)@.after_heartbeat(first.0 as int, last.0 as int, count as int)
            } else {
                old(self)@
            },
    {
        if count <= self.last_heartbeat_count {
            return false;
        }
        if first.0 > self.highest_sn_received.0 {
            self.highest_sn_received = SequenceNumber(first.0 - 1);
        }
        self.announced = last.0;
        self.settled = Vec::new();
        self.last_heartbeat_count = count;
        assert(self@.missing_samples =~= old(self)@.after_heartbeat(
            first.0 as int,
            last.0 as int,
            count as int,
        ).missing_samples);
        true
    }

    /// Takes in a gap: the numbers from `gap_start` up to the base of
    /// `gap_list`, and those that the list holds, stand for no change.
    pub fn skipped(&mut self, gap_start: SequenceNumber, gap_list: &SequenceNumberSet)
        requires
            gap_list.wf(),
        ensures
            final(self)@ == old(self)@.after_gap(
                gap_numbers(gap_start.0 as int, gap_list.spec_base(), gap_list.members()),
            ),
    {
        let ghost gone = gap_numbers(gap_start.0 as int, gap_list.spec_base(), gap_list.members());
        let ghost before = self@;
        let ghost settled_before = self.settled@;
        let base = gap_list.base().0;
        let highest = self.highest_sn_received.0;
        let announced = self.announced;
        let n = gap_list.num_bits();
        assert forall|v: int|
            gone.contains(v) <==> ((gap_start.0 <= v <= base - 1) || gap_list.spec_contains(v)) by {
            assert(gap_list.members().contains(v) == gap_list.spec_contains(v));
        }
        // the numbers of the gap are settled
        if gap_start.0 < base {
            self.settled.push((gap_start.0, base - 1));
            assert forall|v: int| covered(self.settled@, v) <==> (covered(settled_before, v) || (
            gap_start.0 <= v <= base - 1)) by {
                if covered(settled_before, v) {
                    let k = choose|k: int|
                        0 <= k < settled_before.len() && (#[trigger] settled_before[k]).0 <= v
                            <= settled_before[k].1;
                    assert(self.settled@[k] == settled_before[k]);
                }
                if gap_start.0 <= v <= base - 1 {
                    assert(self.settled@[settled_before.len() as int].0 <= v
                        <= self.settled@[settled_before.len() as int].1);
                }
                if covered(self.settled@, v) {
                    let k = choose|k: int|
                        0 <= k < self.settled@.len() && (#[trigger] self.settled@[k]).0 <= v
                            <= self.settled@[k].1;
                    if k < settled_before.len() {
                        assert(settled_before[k] == self.settled@[k]);
                    }
                }
            }
        }
        let mut i: usize = 0;
        while i < n
            invariant
                n == gap_list.spec_bits().len(),
                gap_list.wf(),
                base == gap_list.spec_base(),
                i <= n,
                self.highest_sn_received == old(self).highest_sn_received,
                self.announced == old(self).announced,
                self.last_heartbeat_count == old(self).last_heartbeat_count,
                self.remote_writer_guid == old(self).remote_writer_guid,
                self.unicast_locators == old(self).unicast_locators,
                self.multicast_locators == old(self).multicast_locators,
                forall|v: int|
                    covered(self.settled@, v) <==> (covered(settled_before, v) || (gap_start.0 <= v
                        <= base - 1) || (v < base + i && gap_list.spec_contains(v))),
            decreases n - i,
        {
            let ghost so_far = self.settled@;
            if gap_list.bit(i) {
                let number: i64 = (base as i128 + i as i128) as i64;
                self.settled.push((number, number));
                assert(gap_list.spec_contains(number as int));
                assert forall|v: int| covered(self.settled@, v) <==> (covered(so_far, v) || v
                    == number) by {
                    if covered(so_far, v) {
                        let k = choose|k: int|
                            0 <= k < so_far.len() && (#[trigger] so_far[k]).0 <= v <= so_far[k].1;
                        assert(self.settled@[k] == so_far[k]);
                    }
                    if v == number {
                        assert(self.settled@[so_far.len() as int].0 <= v
                            <= self.settled@[so_far.len() as int].1);
                    }
                    if covered(self.settled@, v) {
                        let k = choose|k: int|
                            0 <= k < self.settled@.len() && (#[trigger] self.settled@[k]).0 <= v
                                <= self.settled@[k].1;
                        if k < so_far.len() {
                            assert(so_far[k] == self.settled@[k]);
                        }
                    }
                }
            } else {
                assert(!gap_list.spec_contains(base + i));
            }
            let ghost done = i as int;
            i += 1;
            assert forall|v: int|
                covered(self.settled@, v) <==> (covered(settled_before, v) || (gap_start.0 <= v
                    <= base - 1) || (v < base + i && gap_list.spec_contains(v))) by {
                assert(covered(so_far, v) <==> (covered(settled_before, v) || (gap_start.0 <= v
                    <= base - 1) || (v < base + done && gap_list.spec_contains(v))));
                if self.settled@.len() > so_far.len() {
                    assert(covered(self.settled@, v) <==> (covered(so_far, v) || v == base
                        + done));
                    assert(gap_list.spec_contains(base + done));
                } else {
                    assert(self.settled@ == so_far);
                    assert(!gap_list.spec_contains(base + done));
                }
            }
        }
        proof {
            assert forall|v: int| covered(self.settled@, v) <==> (covered(settled_before, v)
                || gone.contains(v)) by {
                if v >= base + n {
                    assert(!gap_list.spec_contains(v));
                }
            }
        }
        // those that follow the newest that came without a break have come
        let mut m: i64 = highest;
        if highest < i64::MAX {
            let next: i64 = if highest < 0 {
                1
            } else {
                highest + 1
            };
            if gap_start.0 <= next && next < base {
                m = base - 1;
            }
        }
        loop
            invariant_except_break
                gap_list.wf(),
                base == gap_list.spec_base(),
                n == gap_list.spec_bits().len(),
                highest == before.highest_sn_received,
                forall|v: int|
                    gone.contains(v) <==> ((gap_start.0 <= v <= base - 1) || gap_list.spec_contains(v)),
                m == highest || m >= first_skipped(highest as int),
                forall|v: int| first_skipped(highest as int) <= v <= m ==> gone.contains(v),
                !(gap_start.0 <= first_skipped(m as int) <= base - 1),
            ensures
                ends_run(highest as int, gone, m as int),
            decreases
                    if m < base {
                        n + 1
                    } else {
                        base + n - m
                    },
        {
            if m == i64::MAX {
                assert(!gap_list.spec_contains(first_skipped(m as int)));
                break ;
            }
            let next: i64 = if m < 0 {
                1
            } else {
                m + 1
            };
            if !gap_list.contains(SequenceNumber(next)) {
                break ;
            }
            m = next;
        }
        proof {
            lemma_run_end(highest as int, gone, m as int);
        }
        self.highest_sn_received = SequenceNumber(m);
        proof {
            let after = before.after_gap(gone);
            assert forall|v: int| self@.missing_samples.contains(v)
                <==> after.missing_samples.contains(v) by {
                if first_skipped(highest as int) <= v < first_skipped(m as int) {
                    assert(gone.contains(v));
                }
            }
            assert(self@.missing_samples =~= after.missing_samples);
        }
    }

    /// The window that an acknowledgement to the writer reports: from the
    /// first number that has not been received, a bit for each number up to
    /// the greatest missing one, set where the number is missing.
    pub fn acknack_window(&self) -> (w: SequenceNumberSet)
        ensures
            w.wf(),
            w.spec_base() == self@.acknack_base(),
            w.spec_bits().len() == self@.acknack_num_bits(),
            forall|n: int|
                w.spec_contains(n) <==> (w.spec_base() <= n < w.spec_base() + w.spec_bits().len()
                    && self@.missing_samples.contains(n)),
    {
        let base: i64 = match self.next() {
            Some(next) => next,
            None => {
                assert(self@.missing_samples =~= Set::<int>::empty());
                return SequenceNumberSet::new(self.highest_sn_received);
            },
        };
        let most = match last_uncovered(&self.settled, base, self.announced) {
            Some(most) => most,
            None => {
                assert(self@.missing_samples =~= Set::<int>::empty());
                return SequenceNumberSet::new(SequenceNumber(base));
            },
        };
        proof {
            let missing = self@.missing_samples;
            assert(missing.contains(most as int));
            assert(missing != Set::<int>::empty());
            let g = greatest_of(missing);
            assert(missing.contains(g) && forall|w: int| missing.contains(w) ==> g >= w);
            assert(g == most);
        }
        let span: i128 = (most as i128) - (base as i128) + 1;
        let num_bits: usize = if span > SEQUENCE_NUMBER_SET_MAX_BITS as i128 {
            SEQUENCE_NUMBER_SET_MAX_BITS
        } else {
            span as usize
        };
        let mut bits: Vec<bool> = Vec::new();
        let mut i: usize = 0;
        while i < num_bits
            invariant
                i <= num_bits,
                num_bits <= SEQUENCE_NUMBER_SET_MAX_BITS,
                base + num_bits - 1 <= most <= self.announced,
                base == first_skipped(self@.highest_sn_received),
                bits@.len() == i,
                forall|k: int|
                    0 <= k < i ==> bits@[k] == self@.missing_samples.contains(base + k),
            decreases num_bits - i,
        {
            let number: i64 = (base as i128 + i as i128) as i64;
            bits.push(!is_covered(&self.settled, number));
            i += 1;
        }
        match SequenceNumberSet::from_bits(SequenceNumber(base), bits) {
            Some(window) => window,
            None => {
                assert(false);
                SequenceNumberSet::new(SequenceNumber(base))
            },
        }
    }
}

/// The writer that a proxy is of.
pub open spec fn proxy_guid() -> spec_fn(WriterProxy) -> GUID {
    |p: WriterProxy| p@.writer_guid
}

/// What a proxy stands for.
pub open spec fn proxy_view() -> spec_fn(WriterProxy) -> WriterProxyView {
    |p: WriterProxy| p@
}

/// The endpoints of the participant with the prefix `prefix`.
pub open spec fn endpoints_of(prefix: GuidPrefix) -> Set<GUID> {
    Set::new(|g: GUID| g.guidPrefix == prefix)
}

/// The receiving side of one topic.
pub struct Reader {
    guid: GUID,
    topic_name: String,
    reliable: bool,
    matched_writers: Vec<WriterProxy>,
    sent_ack_nack_count: i32,
    nack_suppression_nanos: u64,
    acknack_not_before: u64,
}

/// What a `Reader` stands for.
pub struct ReaderView {
    pub guid: GUID,
    pub topic_name: Seq<char>,
    pub reliable: bool,
    /// What the reader knows of each matched writer.
    pub writers: Map<GUID, WriterProxyView>,
    /// The count of the last acknowledgement that the reader gave out.
    pub sent_ack_nack_count: i32,
    /// How long the reader holds back after an acknowledgement, in nanoseconds.
    pub nack_suppression_nanos: u64,
    /// The instant before which the reader gives out no acknowledgement.
    pub acknack_not_before: u64,
}

impl View for Reader {
    type V = ReaderView;

    closed spec fn view(&self) -> ReaderView {
        ReaderView {
            guid: self.guid,
            topic_name: self.topic_name@,
            reliable: self.reliable,
            writers: list_map(self.matched_writers@, proxy_guid(), proxy_view()),
            sent_ack_nack_count: self.sent_ack_nack_count,
            nack_suppression_nanos: self.nack_suppression_nanos,
            acknack_not_before: self.acknack_not_before,
        }
    }
}

impl Reader {
    /// A reader of the topic `topic_name` without matched writers.
    pub fn new(guid: GUID, topic_name: String, reliable: bool) -> (r: Reader)
        ensures
            r@ == (ReaderView {
                guid,
                topic_name: topic_name@,
                reliable,
                writers: Map::<GUID, WriterProxyView>::empty(),
                sent_ack_nack_count: 0,
                nack_suppression_nanos: DEFAULT_NACK_SUPPRESSION_NANOS,
                acknack_not_before: 0,
            }),
    {
        Reader {
            guid,
            topic_name,
            reliable,
            matched_writers: Vec::new(),
            sent_ack_nack_count: 0,
            nack_suppression_nanos: DEFAULT_NACK_SUPPRESSION_NANOS,
            acknack_not_before: 0,
        }
    }

    /// The reader's identifier.
    pub fn get_guid(&self) -> (g: GUID)
        ensures
            g == self@.guid,
    {
        self.guid
    }

    /// The reader's identifier within its participant.
    pub fn get_entity_id(&self) -> (e: EntityId)
        ensures
            e == self@.guid.entityId,
    {
        self.guid.entityId
    }

    /// Whether lost changes are asked for again.
    pub fn is_reliable(&self) -> (b: bool)
        ensures
            b == self@.reliable,
    {
        self.reliable
    }

    /// Sets how long the reader holds back after an acknowledgement.
    pub fn set_nack_suppression(&mut self, nanos: u64)
        ensures
            final(self)@ == (ReaderView { nack_suppression_nanos: nanos, ..old(self)@ }),
    {
        self.nack_suppression_nanos = nanos;
    }

    /// Where the proxy of the writer stands, if the writer is matched.
    fn find_writer(&self, guid: &GUID) -> (r: Option<usize>)
        ensures
            match r {
                Some(i) => {
                    &&& is_last_match(self.matched_writers@, proxy_guid(), i as int)
                    &&& self.matched_writers@[i as int]@.writer_guid == *guid
                    &&& self@.writers.dom().contains(*guid)
                    &&& self@.writers[*guid] == self.matched_writers@[i as int]@
                },
                None => !self@.writers.dom().contains(*guid),
            },
    {
        let n = self.matched_writers.len();
        let mut i: usize = n;
        while i > 0
            invariant
                n == self.matched_writers@.len(),
                i <= n,
                forall|j: int|
                    i <= j < n ==> proxy_guid()(#[trigger] self.matched_writers@[j]) != *guid,
            decreases i,
        {
            i -= 1;
            if self.matched_writers[i].remote_writer_guid == *guid {
                proof {
                    lemma_last_match(self.matched_writers@, proxy_guid(), proxy_view(), i as int);
                }
                return Some(i);
            }
        }
        proof {
            lemma_no_match(self.matched_writers@, proxy_guid(), proxy_view(), *guid);
        }
        None
    }

    /// What the reader knows of the writer, if the writer is matched.
    pub fn matched_writer_lookup(&self, guid: GUID) -> (r: Option<&WriterProxy>)
        ensures
            match r {
                Some(proxy) => self@.writers.dom().contains(guid) && self@.writers[guid] == proxy@,
                None => !self@.writers.dom().contains(guid),
            },
    {
        match self.find_writer(&guid) {
            Some(i) => Some(&self.matched_writers[i]),
            None => None,
        }
    }

    /// Matches the writer, and says whether it did: a writer that is
    /// matched stays as the reader knows it.
    pub fn matched_writer_add(
        &mut self,
        remote_writer_guid: GUID,
        remote_group_entity_id: EntityId,
        unicast_locator_list: Vec<Locator>,
        multicast_locator_list: Vec<Locator>,
    ) -> (added: bool)
        ensures
            added == !old(self)@.writers.dom().contains(remote_writer_guid),
            final(self)@ == if added {
                ReaderView {
                    writers: old(self)@.writers.insert(
                        remote_writer_guid,
                        WriterProxyView {
                            writer_guid: remote_writer_guid,
                            unicast_locators: unicast_locator_list@,
                            multicast_locators: multicast_locator_list@,
                            highest_sn_received: SEQUENCE_NUMBER_BEFORE_ALL as int,
                            missing_samples: Set::<int>::empty(),
                            last_heartbeat_count: 0,
                        },
                    ),
                    ..old(self)@
                }
            } else {
                old(self)@
            },
    {
        match self.find_writer(&remote_writer_guid) {
            Some(_) => false,
            None => {
                let ghost before = self.matched_writers@;
                let proxy = WriterProxy::new(
                    remote_writer_guid,
                    unicast_locator_list,
                    multicast_locator_list,
                );
                self.matched_writers.push(proxy);
                assert(self.matched_writers@.drop_last() =~= before);
                true
            },
        }
    }

    /// Takes out the proxy of the writer `guid`, or the proxies of all
    /// writers of its participant, and says how many they were.
    fn remove_writers(&mut self, guid: GUID, whole_participant: bool) -> (removed: usize)
        ensures
            final(self)@ == (ReaderView {
                writers: old(self)@.writers.remove_keys(
                    if whole_participant {
                        endpoints_of(guid.guidPrefix)
                    } else {
                        set![guid]
                    },
                ),
                ..old(self)@
            }),
            removed == old(self).matched_writers@.len() - final(self).matched_writers@.len(),
            removed == 0 <==> final(self).matched_writers@ == old(self).matched_writers@,
    {
        let ghost gone = if whole_participant {
            endpoints_of(guid.guidPrefix)
        } else {
            set![guid]
        };
        let ghost list = self.matched_writers@;
        let ghost mut j: int = 0;
        let total = self.matched_writers.len();
        let mut i: usize = 0;
        let mut removed: usize = 0;
        proof {
            assert(list.take(0) =~= Seq::<WriterProxy>::empty());
            assert(list.skip(0) =~= list);
            assert(self.matched_writers@ =~= without_keys(list.take(0), proxy_guid(), gone)
                + list.skip(0));
        }
        while i < self.matched_writers.len()
            invariant
                0 <= j <= list.len(),
                total == list.len(),
                i == without_keys(list.take(j), proxy_guid(), gone).len(),
                removed == j - i,
                self.matched_writers@ == without_keys(list.take(j), proxy_guid(), gone) + list.skip(
                    j,
                ),
                self.guid == old(self).guid,
                self.topic_name == old(self).topic_name,
                self.reliable == old(self).reliable,
                self.sent_ack_nack_count == old(self).sent_ack_nack_count,
                self.nack_suppression_nanos == old(self).nack_suppression_nanos,
                self.acknack_not_before == old(self).acknack_not_before,
                gone == if whole_participant {
                    endpoints_of(guid.guidPrefix)
                } else {
                    set![guid]
                },
                removed == 0 ==> self.matched_writers@ == list,
            decreases list.len() - j,
        {
            let ghost kept = without_keys(list.take(j), proxy_guid(), gone);
            proof {
                assert(list.skip(j).len() > 0);
                assert(self.matched_writers@[i as int] == list.skip(j)[0]);
                let upto = list.take(j + 1);
                assert(upto.drop_last() =~= list.take(j));
                assert(upto.last() == list[j]);
                assert(list.skip(j + 1) =~= list.skip(j).skip(1));
            }
            let writer = self.matched_writers[i].remote_writer_guid;
            let goes = if whole_participant {
                writer.guidPrefix == guid.guidPrefix
            } else {
                writer == guid
            };
            assert(goes == gone.contains(proxy_guid()(list[j])));
            if goes {
                self.matched_writers.remove(i);
                removed += 1;
                proof {
                    assert(self.matched_writers@ =~= kept + list.skip(j + 1));
                }
            } else {
                i += 1;
                proof {
                    assert(self.matched_writers@ =~= kept.push(list[j]) + list.skip(j + 1));
                }
            }
            proof {
                j = j + 1;
            }
        }
        proof {
            assert(list.skip(j).len() == 0);
            assert(list.take(j) =~= list);
            assert(self.matched_writers@ =~= without_keys(list, proxy_guid(), gone));
            lemma_without_keys(list, proxy_guid(), proxy_view(), gone);
        }
        removed
    }

    /// Unmatches the writer, and says whether it was matched.
    pub fn matched_writer_remove(&mut self, guid: GUID) -> (removed: bool)
        ensures
            removed == old(self)@.writers.dom().contains(guid),
            final(self)@ == (ReaderView { writers: old(self)@.writers.remove(guid), ..old(self)@ }),
    {
        let found = self.find_writer(&guid);
        let n = self.remove_writers(guid, false);
        proof {
            assert(old(self)@.writers.remove_keys(set![guid]) =~= old(self)@.writers.remove(guid));
            if found is None {
                assert(self@.writers =~= old(self)@.writers);
            }
        }
        found.is_some()
    }

    /// Unmatches every writer of the participant with the prefix `prefix`,
    /// which is lost.
    pub fn remove_writers_of(&mut self, prefix: GuidPrefix)
        ensures
            final(self)@ == (ReaderView {
                writers: old(self)@.writers.remove_keys(endpoints_of(prefix)),
                ..old(self)@
            }),
    {
        self.remove_writers(GUID { guidPrefix: prefix, entityId: EntityId::unknown() }, true);
    }

    /// Takes in a DATA submessage of the datagram that `mr_state` describes,
    /// which came at `now`.
    ///
    /// The change is taken in where its writer is matched and its turn has
    /// come: a reliable reader takes in the change that follows the newest
    /// that came from the writer, another reader every change that is newer
    /// than the newest that came. It is then added to the cache under the
    /// reader's topic as having come at `now`, unless the cache holds it
    /// already, and the writer's proxy notes it as received. Where the cache
    /// has no such topic or holds another change of that instant, the proxy
    /// stays as it is.
    pub fn handle_data_msg(
        &mut self,
        data: Data,
        mr_state: MessageReceiverState,
        dds_cache: &mut DDSCache,
        now: u64,
    ) -> (outcome: DataOutcome)
        requires
            old(dds_cache).wf(),
        ensures
            final(dds_cache).wf(),
            ({
                let writer = GUID {
                    guidPrefix: mr_state.source_guid_prefix,
                    entityId: data@.writer_id,
                };
                let before = old(self)@;
                let sn = data@.writer_sn.0 as int;
                let topic = before.topic_name;
                let change = change_of_data(data@, writer);
                if !before.writers.dom().contains(writer) {
                    &&& outcome == DataOutcome::UnknownWriter
                    &&& final(self)@ == before
                    &&& final(dds_cache)@ == old(dds_cache)@
                } else if !before.writers[writer].accepts(sn, before.reliable) {
                    &&& outcome == DataOutcome::NotAccepted
                    &&& final(self)@ == before
                    &&& final(dds_cache)@ == old(dds_cache)@
                } else if !old(dds_cache)@.dom().contains(topic) {
                    &&& outcome == DataOutcome::CacheRejected(CacheError::UnknownTopic)
                    &&& final(self)@ == before
                    &&& final(dds_cache)@ == old(dds_cache)@
                } else {
                    let log = old(dds_cache)@[topic];
                    &&& final(dds_cache)@ == old(dds_cache)@.insert(
                        topic,
                        log_after_add(log, now, change),
                    )
                    &&& if !crate::structure::dds_cache::holds_identity(log, change.identity())
                        && crate::structure::dds_cache::holds_instant(log, now) {
                        &&& outcome == DataOutcome::CacheRejected(CacheError::InstantTaken)
                        &&& final(self)@ == before
                    } else {
                        &&& outcome == if crate::structure::dds_cache::holds_identity(
                            log,
                            change.identity(),
                        ) {
                            DataOutcome::AlreadyCached
                        } else {
                            DataOutcome::Stored
                        }
                        &&& final(self)@ == (ReaderView {
                            writers: before.writers.insert(
                                writer,
                                before.writers[writer].after_data(sn),
                            ),
                            ..before
                        })
                    }
                }
            }),
    {
        let writer_guid = GUID::new_with_prefix_and_id(mr_state.source_guid_prefix, data.writer_id);
        let seq_num = data.writer_sn;
        let i = match self.find_writer(&writer_guid) {
            Some(i) => i,
            None => {
                return DataOutcome::UnknownWriter;
            },
        };
        if !self.matched_writers[i].accepts(seq_num, self.reliable) {
            return DataOutcome::NotAccepted;
        }
        let holds_key = data.payload_is_key && data.serialized_payload.is_some();
        let kind = if data.serialized_payload.is_some() && !holds_key {
            ChangeKind::ALIVE
        } else {
            match &data.inline_qos {
                Some(qos) => match qos.status_info {
                    Some(status) => status.change_kind(),
                    None => ChangeKind::ALIVE,
                },
                None => ChangeKind::ALIVE,
            }
        };
        let data_value = if holds_key && kind == ChangeKind::ALIVE {
            None
        } else {
            data.serialized_payload
        };
        let instance_key_hash: u128 = match &data.inline_qos {
            Some(qos) => match qos.key_hash {
                Some(hash) => hash.value(),
                None => 0,
            },
            None => 0,
        };
        let change = CacheChange::new(kind, writer_guid, seq_num, data_value, instance_key_hash);
        assert(change@ == change_of_data(data@, writer_guid));
        let outcome = match dds_cache.add_change(&self.topic_name, now, change) {
            Ok(()) => DataOutcome::Stored,
            Err(CacheError::DuplicateChange) => DataOutcome::AlreadyCached,
            Err(e) => {
                return DataOutcome::CacheRejected(e);
            },
        };
        let ghost list = self.matched_writers@;
        self.matched_writers[i].received(seq_num);
        proof {
            assert(self.matched_writers@ =~= list.update(i as int, self.matched_writers@[i as int]));
            lemma_update(list, proxy_guid(), proxy_view(), i as int, self.matched_writers@[i as int]);
        }
        outcome
    }

    /// Takes in a HEARTBEAT submessage of the datagram that `mr_state`
    /// describes, which came at `now`.
    ///
    /// A heartbeat of a matched writer whose count is greater than the last
    /// one's sets what is missing, and what will not come any more counts
    /// as having come. A reliable reader then owes an answer
    /// where the heartbeat asks for one or something is missing; it gives
    /// the answer unless it gave one less than the suppression time ago.
    pub fn handle_heartbeat_msg(
        &mut self,
        heartbeat: &Heartbeat,
        mr_state: &MessageReceiverState,
        now: u64,
    ) -> (outcome: HeartbeatOutcome)
        ensures
            ({
                let writer = GUID {
                    guidPrefix: mr_state.source_guid_prefix,
                    entityId: heartbeat.writer_id,
                };
                let before = old(self)@;
                if !before.writers.dom().contains(writer) {
                    &&& outcome is UnknownWriter
                    &&& final(self)@ == before
                } else if !before.writers[writer].heartbeat_is_new(heartbeat.count as int) {
                    &&& outcome is Replay
                    &&& final(self)@ == before
                } else {
                    let proxy = before.writers[writer].after_heartbeat(
                        heartbeat.first_sn.0 as int,
                        heartbeat.last_sn.0 as int,
                        heartbeat.count as int,
                    );
                    let heard = ReaderView { writers: before.writers.insert(writer, proxy), ..before };
                    let due = before.reliable && (!heartbeat.final_flag || proxy.missing_samples
                        != Set::<int>::empty());
                    if !due {
                        &&& outcome is NoAnswer
                        &&& final(self)@ == heard
                    } else if now < before.acknack_not_before {
                        &&& outcome is Suppressed
                        &&& final(self)@ == heard
                    } else {
                        &&& outcome is Answer
                        &&& final(self)@ == (ReaderView {
                            sent_ack_nack_count: next_count(before.sent_ack_nack_count),
                            acknack_not_before: instant_after(now, before.nack_suppression_nanos),
                            ..heard
                        })
                        &&& outcome->Answer_0.reader_id == before.guid.entityId
                        &&& outcome->Answer_0.writer_id == heartbeat.writer_id
                        &&& outcome->Answer_0.count == next_count(before.sent_ack_nack_count)
                        &&& outcome->Answer_0.final_flag == (proxy.missing_samples == Set::<
                            int,
                        >::empty())
                        &&& outcome->Answer_0.reader_sn_state.wf()
                        &&& outcome->Answer_0.reader_sn_state.spec_base() == proxy.acknack_base()
                        &&& outcome->Answer_0.reader_sn_state.spec_bits().len()
                            == proxy.acknack_num_bits()
                        &&& forall|n: int|
                            outcome->Answer_0.reader_sn_state.spec_contains(n) <==> (
                            proxy.acknack_base() <= n < proxy.acknack_base()
                                + proxy.acknack_num_bits() && proxy.missing_samples.contains(n))
                    }
                }
            }),
    {
        let writer_guid = GUID::new_with_prefix_and_id(
            mr_state.source_guid_prefix,
            heartbeat.writer_id,
        );
        let i = match self.find_writer(&writer_guid) {
            Some(i) => i,
            None => {
                return HeartbeatOutcome::UnknownWriter;
            },
        };
        let ghost list = self.matched_writers@;
        let new = self.matched_writers[i].heard(heartbeat.first_sn, heartbeat.last_sn, heartbeat.count);
        proof {
            assert(self.matched_writers@ =~= list.update(i as int, self.matched_writers@[i as int]));
            lemma_update(list, proxy_guid(), proxy_view(), i as int, self.matched_writers@[i as int]);
        }
        if !new {
            assert(self@.writers =~= old(self)@.writers);
            return HeartbeatOutcome::Replay;
        }
        let nothing_missing = self.matched_writers[i].nothing_missing();
        let due = self.reliable && (!heartbeat.final_flag || !nothing_missing);
        if !due {
            return HeartbeatOutcome::NoAnswer;
        }
        if now < self.acknack_not_before {
            return HeartbeatOutcome::Suppressed;
        }
        let window = self.matched_writers[i].acknack_window();
        let count = if self.sent_ack_nack_count < i32::MAX {
            self.sent_ack_nack_count + 1
        } else {
            i32::MIN
        };
        self.sent_ack_nack_count = count;
        self.acknack_not_before = if now <= u64::MAX - self.nack_suppression_nanos {
            now + self.nack_suppression_nanos
        } else {
            u64::MAX
        };
        HeartbeatOutcome::Answer(
            AckNack {
                reader_id: self.guid.entityId,
                writer_id: heartbeat.writer_id,
                reader_sn_state: window,
                count,
                final_flag: nothing_missing,
            },
        )
    }

    /// Takes in a GAP submessage of the datagram that `mr_state` describes,
    /// and says whether its writer is matched: the numbers that the gap
    /// names are missing no longer, and those of them that follow the newest
    /// that came from the writer without a break count as having come.
    pub fn handle_gap_msg(&mut self, gap: &Gap, mr_state: &MessageReceiverState) -> (known: bool)
        requires
            gap.gap_list.wf(),
        ensures
            ({
                let writer = GUID { guidPrefix: mr_state.source_guid_prefix, entityId: gap.writer_id };
                let before = old(self)@;
                &&& known == before.writers.dom().contains(writer)
                &&& final(self)@ == if known {
                    ReaderView {
                        writers: before.writers.insert(
                            writer,
                            before.writers[writer].after_gap(
                                gap_numbers(
                                    gap.gap_start.0 as int,
                                    gap.gap_list.spec_base(),
                                    gap.gap_list.members(),
                                ),
                            ),
                        ),
                        ..before
                    }
                } else {
                    before
                }
            }),
    {
        let writer_guid = GUID::new_with_prefix_and_id(mr_state.source_guid_prefix, gap.writer_id);
        let i = match self.find_writer(&writer_guid) {
            Some(i) => i,
            None => {
                return false;
            },
        };
        let ghost list = self.matched_writers@;
        self.matched_writers[i].skipped(gap.gap_start, &gap.gap_list);
        proof {
            assert(self.matched_writers@ =~= list.update(i as int, self.matched_writers@[i as int]));
            lemma_update(list, proxy_guid(), proxy_view(), i as int, self.matched_writers@[i as int]);
        }
        true
    }
}

} // verus!
