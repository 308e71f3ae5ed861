//! The store of changes that readers, writers and the application share: for
//! each topic, its changes in the order of the instants at which they came.

use crate::structure::cache_change::{CacheChange, CacheChangeView};
use crate::structure::guid::GUID;
use crate::structure::sequence_number::SequenceNumber;
use vstd::prelude::*;

verus! {

/// The changes of one topic, each with the instant at which it came, oldest
/// first.
pub type ChangeLog = Seq<(u64, CacheChangeView)>;

/// Each change came at a later instant than the one before it.
pub open spec fn instants_increase(log: ChangeLog) -> bool {
    forall|i: int, j: int| 0 <= i < j < log.len() ==> log[i].0 < log[j].0
}

/// No two changes have the same writer and sequence number.
pub open spec fn identities_differ(log: ChangeLog) -> bool {
    forall|i: int, j: int|
        0 <= i < j < log.len() ==> log[i].1.identity() != log[j].1.identity()
}

/// The log holds a change with this writer and sequence number.
pub open spec fn holds_identity(log: ChangeLog, id: (GUID, SequenceNumber)) -> bool {
    exists|i: int| 0 <= i < log.len() && #[trigger] log[i].1.identity() == id
}

/// The log holds a change that came at this instant.
pub open spec fn holds_instant(log: ChangeLog, instant: u64) -> bool {
    exists|i: int| 0 <= i < log.len() && #[trigger] log[i].0 == instant
}

/// How many changes at the head of the log came before `instant`.
pub open spec fn insertion_point(log: ChangeLog, instant: u64) -> int
    decreases log.len(),
{
    if log.len() == 0 || log[0].0 >= instant {
        0
    } else {
        1 + insertion_point(log.skip(1), instant)
    }
}

/// The log after `add_change`: unchanged where it holds the change's
/// identity or another change of that instant, else with the change in the
/// place that its instant gives it.
pub open spec fn log_after_add(log: ChangeLog, instant: u64, change: CacheChangeView) -> ChangeLog {
    if holds_identity(log, change.identity()) || holds_instant(log, instant) {
        log
    } else {
        log.insert(insertion_point(log, instant), (instant, change))
    }
}

/// The changes of the log that came after `from` and not after `to`, in the
/// log's order.
pub open spec fn log_between(log: ChangeLog, from: u64, to: u64) -> ChangeLog
    decreases log.len(),
{
    if log.len() == 0 {
        Seq::empty()
    } else if from < log.last().0 <= to {
        log_between(log.drop_last(), from, to).push(log.last())
    } else {
        log_between(log.drop_last(), from, to)
    }
}

/// The log without the changes that came before `instant`.
pub open spec fn log_from(log: ChangeLog, instant: u64) -> ChangeLog {
    log.skip(insertion_point(log, instant))
}

/// What `insertion_point` counts: it lies within the log, and in a log of
/// increasing instants every change before it came before `instant` and
/// none from it on did.
pub proof fn lemma_insertion_point(log: ChangeLog, instant: u64)
    requires
        instants_increase(log),
    ensures
        0 <= insertion_point(log, instant) <= log.len(),
        forall|i: int| 0 <= i < insertion_point(log, instant) ==> (#[trigger] log[i]).0 < instant,
        forall|i: int|
            insertion_point(log, instant) <= i < log.len() ==> (#[trigger] log[i]).0 >= instant,
    decreases log.len(),
{
    if log.len() == 0 || log[0].0 >= instant {
    } else {
        let rest = log.skip(1);
        assert forall|i: int, j: int| 0 <= i < j < rest.len() implies rest[i].0 < rest[j].0 by {
            assert(rest[i] == log[i + 1] && rest[j] == log[j + 1]);
        }
        lemma_insertion_point(rest, instant);
        let p = insertion_point(rest, instant);
        assert forall|i: int| 0 <= i < p + 1 implies (#[trigger] log[i]).0 < instant by {
            if i > 0 {
                assert(log[i] == rest[i - 1]);
            }
        }
        assert forall|i: int| p + 1 <= i < log.len() implies (#[trigger] log[i]).0 >= instant by {
            assert(log[i] == rest[i - 1]);
        }
    }
}

/// The place where the changes that came before `instant` end is the
/// insertion point.
pub proof fn lemma_insertion_point_is(log: ChangeLog, instant: u64, p: int)
    requires
        instants_increase(log),
        0 <= p <= log.len(),
        forall|i: int| 0 <= i < p ==> (#[trigger] log[i]).0 < instant,
        p < log.len() ==> log[p].0 >= instant,
    ensures
        insertion_point(log, instant) == p,
{
    lemma_insertion_point(log, instant);
    let q = insertion_point(log, instant);
    if q < p {
        assert(log[q].0 >= instant);
    } else if q > p {
        assert(log[p].0 < instant);
    }
}

/// Adding a change keeps the instants increasing and the identities
/// different, and a change that the log holds is not added again.
pub proof fn lemma_log_after_add(log: ChangeLog, instant: u64, change: CacheChangeView)
    requires
        instants_increase(log),
        identities_differ(log),
    ensures
        instants_increase(log_after_add(log, instant, change)),
        identities_differ(log_after_add(log, instant, change)),
        holds_identity(log, change.identity()) ==> log_after_add(log, instant, change) == log,
        !holds_identity(log, change.identity()) && !holds_instant(log, instant) ==> holds_identity(
            log_after_add(log, instant, change),
            change.identity(),
        ),
{
    let after = log_after_add(log, instant, change);
    if !(holds_identity(log, change.identity()) || holds_instant(log, instant)) {
        lemma_insertion_point(log, instant);
        let p = insertion_point(log, instant);
        assert forall|i: int, j: int| 0 <= i < j < after.len() implies after[i].0 < after[j].0 by {
            if i < p {
                assert(after[i] == log[i]);
            } else if i > p {
                assert(after[i] == log[i - 1]);
            }
            if j < p {
                assert(after[j] == log[j]);
            } else if j > p {
                assert(after[j] == log[j - 1]);
                if i == p {
                    assert(log[j - 1].0 >= instant);
                    assert(log[j - 1].0 != instant);
                }
            }
        }
        assert forall|i: int, j: int| 0 <= i < j < after.len() implies after[i].1.identity()
            != after[j].1.identity() by {
            if i < p {
                assert(after[i] == log[i]);
            } else if i > p {
                assert(after[i] == log[i - 1]);
            }
            if j < p {
                assert(after[j] == log[j]);
            } else if j > p {
                assert(after[j] == log[j - 1]);
            }
            if i == p {
                assert(log[j - 1].1.identity() != change.identity());
            }
            if j == p {
                assert(log[i].1.identity() != change.identity());
            }
        }
        assert(after[p].1.identity() == change.identity());
    }
}

/// What `log_between` holds: changes of the log in its order, each within
/// the range, and every change of the log within the range.
pub proof fn lemma_log_between(log: ChangeLog, from: u64, to: u64)
    ensures
        log_between(log, from, to).len() <= log.len(),
        forall|k: int|
            0 <= k < log_between(log, from, to).len() ==> {
                &&& from < (#[trigger] log_between(log, from, to)[k]).0 <= to
                &&& log.contains(log_between(log, from, to)[k])
            },
        forall|i: int|
            0 <= i < log.len() && from < (#[trigger] log[i]).0 <= to ==> log_between(
                log,
                from,
                to,
            ).contains(log[i]),
        instants_increase(log) ==> instants_increase(log_between(log, from, to)),
        instants_increase(log) && log_between(log, from, to).len() > 0 ==> log_between(
            log,
            from,
            to,
        ).last().0 <= log.last().0,
    decreases log.len(),
{
    let out = log_between(log, from, to);
    if log.len() > 0 {
        let head = log.drop_last();
        let sub = log_between(head, from, to);
        lemma_log_between(head, from, to);
        assert forall|k: int| 0 <= k < out.len() implies {
            &&& from < (#[trigger] out[k]).0 <= to
            &&& log.contains(out[k])
        } by {
            if k < sub.len() {
                assert(out[k] == sub[k]);
                let w = choose|w: int| 0 <= w < head.len() && head[w] == sub[k];
                assert(log[w] == sub[k]);
            } else {
                assert(out[k] == log.last());
                assert(log[log.len() - 1] == out[k]);
            }
        }
        assert forall|i: int| 0 <= i < log.len() && from < (#[trigger] log[i]).0 <= to implies out.contains(
            log[i],
        ) by {
            if i < head.len() {
                assert(head[i] == log[i]);
                assert(sub.contains(head[i]));
                let w = choose|w: int| 0 <= w < sub.len() && sub[w] == head[i];
                assert(out[w] == log[i]);
            } else {
                assert(out[out.len() - 1] == log[i]);
            }
        }
        if instants_increase(log) {
            assert forall|i: int, j: int| 0 <= i < j < head.len() implies head[i].0 < head[j].0 by {
                assert(head[i] == log[i] && head[j] == log[j]);
            }
            if sub.len() > 0 && head.len() > 0 {
                assert(head.last() == log[log.len() - 2]);
                assert(sub.last().0 <= head.last().0);
            }
            assert forall|i: int, j: int| 0 <= i < j < out.len() implies out[i].0 < out[j].0 by {
                if j < sub.len() {
                    assert(out[i] == sub[i] && out[j] == sub[j]);
                } else {
                    assert(out[i] == sub[i]);
                    assert(sub[i].0 <= sub.last().0) by {
                        if i < sub.len() - 1 {
                            assert(sub[i].0 < sub[sub.len() - 1].0);
                        }
                    }
                }
            }
        }
    }
}

/// Whether a change is of the instance with the key hash `key_hash` as the
/// writer `writer` wrote it.
pub open spec fn is_of_instance(change: CacheChangeView, writer: GUID, key_hash: u128) -> bool {
    change.writer_guid == writer && change.instance_key_hash == key_hash
}

/// The log without the oldest changes of one instance by one writer: of
/// these the newest `depth` stay, and every other change stays.
pub open spec fn log_keep_newest(log: ChangeLog, writer: GUID, key_hash: u128, depth: nat) -> ChangeLog
    decreases log.len(),
{
    if log.len() == 0 {
        Seq::empty()
    } else if is_of_instance(log.last().1, writer, key_hash) {
        if depth > 0 {
            log_keep_newest(log.drop_last(), writer, key_hash, (depth - 1) as nat).push(log.last())
        } else {
            log_keep_newest(log.drop_last(), writer, key_hash, 0)
        }
    } else {
        log_keep_newest(log.drop_last(), writer, key_hash, depth).push(log.last())
    }
}

/// The log without the changes of one writer up to the number `up_to`.
pub open spec fn log_without_acknowledged(log: ChangeLog, writer: GUID, up_to: int) -> ChangeLog
    decreases log.len(),
{
    if log.len() == 0 {
        Seq::empty()
    } else if log.last().1.writer_guid == writer && log.last().1.sequence_number.0 <= up_to {
        log_without_acknowledged(log.drop_last(), writer, up_to)
    } else {
        log_without_acknowledged(log.drop_last(), writer, up_to).push(log.last())
    }
}

/// The changes of `part` are changes of `log`, in the order of the log.
pub open spec fn is_part_of(part: ChangeLog, log: ChangeLog) -> bool {
    &&& forall|k: int| 0 <= k < part.len() ==> log.contains(#[trigger] part[k])
    &&& instants_increase(log) ==> instants_increase(part)
    &&& identities_differ(log) ==> identities_differ(part)
    &&& instants_increase(log) && part.len() > 0 ==> part.last().0 <= log.last().0
}

/// A log with one more change, which is newer than all of a part of the
/// log before it, has that part with the change as a part.
proof fn lemma_part_grows(part: ChangeLog, log: ChangeLog, keep_last: bool)
    requires
        log.len() > 0,
        is_part_of(part, log.drop_last()),
    ensures
        is_part_of(
            if keep_last {
                part.push(log.last())
            } else {
                part
            },
            log,
        ),
{
    let head = log.drop_last();
    let out = if keep_last {
        part.push(log.last())
    } else {
        part
    };
    assert forall|k: int| 0 <= k < out.len() implies log.contains(#[trigger] out[k]) by {
        if k < part.len() {
            assert(out[k] == part[k]);
            let w = choose|w: int| 0 <= w < head.len() && head[w] == part[k];
            assert(log[w] == part[k]);
        } else {
            assert(log[log.len() - 1] == out[k]);
        }
    }
    if instants_increase(log) {
        assert forall|i: int, j: int| 0 <= i < j < head.len() implies head[i].0 < head[j].0 by {
            assert(head[i] == log[i] && head[j] == log[j]);
        }
        if part.len() > 0 {
            assert(head.len() > 0);
            assert(head.last() == log[log.len() - 2]);
        }
        assert forall|i: int, j: int| 0 <= i < j < out.len() implies out[i].0 < out[j].0 by {
            if j < part.len() {
                assert(out[i] == part[i] && out[j] == part[j]);
            } else {
                assert(out[i] == part[i]);
                if i < part.len() - 1 {
                    assert(part[i].0 < part[part.len() - 1].0);
                }
            }
        }
    }
    if identities_differ(log) {
        assert forall|i: int, j: int| 0 <= i < j < head.len() implies head[i].1.identity()
            != head[j].1.identity() by {
            assert(head[i] == log[i] && head[j] == log[j]);
        }
        assert forall|i: int, j: int| 0 <= i < j < out.len() implies out[i].1.identity()
            != out[j].1.identity() by {
            if j < part.len() {
                assert(out[i] == part[i] && out[j] == part[j]);
            } else {
                assert(out[i] == part[i]);
                let w = choose|w: int| 0 <= w < head.len() && head[w] == part[i];
                assert(log[w].1.identity() != log[log.len() - 1].1.identity());
            }
        }
    }
}

/// What eviction leaves is a part of the log.
pub proof fn lemma_eviction_leaves_a_part(
    log: ChangeLog,
    writer: GUID,
    key_hash: u128,
    depth: nat,
    up_to: int,
)
    ensures
        is_part_of(log_keep_newest(log, writer, key_hash, depth), log),
        is_part_of(log_without_acknowledged(log, writer, up_to), log),
    decreases log.len(),
{
    if log.len() > 0 {
        let head = log.drop_last();
        if is_of_instance(log.last().1, writer, key_hash) {
            if depth > 0 {
                lemma_eviction_leaves_a_part(head, writer, key_hash, (depth - 1) as nat, up_to);
                lemma_part_grows(
                    log_keep_newest(head, writer, key_hash, (depth - 1) as nat),
                    log,
                    true,
                );
            } else {
                lemma_eviction_leaves_a_part(head, writer, key_hash, 0, up_to);
                lemma_part_grows(log_keep_newest(head, writer, key_hash, 0), log, false);
            }
        } else {
            lemma_eviction_leaves_a_part(head, writer, key_hash, depth, up_to);
            lemma_part_grows(log_keep_newest(head, writer, key_hash, depth), log, true);
        }
        lemma_eviction_leaves_a_part(head, writer, key_hash, depth, up_to);
        lemma_part_grows(
            log_without_acknowledged(head, writer, up_to),
            log,
            !(log.last().1.writer_guid == writer && log.last().1.sequence_number.0 <= up_to),
        );
    }
}

/// Why a change was not added to the cache.
#[derive(Debug, Clone, Copy, PartialEq, Eq, Structural)]
pub enum CacheError {
    /// The cache has no topic of that name.
    UnknownTopic,
    /// The topic holds a change with that writer and sequence number.
    DuplicateChange,
    /// The topic holds another change that came at that instant.
    InstantTaken,
}

/// The changes of one topic.
pub struct TopicCache {
    topic_name: String,
    changes: Vec<(u64, CacheChange)>,
}

impl View for TopicCache {
    type V = ChangeLog;

    closed spec fn view(&self) -> ChangeLog {
        Seq::new(self.changes@.len(), |i: int| (self.changes@[i].0, self.changes@[i].1@))
    }
}

impl TopicCache {
    /// The topic's name.
    pub closed spec fn name(&self) -> Seq<char> {
        self.topic_name@
    }

    /// The instants increase and no two changes have one identity.
    pub open spec fn wf(&self) -> bool {
        &&& instants_increase(self@)
        &&& identities_differ(self@)
    }

    /// The cache of a topic that no change has reached yet.
    pub fn new(topic_name: String) -> (t: TopicCache)
        ensures
            t.wf(),
            t.name() == topic_name@,
            t@ == Seq::<(u64, CacheChangeView)>::empty(),
    {
        let t = TopicCache { topic_name, changes: Vec::new() };
        assert(t@ =~= Seq::<(u64, CacheChangeView)>::empty());
        t
    }

    /// How many changes the topic holds.
    pub fn len(&self) -> (n: usize)
        ensures
            n == self@.len(),
    {
        self.changes.len()
    }

    /// Adds `change` as having come at `instant`.
    ///
    /// Nothing is added where the topic holds a change with the same writer
    /// and sequence number (`DuplicateChange`), or else another change of
    /// that instant (`InstantTaken`).
    pub fn add_change(&mut self, instant: u64, change: CacheChange) -> (r: Result<(), CacheError>)
        requires
            old(self).wf(),
        ensures
            final(self).wf(),
            final(self).name() == old(self).name(),
            final(self)@ == log_after_add(old(self)@, instant, change@),
            match r {
                Ok(()) => !holds_identity(old(self)@, change@.identity()) && !holds_instant(
                    old(self)@,
                    instant,
                ),
                Err(CacheError::DuplicateChange) => holds_identity(old(self)@, change@.identity()),
                Err(CacheError::InstantTaken) => !holds_identity(old(self)@, change@.identity())
                    && holds_instant(old(self)@, instant),
                Err(CacheError::UnknownTopic) => false,
            },
    {
        let ghost log = self@;
        let n = self.changes.len();
        let mut i: usize = 0;
        while i < n
            invariant
                n == self.changes@.len(),
                i <= n,
                self@ == log,
                instants_increase(log),
                identities_differ(log),
                self.name() == old(self).name(),
                forall|k: int| 0 <= k < i ==> (#[trigger] log[k]).1.identity() != change@.identity(),
            decreases n - i,
        {
            if self.changes[i].1 == change {
                assert(log[i as int].1.identity() == change@.identity());
                return Err(CacheError::DuplicateChange);
            }
            i += 1;
        }
        let mut pos: usize = 0;
        while pos < n && self.changes[pos].0 < instant
            invariant
                n == self.changes@.len(),
                pos <= n,
                self@ == log,
                instants_increase(log),
                identities_differ(log),
                forall|k: int| 0 <= k < pos ==> (#[trigger] log[k]).0 < instant,
            decreases n - pos,
        {
            pos += 1;
        }
        proof {
            lemma_insertion_point_is(log, instant, pos as int);
            lemma_insertion_point(log, instant);
        }
        if pos < n && self.changes[pos].0 == instant {
            assert(log[pos as int].0 == instant);
            return Err(CacheError::InstantTaken);
        }
        assert(!holds_instant(log, instant)) by {
            if holds_instant(log, instant) {
                let w = choose|w: int| 0 <= w < log.len() && #[trigger] log[w].0 == instant;
                if w < pos {
                    assert(log[w].0 < instant);
                } else if w > pos {
                    assert(log[pos as int].0 < log[w].0);
                }
            }
        }
        let ghost change_view = change@;
        self.changes.insert(pos, (instant, change));
        proof {
            assert(self@ =~= log.insert(pos as int, (instant, change_view)));
            lemma_log_after_add(log, instant, change_view);
        }
        Ok(())
    }

    /// The change that came at `instant`, if there is one.
    pub fn get_change(&self, instant: u64) -> (c: Option<&CacheChange>)
        requires
            self.wf(),
        ensures
            match c {
                Some(change) => self@.contains((instant, change@)),
                None => !holds_instant(self@, instant),
            },
    {
        let n = self.changes.len();
        let mut i: usize = 0;
        while i < n
            invariant
                n == self.changes@.len(),
                i <= n,
                forall|k: int| 0 <= k < i ==> (#[trigger] self@[k]).0 != instant,
            decreases n - i,
        {
            if self.changes[i].0 == instant {
                assert(self@[i as int] == (instant, self.changes@[i as int].1@));
                return Some(&self.changes[i].1);
            }
            i += 1;
        }
        None
    }

    /// The changes that came after `start_instant` and not after
    /// `end_instant`, each with its instant, oldest first.
    pub fn changes_in_range(&self, start_instant: u64, end_instant: u64) -> (r: Vec<
        (u64, &CacheChange),
    >)
        requires
            self.wf(),
        ensures
            viewed(r@) == log_between(self@, start_instant, end_instant),
            instants_increase(viewed(r@)),
    {
        let mut out: Vec<(u64, &CacheChange)> = Vec::new();
        let n = self.changes.len();
        let mut i: usize = 0;
        assert(self@.take(0) =~= Seq::<(u64, CacheChangeView)>::empty());
        assert(viewed(out@) =~= Seq::<(u64, CacheChangeView)>::empty());
        while i < n
            invariant
                n == self.changes@.len(),
                i <= n,
                viewed(out@) == log_between(self@.take(i as int), start_instant, end_instant),
            decreases n - i,
        {
            let instant = self.changes[i].0;
            let ghost before = viewed(out@);
            proof {
                let now = self@.take(i as int + 1);
                assert(now.drop_last() =~= self@.take(i as int));
                assert(now.last() == self@[i as int]);
            }
            if start_instant < instant && instant <= end_instant {
                out.push((instant, &self.changes[i].1));
                assert(viewed(out@) =~= before.push(self@[i as int]));
            }
            i += 1;
        }
        proof {
            assert(self@.take(n as int) =~= self@);
            lemma_log_between(self@, start_instant, end_instant);
        }
        out
    }

    /// Evicts changes: of the instance with the key hash `key_hash` as
    /// `writer` wrote it, the newest `depth` stay where `by_depth` says so;
    /// else the changes of `writer` up to the number `up_to` go. Says how
    /// many changes went.
    fn evict(&mut self, writer: GUID, by_depth: bool, key_hash: u128, depth: usize, up_to: i64) -> (removed:
        usize)
        requires
            old(self).wf(),
        ensures
            final(self).wf(),
            final(self).name() == old(self).name(),
            final(self)@ == if by_depth {
                log_keep_newest(old(self)@, writer, key_hash, depth as nat)
            } else {
                log_without_acknowledged(old(self)@, writer, up_to as int)
            },
            removed == old(self)@.len() - final(self)@.len(),
    {
        let ghost log = self@;
        let total = self.changes.len();
        let mut i: usize = total;
        let mut remaining: usize = depth;
        let mut removed: usize = 0;
        proof {
            assert(log.take(total as int) =~= log);
            assert(self@.skip(total as int) =~= Seq::<(u64, CacheChangeView)>::empty());
            if by_depth {
                assert(log_keep_newest(log, writer, key_hash, depth as nat) =~= log_keep_newest(
                    log.take(i as int),
                    writer,
                    key_hash,
                    remaining as nat,
                ) + self@.skip(i as int));
            } else {
                assert(log_without_acknowledged(log, writer, up_to as int)
                    =~= log_without_acknowledged(log.take(i as int), writer, up_to as int)
                    + self@.skip(i as int));
            }
        }
        while i > 0
            invariant
                i <= total,
                total == log.len(),
                self.changes@.len() == total - removed,
                i <= self.changes@.len(),
                self.name() == old(self).name(),
                self@.take(i as int) == log.take(i as int),
                by_depth ==> log_keep_newest(log, writer, key_hash, depth as nat)
                    == log_keep_newest(log.take(i as int), writer, key_hash, remaining as nat)
                    + self@.skip(i as int),
                !by_depth ==> log_without_acknowledged(log, writer, up_to as int)
                    == log_without_acknowledged(log.take(i as int), writer, up_to as int)
                    + self@.skip(i as int),
            decreases i,
        {
            let ghost upto = log.take(i as int);
            let ghost suffix = self@.skip(i as int);
            let ghost current = self@;
            i -= 1;
            proof {
                assert(upto.drop_last() =~= log.take(i as int));
                assert(upto.last() == log[i as int]);
                assert(current.take(i as int + 1)[i as int] == log.take(i as int + 1)[i as int]);
                assert(current[i as int] == log[i as int]);
                assert(current[i as int] == (self.changes@[i as int].0, self.changes@[i as int].1@));
            }
            let of_writer = self.changes[i].1.writer_guid == writer;
            let goes = if by_depth {
                if of_writer && self.changes[i].1.instance_key_hash == key_hash {
                    if remaining > 0 {
                        remaining -= 1;
                        false
                    } else {
                        true
                    }
                } else {
                    false
                }
            } else {
                of_writer && self.changes[i].1.sequence_number.0 <= up_to
            };
            if goes {
                self.changes.remove(i);
                removed += 1;
                proof {
                    assert(self@.skip(i as int) =~= suffix);
                    assert(self@.take(i as int) =~= current.take(i as int + 1).take(i as int));
                    assert(log.take(i as int) =~= log.take(i as int + 1).take(i as int));
                }
            } else {
                proof {
                    assert(self@.skip(i as int) =~= seq![log[i as int]] + suffix);
                    assert(self@.take(i as int) =~= current.take(i as int + 1).take(i as int));
                    assert(log.take(i as int) =~= log.take(i as int + 1).take(i as int));
                    if by_depth {
                        let kept = log_keep_newest(
                            log.take(i as int),
                            writer,
                            key_hash,
                            remaining as nat,
                        );
                        assert(kept.push(log[i as int]) + suffix =~= kept + (seq![log[i as int]]
                            + suffix));
                    } else {
                        let kept = log_without_acknowledged(
                            log.take(i as int),
                            writer,
                            up_to as int,
                        );
                        assert(kept.push(log[i as int]) + suffix =~= kept + (seq![log[i as int]]
                            + suffix));
                    }
                }
            }
        }
        proof {
            assert(log.take(0) =~= Seq::<(u64, CacheChangeView)>::empty());
            assert(self@.skip(0) =~= self@);
            lemma_eviction_leaves_a_part(log, writer, key_hash, depth as nat, up_to as int);
            if by_depth {
                assert(self@ =~= log_keep_newest(log, writer, key_hash, depth as nat));
            } else {
                assert(self@ =~= log_without_acknowledged(log, writer, up_to as int));
            }
        }
        removed
    }

    /// The least sequence number among the changes of `writer`, if the
    /// topic holds any.
    pub fn lowest_sequence_number_of(&self, writer: GUID) -> (r: Option<SequenceNumber>)
        ensures
            match r {
                Some(sn) => {
                    &&& exists|i: int|
                        0 <= i < self@.len() && (#[trigger] self@[i]).1.writer_guid == writer
                            && self@[i].1.sequence_number == sn
                    &&& forall|i: int|
                        0 <= i < self@.len() && (#[trigger] self@[i]).1.writer_guid == writer
                            ==> sn.0 <= self@[i].1.sequence_number.0
                },
                None => forall|i: int|
                    0 <= i < self@.len() ==> (#[trigger] self@[i]).1.writer_guid != writer,
            },
    {
        let n = self.changes.len();
        let mut lowest: Option<SequenceNumber> = None;
        let mut i: usize = 0;
        while i < n
            invariant
                n == self.changes@.len(),
                i <= n,
                match lowest {
                    Some(sn) => {
                        &&& exists|k: int|
                            0 <= k < i && (#[trigger] self@[k]).1.writer_guid == writer
                                && self@[k].1.sequence_number == sn
                        &&& forall|k: int|
                            0 <= k < i && (#[trigger] self@[k]).1.writer_guid == writer ==> sn.0
                                <= self@[k].1.sequence_number.0
                    },
                    None => forall|k: int|
                        0 <= k < i ==> (#[trigger] self@[k]).1.writer_guid != writer,
                },
            decreases n - i,
        {
            proof {
                assert(self@[i as int] == (self.changes@[i as int].0, self.changes@[i as int].1@));
            }
            if self.changes[i].1.writer_guid == writer {
                let sn = self.changes[i].1.sequence_number;
                lowest = match lowest {
                    Some(least) => if sn.0 < least.0 {
                        Some(sn)
                    } else {
                        Some(least)
                    },
                    None => Some(sn),
                };
            }
            i += 1;
        }
        lowest
    }

    /// The change that `writer` gave the number `sn`, if the topic holds it.
    pub fn change_of(&self, writer: GUID, sn: SequenceNumber) -> (r: Option<&CacheChange>)
        ensures
            match r {
                Some(change) => {
                    &&& change@.identity() == (writer, sn)
                    &&& exists|i: int| 0 <= i < self@.len() && (#[trigger] self@[i]).1 == change@
                },
                None => !holds_identity(self@, (writer, sn)),
            },
    {
        let n = self.changes.len();
        let mut i: usize = 0;
        while i < n
            invariant
                n == self.changes@.len(),
                i <= n,
                forall|k: int| 0 <= k < i ==> (#[trigger] self@[k]).1.identity() != (writer, sn),
            decreases n - i,
        {
            proof {
                assert(self@[i as int] == (self.changes@[i as int].0, self.changes@[i as int].1@));
            }
            if self.changes[i].1.writer_guid == writer && self.changes[i].1.sequence_number == sn {
                return Some(&self.changes[i].1);
            }
            i += 1;
        }
        None
    }

    /// Removes the changes that came before `instant`, and says how many
    /// they were.
    pub fn remove_changes_before(&mut self, instant: u64) -> (removed: usize)
        requires
            old(self).wf(),
        ensures
            final(self).wf(),
            final(self).name() == old(self).name(),
            final(self)@ == log_from(old(self)@, instant),
            removed == insertion_point(old(self)@, instant),
    {
        let ghost log = self@;
        let n = self.changes.len();
        let mut pos: usize = 0;
        while pos < n && self.changes[pos].0 < instant
            invariant
                n == self.changes@.len(),
                pos <= n,
                self@ == log,
                instants_increase(log),
                identities_differ(log),
                forall|k: int| 0 <= k < pos ==> (#[trigger] log[k]).0 < instant,
            decreases n - pos,
        {
            pos += 1;
        }
        proof {
            lemma_insertion_point_is(log, instant, pos as int);
        }
        let kept = self.changes.split_off(pos);
        self.changes = kept;
        proof {
            assert(self@ =~= log.skip(pos as int));
            assert forall|i: int, j: int| 0 <= i < j < self@.len() implies self@[i].0 < self@[j].0
                && self@[i].1.identity() != self@[j].1.identity() by {
                assert(self@[i] == log[i + pos] && self@[j] == log[j + pos]);
            }
        }
        pos
    }
}

/// What a list of borrowed changes stands for.
pub open spec fn viewed(changes: Seq<(u64, &CacheChange)>) -> ChangeLog {
    Seq::new(changes.len(), |i: int| (changes[i].0, changes[i].1@))
}

/// How many changes of the log have this writer and sequence number.
pub open spec fn count_identity(log: ChangeLog, id: (GUID, SequenceNumber)) -> nat
    decreases log.len(),
{
    if log.len() == 0 {
        0
    } else {
        count_identity(log.drop_last(), id) + if log.last().1.identity() == id {
            1nat
        } else {
            0nat
        }
    }
}

/// A log whose identities differ holds each identity once or not at all.
pub proof fn lemma_count_identity(log: ChangeLog, id: (GUID, SequenceNumber))
    requires
        identities_differ(log),
    ensures
        count_identity(log, id) == if holds_identity(log, id) {
            1nat
        } else {
            0nat
        },
    decreases log.len(),
{
    if log.len() > 0 {
        let head = log.drop_last();
        assert forall|i: int, j: int| 0 <= i < j < head.len() implies head[i].1.identity()
            != head[j].1.identity() by {
            assert(head[i] == log[i] && head[j] == log[j]);
        }
        lemma_count_identity(head, id);
        if holds_identity(head, id) {
            let w = choose|w: int| 0 <= w < head.len() && #[trigger] head[w].1.identity() == id;
            assert(log[w].1.identity() == id);
            assert(log[w].1.identity() != log[log.len() - 1].1.identity());
        } else if log.last().1.identity() == id {
            assert(log[log.len() - 1].1.identity() == id);
        } else {
            if holds_identity(log, id) {
                let w = choose|w: int| 0 <= w < log.len() && #[trigger] log[w].1.identity() == id;
                assert(head[w].1.identity() == id);
            }
        }
    }
}

/// Adding the same writer and sequence number twice leaves one change of
/// that identity, and never more: where the log holds the identity or the
/// first instant is free, the second addition changes nothing, whatever its
/// instant and whatever else it carries. Only where other changes hold both
/// instants does the log hold no change of the identity afterwards, for
/// then it took neither.
pub proof fn lemma_add_twice(
    log: ChangeLog,
    first_instant: u64,
    first: CacheChangeView,
    second_instant: u64,
    second: CacheChangeView,
)
    requires
        instants_increase(log),
        identities_differ(log),
        first.identity() == second.identity(),
    ensures
        count_identity(
            log_after_add(log_after_add(log, first_instant, first), second_instant, second),
            first.identity(),
        ) == if holds_identity(log, first.identity()) || !holds_instant(log, first_instant)
            || !holds_instant(log, second_instant) {
            1nat
        } else {
            0nat
        },
        holds_identity(log, first.identity()) || !holds_instant(log, first_instant)
            ==> log_after_add(log_after_add(log, first_instant, first), second_instant, second)
            == log_after_add(log, first_instant, first),
{
    let once = log_after_add(log, first_instant, first);
    let twice = log_after_add(once, second_instant, second);
    lemma_log_after_add(log, first_instant, first);
    lemma_log_after_add(once, second_instant, second);
    lemma_count_identity(twice, first.identity());
    if holds_identity(log, first.identity()) {
        assert(once == log);
        assert(holds_identity(twice, first.identity()));
    } else if !holds_instant(log, first_instant) {
        assert(holds_identity(once, second.identity()));
        assert(holds_identity(twice, first.identity()));
    } else {
        assert(once == log);
        if !holds_instant(log, second_instant) {
            assert(holds_identity(twice, second.identity()));
        } else {
            assert(twice == log);
        }
    }
}

/// The topics of a cache by name, each with its log.
pub open spec fn topics_map(topics: Seq<TopicCache>) -> Map<Seq<char>, ChangeLog>
    decreases topics.len(),
{
    if topics.len() == 0 {
        Map::empty()
    } else {
        topics_map(topics.drop_last()).insert(topics.last().name(), topics.last()@)
    }
}

/// No two topics have one name.
pub open spec fn names_differ(topics: Seq<TopicCache>) -> bool {
    forall|i: int, j: int| 0 <= i < j < topics.len() ==> topics[i].name() != topics[j].name()
}

/// Where no two topics have one name, the map holds each topic under its
/// name, and nothing else.
proof fn lemma_topics_map(topics: Seq<TopicCache>)
    requires
        names_differ(topics),
    ensures
        forall|i: int|
            0 <= i < topics.len() ==> {
                &&& topics_map(topics).dom().contains(#[trigger] topics[i].name())
                &&& topics_map(topics)[topics[i].name()] == topics[i]@
            },
        forall|name: Seq<char>| #[trigger]
            topics_map(topics).dom().contains(name) ==> exists|i: int|
                0 <= i < topics.len() && #[trigger] topics[i].name() == name,
    decreases topics.len(),
{
    if topics.len() > 0 {
        let head = topics.drop_last();
        assert forall|i: int, j: int| 0 <= i < j < head.len() implies head[i].name()
            != head[j].name() by {
            assert(head[i] == topics[i] && head[j] == topics[j]);
        }
        lemma_topics_map(head);
        assert forall|i: int| 0 <= i < topics.len() implies {
            &&& topics_map(topics).dom().contains(#[trigger] topics[i].name())
            &&& topics_map(topics)[topics[i].name()] == topics[i]@
        } by {
            if i < head.len() {
                assert(head[i] == topics[i]);
                assert(topics[i].name() != topics[topics.len() - 1].name());
            }
        }
        assert forall|name: Seq<char>| #[trigger]
            topics_map(topics).dom().contains(name) implies exists|i: int|
            0 <= i < topics.len() && #[trigger] topics[i].name() == name by {
            if name == topics.last().name() {
                assert(topics[topics.len() - 1].name() == name);
            } else {
                assert(topics_map(head).dom().contains(name));
                let w = choose|w: int| 0 <= w < head.len() && #[trigger] head[w].name() == name;
                assert(topics[w].name() == name);
            }
        }
    }
}

/// A topic put in the place of the topic of its name takes that topic's
/// place in the map.
proof fn lemma_topics_map_update(topics: Seq<TopicCache>, i: int, topic: TopicCache)
    requires
        names_differ(topics),
        0 <= i < topics.len(),
        topic.name() == topics[i].name(),
    ensures
        names_differ(topics.update(i, topic)),
        topics_map(topics.update(i, topic)) == topics_map(topics).insert(topic.name(), topic@),
{
    let after = topics.update(i, topic);
    assert forall|a: int, b: int| 0 <= a < b < after.len() implies after[a].name()
        != after[b].name() by {
        assert(after[a].name() == topics[a].name());
        assert(after[b].name() == topics[b].name());
    }
    lemma_topics_map(topics);
    lemma_topics_map(after);
    let m1 = topics_map(after);
    let m2 = topics_map(topics).insert(topic.name(), topic@);
    assert forall|name: Seq<char>| m1.dom().contains(name) == m2.dom().contains(name) by {
        if m1.dom().contains(name) {
            let w = choose|w: int| 0 <= w < after.len() && #[trigger] after[w].name() == name;
            assert(topics[w].name() == name);
        }
        if m2.dom().contains(name) && name != topic.name() {
            let w = choose|w: int| 0 <= w < topics.len() && #[trigger] topics[w].name() == name;
            assert(after[w].name() == name);
        }
        if name == topic.name() {
            assert(after[i].name() == name);
        }
    }
    assert forall|name: Seq<char>| m1.dom().contains(name) implies m1[name] == m2[name] by {
        let w = choose|w: int| 0 <= w < after.len() && #[trigger] after[w].name() == name;
        assert(m1[after[w].name()] == after[w]@);
        if w != i {
            assert(after[w] == topics[w]);
            assert(topics[w].name() != topics[i].name());
            assert(topics_map(topics)[topics[w].name()] == topics[w]@);
        }
    }
    assert(m1 =~= m2);
}

/// The changes of every topic.
pub struct DDSCache {
    topic_caches: Vec<TopicCache>,
}

impl View for DDSCache {
    type V = Map<Seq<char>, ChangeLog>;

    closed spec fn view(&self) -> Map<Seq<char>, ChangeLog> {
        topics_map(self.topic_caches@)
    }
}

impl DDSCache {
    /// No two topics share a name, and each topic is well formed.
    pub closed spec fn names_unique(&self) -> bool {
        &&& names_differ(self.topic_caches@)
        &&& forall|i: int| 0 <= i < self.topic_caches@.len() ==> self.topic_caches@[i].wf()
    }

    /// In every topic the instants increase and no two changes have one
    /// identity.
    pub open spec fn wf(&self) -> bool {
        &&& self.names_unique()
        &&& forall|name: Seq<char>| #[trigger]
            self@.dom().contains(name) ==> instants_increase(self@[name]) && identities_differ(
                self@[name],
            )
    }

    /// What `names_unique` says makes the cache well formed.
    proof fn lemma_wf(&self)
        requires
            self.names_unique(),
        ensures
            self.wf(),
    {
        lemma_topics_map(self.topic_caches@);
        assert forall|name: Seq<char>| #[trigger] self@.dom().contains(name) implies instants_increase(
            self@[name],
        ) && identities_differ(self@[name]) by {
            let w = choose|w: int|
                0 <= w < self.topic_caches@.len() && #[trigger] self.topic_caches@[w].name()
                    == name;
            assert(self@[self.topic_caches@[w].name()] == self.topic_caches@[w]@);
            assert(self.topic_caches@[w].wf());
        }
    }

    /// A cache without topics.
    pub fn new() -> (c: DDSCache)
        ensures
            c.wf(),
            c@ == Map::<Seq<char>, ChangeLog>::empty(),
    {
        let c = DDSCache { topic_caches: Vec::new() };
        proof {
            c.lemma_wf();
        }
        c
    }

    /// Where the topic of this name stands, if the cache has it.
    fn find_topic(&self, topic_name: &String) -> (r: Option<usize>)
        requires
            self.names_unique(),
        ensures
            match r {
                Some(i) => {
                    &&& i < self.topic_caches@.len()
                    &&& self.topic_caches@[i as int].name() == topic_name@
                    &&& self@.dom().contains(topic_name@)
                    &&& self@[topic_name@] == self.topic_caches@[i as int]@
                },
                None => !self@.dom().contains(topic_name@),
            },
    {
        let n = self.topic_caches.len();
        let mut i: usize = 0;
        while i < n
            invariant
                self.names_unique(),
                n == self.topic_caches@.len(),
                i <= n,
                forall|k: int| 0 <= k < i ==> (#[trigger] self.topic_caches@[k]).name() != topic_name@,
            decreases n - i,
        {
            if self.topic_caches[i].topic_name == *topic_name {
                proof {
                    lemma_topics_map(self.topic_caches@);
                }
                return Some(i);
            }
            i += 1;
        }
        proof {
            lemma_topics_map(self.topic_caches@);
        }
        None
    }

    /// Adds a topic without changes, and says whether it did: a topic that
    /// the cache has is left as it is.
    pub fn add_new_topic(&mut self, topic_name: &String) -> (added: bool)
        requires
            old(self).wf(),
        ensures
            final(self).wf(),
            added == !old(self)@.dom().contains(topic_name@),
            final(self)@ == if added {
                old(self)@.insert(topic_name@, Seq::<(u64, CacheChangeView)>::empty())
            } else {
                old(self)@
            },
    {
        match self.find_topic(topic_name) {
            Some(_) => false,
            None => {
                let ghost before = self.topic_caches@;
                proof {
                    lemma_topics_map(before);
                }
                let topic = TopicCache::new(topic_name.clone());
                self.topic_caches.push(topic);
                proof {
                    let after = self.topic_caches@;
                    assert(after.drop_last() =~= before);
                    assert forall|i: int, j: int| 0 <= i < j < after.len() implies after[i].name()
                        != after[j].name() by {
                        assert(after[i] == before[i]);
                        if j < before.len() {
                            assert(after[j] == before[j]);
                        } else {
                            assert(topics_map(before).dom().contains(before[i].name()));
                        }
                    }
                    assert forall|i: int| 0 <= i < after.len() implies after[i].wf() by {
                        if i < before.len() {
                            assert(after[i] == before[i]);
                        }
                    }
                    self.lemma_wf();
                }
                true
            },
        }
    }

    /// Removes the topic of this name with its changes, and says whether
    /// there was one.
    pub fn remove_topic(&mut self, topic_name: &String) -> (removed: bool)
        requires
            old(self).wf(),
        ensures
            final(self).wf(),
            removed == old(self)@.dom().contains(topic_name@),
            final(self)@ == old(self)@.remove(topic_name@),
    {
        match self.find_topic(topic_name) {
            None => {
                assert(self@ =~= old(self)@.remove(topic_name@));
                false
            },
            Some(i) => {
                let ghost before = self.topic_caches@;
                self.topic_caches.remove(i);
                proof {
                    let after = self.topic_caches@;
                    assert forall|a: int, b: int| 0 <= a < b < after.len() implies after[a].name()
                        != after[b].name() by {
                        assert(after[a] == before[if a < i { a } else { a + 1 }]);
                        assert(after[b] == before[if b < i { b } else { b + 1 }]);
                    }
                    assert forall|a: int| 0 <= a < after.len() implies after[a].wf() by {
                        assert(after[a] == before[if a < i { a } else { a + 1 }]);
                    }
                    lemma_topics_map(before);
                    lemma_topics_map(after);
                    let m1 = topics_map(after);
                    let m2 = topics_map(before).remove(topic_name@);
                    assert forall|name: Seq<char>| m1.dom().contains(name) == m2.dom().contains(
                        name,
                    ) by {
                        if m1.dom().contains(name) {
                            let w = choose|w: int|
                                0 <= w < after.len() && #[trigger] after[w].name() == name;
                            let v = if w < i { w } else { w + 1 };
                            assert(after[w] == before[v]);
                            assert(before[v].name() == name);
                            assert(v != i);
                            if v < i {
                                assert(before[v].name() != before[i as int].name());
                            } else {
                                assert(before[i as int].name() != before[v].name());
                            }
                        }
                        if m2.dom().contains(name) {
                            let v = choose|v: int|
                                0 <= v < before.len() && #[trigger] before[v].name() == name;
                            let w = if v < i { v } else { v - 1 };
                            assert(after[w] == before[v]);
                            assert(after[w].name() == name);
                        }
                    }
                    assert forall|name: Seq<char>| m1.dom().contains(name) implies m1[name]
                        == m2[name] by {
                        let w = choose|w: int|
                            0 <= w < after.len() && #[trigger] after[w].name() == name;
                        let v = if w < i { w } else { w + 1 };
                        assert(after[w] == before[v]);
                        assert(m1[after[w].name()] == after[w]@);
                        assert(topics_map(before)[before[v].name()] == before[v]@);
                    }
                    assert(m1 =~= m2);
                    self.lemma_wf();
                }
                true
            },
        }
    }

    /// Adds `change` to the topic as having come at `instant`.
    ///
    /// Nothing is added where the cache has no such topic (`UnknownTopic`),
    /// where the topic holds a change with the same writer and sequence
    /// number (`DuplicateChange`), or else another change of that instant
    /// (`InstantTaken`).
    pub fn add_change(&mut self, topic_name: &String, instant: u64, change: CacheChange) -> (r:
        Result<(), CacheError>)
        requires
            old(self).wf(),
        ensures
            final(self).wf(),
            final(self)@ == if old(self)@.dom().contains(topic_name@) {
                old(self)@.insert(
                    topic_name@,
                    log_after_add(old(self)@[topic_name@], instant, change@),
                )
            } else {
                old(self)@
            },
            match r {
                Ok(()) => {
                    &&& old(self)@.dom().contains(topic_name@)
                    &&& !holds_identity(old(self)@[topic_name@], change@.identity())
                    &&& !holds_instant(old(self)@[topic_name@], instant)
                },
                Err(CacheError::UnknownTopic) => !old(self)@.dom().contains(topic_name@),
                Err(CacheError::DuplicateChange) => {
                    &&& old(self)@.dom().contains(topic_name@)
                    &&& holds_identity(old(self)@[topic_name@], change@.identity())
                },
                Err(CacheError::InstantTaken) => {
                    &&& old(self)@.dom().contains(topic_name@)
                    &&& !holds_identity(old(self)@[topic_name@], change@.identity())
                    &&& holds_instant(old(self)@[topic_name@], instant)
                },
            },
    {
        match self.find_topic(topic_name) {
            None => Err(CacheError::UnknownTopic),
            Some(i) => {
                let ghost before = self.topic_caches@;
                let r = self.topic_caches[i].add_change(instant, change);
                proof {
                    let after = self.topic_caches@;
                    assert(after =~= before.update(i as int, after[i as int]));
                    lemma_topics_map_update(before, i as int, after[i as int]);
                    assert forall|a: int| 0 <= a < after.len() implies after[a].wf() by {
                        if a != i {
                            assert(after[a] == before[a]);
                        }
                    }
                    self.lemma_wf();
                }
                r
            },
        }
    }

    /// The change of the topic that came at `instant`, if there is one.
    pub fn get_change(&self, topic_name: &String, instant: u64) -> (c: Option<&CacheChange>)
        requires
            self.wf(),
        ensures
            match c {
                Some(change) => self@.dom().contains(topic_name@) && self@[topic_name@].contains(
                    (instant, change@),
                ),
                None => !self@.dom().contains(topic_name@) || !holds_instant(
                    self@[topic_name@],
                    instant,
                ),
            },
    {
        match self.find_topic(topic_name) {
            None => None,
            Some(i) => self.topic_caches[i].get_change(instant),
        }
    }

    /// The changes of the topic that came after `start_instant` and not
    /// after `end_instant`, each with its instant, in the order of their
    /// instants; none where the cache has no such topic.
    pub fn changes_in_range(&self, topic_name: &String, start_instant: u64, end_instant: u64) -> (r:
        Vec<(u64, &CacheChange)>)
        requires
            self.wf(),
        ensures
            viewed(r@) == if self@.dom().contains(topic_name@) {
                log_between(self@[topic_name@], start_instant, end_instant)
            } else {
                Seq::<(u64, CacheChangeView)>::empty()
            },
            instants_increase(viewed(r@)),
    {
        match self.find_topic(topic_name) {
            None => {
                let r: Vec<(u64, &CacheChange)> = Vec::new();
                assert(viewed(r@) =~= Seq::<(u64, CacheChangeView)>::empty());
                r
            },
            Some(i) => self.topic_caches[i].changes_in_range(start_instant, end_instant),
        }
    }

    /// Evicts from the topic the oldest changes of the instance with the key
    /// hash `key_hash` as `writer` wrote it, so that the newest `depth` of
    /// them stay, and says how many changes went; none where the cache has
    /// no such topic.
    pub fn keep_newest_of_instance(
        &mut self,
        topic_name: &String,
        writer: GUID,
        key_hash: u128,
        depth: usize,
    ) -> (removed: usize)
        requires
            old(self).wf(),
        ensures
            final(self).wf(),
            final(self)@ == if old(self)@.dom().contains(topic_name@) {
                old(self)@.insert(
                    topic_name@,
                    log_keep_newest(old(self)@[topic_name@], writer, key_hash, depth as nat),
                )
            } else {
                old(self)@
            },
            removed == if old(self)@.dom().contains(topic_name@) {
                old(self)@[topic_name@].len() - log_keep_newest(
                    old(self)@[topic_name@],
                    writer,
                    key_hash,
                    depth as nat,
                ).len()
            } else {
                0
            },
    {
        match self.find_topic(topic_name) {
            None => 0,
            Some(i) => {
                let ghost before = self.topic_caches@;
                let removed = self.topic_caches[i].evict(writer, true, key_hash, depth, 0);
                proof {
                    let after = self.topic_caches@;
                    assert(after =~= before.update(i as int, after[i as int]));
                    lemma_topics_map_update(before, i as int, after[i as int]);
                    assert forall|a: int| 0 <= a < after.len() implies after[a].wf() by {
                        if a != i {
                            assert(after[a] == before[a]);
                        }
                    }
                    self.lemma_wf();
                }
                removed
            },
        }
    }

    /// Evicts from the topic the changes of `writer` up to the number
    /// `up_to`, and says how many changes went; none where the cache has no
    /// such topic.
    pub fn remove_acknowledged(&mut self, topic_name: &String, writer: GUID, up_to: SequenceNumber) -> (removed:
        usize)
        requires
            old(self).wf(),
        ensures
            final(self).wf(),
            final(self)@ == if old(self)@.dom().contains(topic_name@) {
                old(self)@.insert(
                    topic_name@,
                    log_without_acknowledged(old(self)@[topic_name@], writer, up_to.0 as int),
                )
            } else {
                old(self)@
            },
            removed == if old(self)@.dom().contains(topic_name@) {
                old(self)@[topic_name@].len() - log_without_acknowledged(
                    old(self)@[topic_name@],
                    writer,
                    up_to.0 as int,
                ).len()
            } else {
                0
            },
    {
        match self.find_topic(topic_name) {
            None => 0,
            Some(i) => {
                let ghost before = self.topic_caches@;
                let removed = self.topic_caches[i].evict(writer, false, 0, 0, up_to.0);
                proof {
                    let after = self.topic_caches@;
                    assert(after =~= before.update(i as int, after[i as int]));
                    lemma_topics_map_update(before, i as int, after[i as int]);
                    assert forall|a: int| 0 <= a < after.len() implies after[a].wf() by {
                        if a != i {
                            assert(after[a] == before[a]);
                        }
                    }
                    self.lemma_wf();
                }
                removed
            },
        }
    }

    /// The least sequence number among the changes of `writer` in the
    /// topic, if the topic holds any.
    pub fn lowest_sequence_number_of(&self, topic_name: &String, writer: GUID) -> (r: Option<
        SequenceNumber,
    >)
        requires
            self.wf(),
        ensures
            match r {
                Some(sn) => {
                    &&& self@.dom().contains(topic_name@)
                    &&& exists|i: int|
                        0 <= i < self@[topic_name@].len() && (#[trigger] self@[topic_name@][i]).1.writer_guid
                            == writer && self@[topic_name@][i].1.sequence_number == sn
                    &&& forall|i: int|
                        0 <= i < self@[topic_name@].len() && (#[trigger] self@[topic_name@][i]).1.writer_guid
                            == writer ==> sn.0 <= self@[topic_name@][i].1.sequence_number.0
                },
                None => self@.dom().contains(topic_name@) ==> forall|i: int|
                    0 <= i < self@[topic_name@].len() ==> (#[trigger] self@[topic_name@][i]).1.writer_guid
                        != writer,
            },
    {
        match self.find_topic(topic_name) {
            None => None,
            Some(i) => self.topic_caches[i].lowest_sequence_number_of(writer),
        }
    }

    /// The change of the topic that `writer` gave the number `sn`, if the
    /// topic holds it.
    pub fn change_of(&self, topic_name: &String, writer: GUID, sn: SequenceNumber) -> (r: Option<
        &CacheChange,
    >)
        requires
            self.wf(),
        ensures
            match r {
                Some(change) => {
                    &&& self@.dom().contains(topic_name@)
                    &&& change@.identity() == (writer, sn)
                    &&& exists|i: int|
                        0 <= i < self@[topic_name@].len() && (#[trigger] self@[topic_name@][i]).1
                            == change@
                },
                None => !self@.dom().contains(topic_name@) || !holds_identity(
                    self@[topic_name@],
                    (writer, sn),
                ),
            },
    {
        match self.find_topic(topic_name) {
            None => None,
            Some(i) => self.topic_caches[i].change_of(writer, sn),
        }
    }

    /// Removes the changes of the topic that came before `instant`, and
    /// says how many they were; none where the cache has no such topic.
    pub fn remove_changes_before(&mut self, topic_name: &String, instant: u64) -> (removed: usize)
        requires
            old(self).wf(),
        ensures
            final(self).wf(),
            final(self)@ == if old(self)@.dom().contains(topic_name@) {
                old(self)@.insert(topic_name@, log_from(old(self)@[topic_name@], instant))
            } else {
                old(self)@
            },
            removed == if old(self)@.dom().contains(topic_name@) {
                insertion_point(old(self)@[topic_name@], instant)
            } else {
                0
            },
    {
        match self.find_topic(topic_name) {
            None => 0,
            Some(i) => {
                let ghost before = self.topic_caches@;
                let removed = self.topic_caches[i].remove_changes_before(instant);
                proof {
                    let after = self.topic_caches@;
                    assert(after =~= before.update(i as int, after[i as int]));
                    lemma_topics_map_update(before, i as int, after[i as int]);
                    assert forall|a: int| 0 <= a < after.len() implies after[a].wf() by {
                        if a != i {
                            assert(after[a] == before[a]);
                        }
                    }
                    self.lemma_wf();
                }
                removed
            },
        }
    }
}

} // verus!
