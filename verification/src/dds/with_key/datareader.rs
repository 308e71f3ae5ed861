//! The reader that the application holds: it turns the changes of its topic
//! into samples and hands them out by read and take.

use crate::dds::datasample::DataSample;
use crate::dds::datasample_cache::{
    key_of_hash, key_position, keys_ascend, lemma_key_position, next_position, rows_after_add,
    rows_hold_their_instances, DataSampleCache, Rows,
};
use crate::dds::qos::{History, QosPolicies};
use crate::dds::readcondition::ReadCondition;
use crate::dds::result::Error;
use crate::dds::sampleinfo::{InstanceState, SampleInfo, SampleState};
use crate::dds::sorting::{lemma_strict_order_is_unique, sorted_by_instant};
use crate::dds::traits::{DeserializerAdapter, Key, Keyed};
use crate::dds::with_key::delivery::{
    all_samples, instance_samples, lemma_rows_hold_every_change,
    lemma_take_hands_out_everything, row_of, seen,
};
use crate::messages::serialized_payload::{bytes_as_slice, RepresentationIdentifier};
use crate::structure::cache_change::{CacheChange, CacheChangeView, ChangeKind};
use crate::structure::dds_cache::{log_between, viewed, ChangeLog, DDSCache};
use crate::structure::guid::{EntityId, GuidPrefix, GUID};
use crate::structure::time::Timestamp;
use std::marker::PhantomData;
use vstd::prelude::*;

verus! {

/// Which instance a read or take of one instance is of, given a key: the
/// instance of the key, or the next one in the order of keys.
#[derive(Clone, Copy, Debug, PartialEq, Eq, Structural)]
pub enum SelectByKey {
    This,
    Next,
}

/// A shared view of a result: the value by reference, a copy of the error.
pub fn result_ok_as_ref_err_clone<T, E: Clone>(r: &Result<T, E>) -> (out: Result<&T, E>)
    ensures
        match *r {
            Ok(x) => out == Ok::<&T, E>(&x),
            Err(e) => out is Err && cloned::<E>(e, out->Err_0),
        },
{
    match r {
        Ok(x) => Ok(x),
        Err(x) => Err(x.clone()),
    }
}

/// The state of an instance after a change of the given kind.
pub open spec fn instance_state_of(kind: ChangeKind) -> InstanceState {
    match kind {
        ChangeKind::ALIVE => InstanceState::Alive,
        ChangeKind::NOT_ALIVE_DISPOSED => InstanceState::NotAlive_Disposed,
        ChangeKind::NOT_ALIVE_UNREGISTERED => InstanceState::NotAlive_NoWriters,
    }
}

/// The sample that a change with a payload becomes, given what the
/// deserializer made of the payload: none where it failed.
pub open spec fn sample_of_decoded<D: Keyed>(
    kind: ChangeKind,
    writer_guid: GUID,
    decoded: Result<D, crate::serialization::Error>,
) -> Option<DataSample<D>> {
    match decoded {
        Ok(d) => Some(
            DataSample {
                sample_info: SampleInfo {
                    instance_state: instance_state_of(kind),
                    ..SampleInfo::spec_fresh(Timestamp::spec_time_invalid(), writer_guid)
                },
                value: Ok(d),
            },
        ),
        Err(_) => None,
    }
}

/// The sample that a change becomes for a reader that holds `rows`.
///
/// A living change with a payload becomes the sample that the deserializer
/// makes of it; none where the encoding is not known or the deserializer
/// fails. A change that disposes of an instance becomes the news of that,
/// where the reader holds an instance with the change's key hash; its
/// payload, if it has one, holds the key and is not read. Any other change
/// becomes nothing.
pub open spec fn sample_of_change<D: Keyed, DA: DeserializerAdapter<D>>(
    rows: Rows<D>,
    change: CacheChangeView,
) -> Option<DataSample<D>> {
    match change.kind {
        ChangeKind::ALIVE => match change.data_value {
            Some(payload) => match RepresentationIdentifier::spec_try_from_u16(
                payload.representation_identifier,
            ) {
                Ok(rep_id) => sample_of_decoded::<D>(
                    change.kind,
                    change.writer_guid,
                    DA::decoded(payload.value, rep_id),
                ),
                Err(_) => None,
            },
            None => None,
        },
        ChangeKind::NOT_ALIVE_DISPOSED => match key_of_hash::<D>(rows, change.instance_key_hash) {
            Some(key) => Some(
                DataSample {
                    sample_info: SampleInfo {
                        instance_state: InstanceState::NotAlive_Disposed,
                        ..SampleInfo::spec_fresh(Timestamp::spec_time_invalid(), change.writer_guid)
                    },
                    value: Err(key),
                },
            ),
            None => None,
        },
        ChangeKind::NOT_ALIVE_UNREGISTERED => None,
    }
}

/// The rows of a reader after it has taken in one change.
pub open spec fn rows_after_change<D: Keyed, DA: DeserializerAdapter<D>>(
    rows: Rows<D>,
    change: CacheChangeView,
    history: Option<History>,
) -> Rows<D> {
    match sample_of_change::<D, DA>(rows, change) {
        Some(sample) => rows_after_add(rows, sample, history),
        None => rows,
    }
}

/// The rows of a reader after it has taken in the changes of `log`, oldest
/// first.
pub open spec fn rows_after_changes<D: Keyed, DA: DeserializerAdapter<D>>(
    rows: Rows<D>,
    log: ChangeLog,
    history: Option<History>,
) -> Rows<D>
    decreases log.len(),
{
    if log.len() == 0 {
        rows
    } else {
        rows_after_change::<D, DA>(
            rows_after_changes::<D, DA>(rows, log.drop_last(), history),
            log.last().1,
            history,
        )
    }
}

/// The changes of the log whose writers belong to another participant than
/// `own`.
pub open spec fn foreign_changes(log: ChangeLog, own: GuidPrefix) -> ChangeLog
    decreases log.len(),
{
    if log.len() == 0 {
        Seq::empty()
    } else if log.last().1.writer_guid.guidPrefix != own {
        foreign_changes(log.drop_last(), own).push(log.last())
    } else {
        foreign_changes(log.drop_last(), own)
    }
}

/// The changes of a topic that a reader has not seen: those that came
/// after `latest_instant` and not after `now`, from other participants.
pub open spec fn unseen_changes(
    cache: Map<Seq<char>, ChangeLog>,
    topic_name: Seq<char>,
    latest_instant: u64,
    now: u64,
    own: GuidPrefix,
) -> ChangeLog {
    if cache.dom().contains(topic_name) {
        foreign_changes(log_between(cache[topic_name], latest_instant, now), own)
    } else {
        Seq::empty()
    }
}

/// How far a read or take has come: how many samples it has picked and
/// whether it has stopped, which it does once it has picked as many as it
/// was asked for.
pub struct Scan {
    pub picked: nat,
    pub stopped: bool,
}

/// The state in which a read or take sets out.
pub open spec fn scan_start() -> Scan {
    Scan { picked: 0, stopped: false }
}

/// The state after a read or take has come past one more sample: a sample
/// that the condition asks for is picked, and the scan stops where it has
/// then picked `max` samples or more. A scan that has stopped stays as it is.
pub open spec fn scan_step(st: Scan, info: SampleInfo, cond: ReadCondition, max: nat) -> Scan {
    if st.stopped {
        st
    } else {
        let picked = if cond.spec_matches(info) {
            st.picked + 1
        } else {
            st.picked
        };
        Scan { picked, stopped: picked >= max }
    }
}

/// The state after a scan that entered a row in the state `st` has come
/// past all of its samples.
pub open spec fn scan_row<D: Keyed>(
    row: Seq<DataSample<D>>,
    cond: ReadCondition,
    max: nat,
    st: Scan,
) -> Scan
    decreases row.len(),
{
    if row.len() == 0 {
        st
    } else {
        scan_step(scan_row(row.drop_last(), cond, max, st), row.last().sample_info, cond, max)
    }
}

/// The state after a scan has come past all samples of all rows.
pub open spec fn scan_rows<D: Keyed>(rows: Rows<D>, cond: ReadCondition, max: nat) -> Scan
    decreases rows.len(),
{
    if rows.len() == 0 {
        scan_start()
    } else {
        scan_row(rows.last().1, cond, max, scan_rows::<D>(rows.drop_last(), cond, max))
    }
}

/// Whether a scan that entered the row in the state `st` picks the sample at
/// `c`: it has not stopped before it and the condition asks for it.
pub open spec fn picks<D: Keyed>(
    row: Seq<DataSample<D>>,
    c: int,
    cond: ReadCondition,
    max: nat,
    st: Scan,
) -> bool {
    !scan_row(row.take(c), cond, max, st).stopped && cond.spec_matches(row[c].sample_info)
}

/// The sample once the application has seen it.
pub open spec fn as_read<D: Keyed>(sample: DataSample<D>) -> DataSample<D> {
    DataSample {
        sample_info: SampleInfo { sample_state: SampleState::Read, ..sample.sample_info },
        value: sample.value,
    }
}

/// The samples of a row that a scan picks, in the row's order, as the
/// application sees them.
pub open spec fn row_picked<D: Keyed>(
    row: Seq<DataSample<D>>,
    cond: ReadCondition,
    max: nat,
    st: Scan,
) -> Seq<DataSample<D>>
    decreases row.len(),
{
    if row.len() == 0 {
        Seq::empty()
    } else if picks(row, row.len() - 1, cond, max, st) {
        row_picked(row.drop_last(), cond, max, st).push(as_read(row.last()))
    } else {
        row_picked(row.drop_last(), cond, max, st)
    }
}

/// The samples of a row that a scan does not pick, in the row's order.
pub open spec fn row_left<D: Keyed>(
    row: Seq<DataSample<D>>,
    cond: ReadCondition,
    max: nat,
    st: Scan,
) -> Seq<DataSample<D>>
    decreases row.len(),
{
    if row.len() == 0 {
        Seq::empty()
    } else if picks(row, row.len() - 1, cond, max, st) {
        row_left(row.drop_last(), cond, max, st)
    } else {
        row_left(row.drop_last(), cond, max, st).push(row.last())
    }
}

/// The row after a read: the samples that the scan picks are seen, the
/// others are as they were.
pub open spec fn row_marked<D: Keyed>(
    row: Seq<DataSample<D>>,
    cond: ReadCondition,
    max: nat,
    st: Scan,
) -> Seq<DataSample<D>> {
    Seq::new(
        row.len(),
        |c: int|
            if picks(row, c, cond, max, st) {
                as_read(row[c])
            } else {
                row[c]
            },
    )
}

/// The samples that a scan of all rows picks: row by row in the order of
/// the keys, within a row in the order of arrival.
pub open spec fn rows_picked<D: Keyed>(rows: Rows<D>, cond: ReadCondition, max: nat) -> Seq<
    DataSample<D>,
>
    decreases rows.len(),
{
    if rows.len() == 0 {
        Seq::empty()
    } else {
        rows_picked::<D>(rows.drop_last(), cond, max) + row_picked(
            rows.last().1,
            cond,
            max,
            scan_rows::<D>(rows.drop_last(), cond, max),
        )
    }
}

/// The rows after a read of all rows.
pub open spec fn rows_marked<D: Keyed>(rows: Rows<D>, cond: ReadCondition, max: nat) -> Rows<D> {
    Seq::new(
        rows.len(),
        |r: int|
            (rows[r].0, row_marked(rows[r].1, cond, max, scan_rows::<D>(rows.take(r), cond, max))),
    )
}

/// The rows after a take of all rows.
pub open spec fn rows_left<D: Keyed>(rows: Rows<D>, cond: ReadCondition, max: nat) -> Rows<D> {
    Seq::new(
        rows.len(),
        |r: int|
            (rows[r].0, row_left(rows[r].1, cond, max, scan_rows::<D>(rows.take(r), cond, max))),
    )
}

/// A sample as a read hands it out: its value by reference.
pub open spec fn lent<'a, D: Keyed>(sample: DataSample<D>) -> DataSample<&'a D> {
    DataSample {
        sample_info: sample.sample_info,
        value: match sample.value {
            Ok(d) => Ok(&d),
            Err(k) => Err(k),
        },
    }
}

/// Samples as a read hands them out.
pub open spec fn all_lent<'a, D: Keyed>(samples: Seq<DataSample<D>>) -> Seq<DataSample<&'a D>> {
    Seq::new(samples.len(), |k: int| lent(samples[k]))
}

/// The instance that a read or take of one instance is of: the instance of
/// the given key or the next after it, and the first instance where no key
/// is given. `None` where there is no such instance to go to.
pub open spec fn chosen_key<D: Keyed>(
    rows: Rows<D>,
    instance_key: Option<D::K>,
    this_or_next: SelectByKey,
) -> Option<D::K> {
    match instance_key {
        Some(k) => match this_or_next {
            SelectByKey::This => Some(k),
            SelectByKey::Next => {
                let q = next_position::<D>(rows, k);
                if q < rows.len() {
                    Some(rows[q].0)
                } else {
                    None
                }
            },
        },
        None => if rows.len() > 0 {
            Some(rows[0].0)
        } else {
            None
        },
    }
}

/// Every sample that a scan leaves in a row was in the row, and so was,
/// before the application saw it, every sample that the scan picks.
pub proof fn lemma_row_scan_within<D: Keyed>(
    row: Seq<DataSample<D>>,
    cond: ReadCondition,
    max: nat,
    st: Scan,
)
    ensures
        forall|k: int|
            0 <= k < row_left(row, cond, max, st).len() ==> row.contains(
                #[trigger] row_left(row, cond, max, st)[k],
            ),
        forall|k: int|
            0 <= k < row_picked(row, cond, max, st).len() ==> exists|c: int|
                0 <= c < row.len() && picks(row, c, cond, max, st) && #[trigger] row_picked(
                    row,
                    cond,
                    max,
                    st,
                )[k] == as_read(row[c]),
        row_left(row, cond, max, st).len() + row_picked(row, cond, max, st).len() == row.len(),
    decreases row.len(),
{
    if row.len() > 0 {
        let head = row.drop_last();
        lemma_row_scan_within(head, cond, max, st);
        let left = row_left(row, cond, max, st);
        let picked = row_picked(row, cond, max, st);
        assert forall|k: int| 0 <= k < left.len() implies row.contains(#[trigger] left[k]) by {
            if k < row_left(head, cond, max, st).len() {
                let x = row_left(head, cond, max, st)[k];
                assert(left[k] == x);
                let w = choose|w: int| 0 <= w < head.len() && head[w] == x;
                assert(row[w] == x);
            } else {
                assert(row[row.len() - 1] == left[k]);
            }
        }
        assert forall|k: int| 0 <= k < picked.len() implies exists|c: int|
            0 <= c < row.len() && picks(row, c, cond, max, st) && #[trigger] picked[k] == as_read(
                row[c],
            ) by {
            if k < row_picked(head, cond, max, st).len() {
                let x = row_picked(head, cond, max, st)[k];
                assert(picked[k] == x);
                let w = choose|w: int|
                    0 <= w < head.len() && picks(head, w, cond, max, st) && x == as_read(head[w]);
                assert(head.take(w) =~= row.take(w));
                assert(picks(row, w, cond, max, st));
                assert(row[w] == head[w]);
            } else {
                let c = row.len() - 1;
                assert(picks(row, c, cond, max, st));
                assert(picked[k] == as_read(row[c]));
            }
        }
    }
}

/// A read or take leaves the rows in the order of their keys, each sample
/// in the row of its instance.
pub proof fn lemma_rows_scan_keep_order<D: Keyed>(rows: Rows<D>, cond: ReadCondition, max: nat)
    requires
        keys_ascend::<D>(rows),
        rows_hold_their_instances::<D>(rows),
    ensures
        keys_ascend::<D>(rows_marked::<D>(rows, cond, max)),
        rows_hold_their_instances::<D>(rows_marked::<D>(rows, cond, max)),
        keys_ascend::<D>(rows_left::<D>(rows, cond, max)),
        rows_hold_their_instances::<D>(rows_left::<D>(rows, cond, max)),
{
    let marked = rows_marked::<D>(rows, cond, max);
    let left = rows_left::<D>(rows, cond, max);
    assert forall|i: int, c: int|
        0 <= i < marked.len() && 0 <= c < marked[i].1.len() implies (#[trigger] marked[i].1[c]).spec_key()
        == marked[i].0 by {
        assert(rows[i].1[c].spec_key() == rows[i].0);
    }
    assert forall|i: int, c: int|
        0 <= i < left.len() && 0 <= c < left[i].1.len() implies (#[trigger] left[i].1[c]).spec_key()
        == left[i].0 by {
        let st = scan_rows::<D>(rows.take(i), cond, max);
        lemma_row_scan_within(rows[i].1, cond, max, st);
        let x = left[i].1[c];
        assert(rows[i].1.contains(x));
        let w = choose|w: int| 0 <= w < rows[i].1.len() && rows[i].1[w] == x;
        assert(rows[i].1[w].spec_key() == rows[i].0);
    }
}

/// The place of the row of the chosen instance, where the rows have one.
pub open spec fn instance_row<D: Keyed>(rows: Rows<D>, key: Option<D::K>) -> Option<int> {
    match key {
        Some(k) => {
            let p = key_position::<D>(rows, k);
            if p < rows.len() && rows[p].0 == k {
                Some(p)
            } else {
                None
            }
        },
        None => None,
    }
}

/// The samples that a read or take of the chosen instance picks: a scan of
/// that instance's row alone, and none where there is no such row.
pub open spec fn instance_picked<D: Keyed>(
    rows: Rows<D>,
    cond: ReadCondition,
    max: nat,
    key: Option<D::K>,
) -> Seq<DataSample<D>> {
    match instance_row::<D>(rows, key) {
        Some(p) => row_picked(rows[p].1, cond, max, scan_start()),
        None => Seq::empty(),
    }
}

/// The rows after a read of the chosen instance.
pub open spec fn rows_after_instance_read<D: Keyed>(
    rows: Rows<D>,
    cond: ReadCondition,
    max: nat,
    key: Option<D::K>,
) -> Rows<D> {
    match instance_row::<D>(rows, key) {
        Some(p) => rows.update(p, (rows[p].0, row_marked(rows[p].1, cond, max, scan_start()))),
        None => rows,
    }
}

/// The rows after a take of the chosen instance.
pub open spec fn rows_after_instance_take<D: Keyed>(
    rows: Rows<D>,
    cond: ReadCondition,
    max: nat,
    key: Option<D::K>,
) -> Rows<D> {
    match instance_row::<D>(rows, key) {
        Some(p) => rows.update(p, (rows[p].0, row_left(rows[p].1, cond, max, scan_start()))),
        None => rows,
    }
}

/// The samples that a list of references shows.
pub open spec fn shown<'a, D: Keyed>(samples: Seq<&'a DataSample<D>>) -> Seq<DataSample<D>> {
    Seq::new(samples.len(), |k: int| *samples[k])
}

/// A read or take of one instance leaves the rows in the order of their
/// keys, each sample in the row of its instance.
pub proof fn lemma_instance_scan_keeps_order<D: Keyed>(
    rows: Rows<D>,
    cond: ReadCondition,
    max: nat,
    key: Option<D::K>,
)
    requires
        keys_ascend::<D>(rows),
        rows_hold_their_instances::<D>(rows),
    ensures
        keys_ascend::<D>(rows_after_instance_read::<D>(rows, cond, max, key)),
        rows_hold_their_instances::<D>(rows_after_instance_read::<D>(rows, cond, max, key)),
        keys_ascend::<D>(rows_after_instance_take::<D>(rows, cond, max, key)),
        rows_hold_their_instances::<D>(rows_after_instance_take::<D>(rows, cond, max, key)),
{
    match instance_row::<D>(rows, key) {
        Some(p) => {
            lemma_key_position::<D>(rows, key->Some_0);
            let marked = rows_after_instance_read::<D>(rows, cond, max, key);
            let left = rows_after_instance_take::<D>(rows, cond, max, key);
            assert forall|i: int, j: int| 0 <= i < j < rows.len() implies marked[i].0.rank()
                < marked[j].0.rank() && left[i].0.rank() < left[j].0.rank() by {
                assert(marked[i].0 == rows[i].0 && marked[j].0 == rows[j].0);
                assert(left[i].0 == rows[i].0 && left[j].0 == rows[j].0);
            }
            assert forall|i: int, c: int|
                0 <= i < marked.len() && 0 <= c < marked[i].1.len() implies (#[trigger] marked[i].1[c]).spec_key()
                == marked[i].0 by {
                assert(rows[i].1[c].spec_key() == rows[i].0);
            }
            assert forall|i: int, c: int|
                0 <= i < left.len() && 0 <= c < left[i].1.len() implies (#[trigger] left[i].1[c]).spec_key()
                == left[i].0 by {
                if i == p {
                    lemma_row_scan_within(rows[p].1, cond, max, scan_start());
                    let x = left[i].1[c];
                    assert(rows[p].1.contains(x));
                    let w = choose|w: int| 0 <= w < rows[p].1.len() && rows[p].1[w] == x;
                    assert(rows[p].1[w].spec_key() == rows[p].0);
                } else {
                    assert(rows[i].1[c].spec_key() == rows[i].0);
                }
            }
        },
        None => {},
    }
}

/// A reader of a keyed topic, as far as it decides: what it holds of its
/// topic and how far into the topic's changes it has looked.
pub struct DataReader<D: Keyed, DA: DeserializerAdapter<D>> {
    qos_policy: QosPolicies,
    guid: GUID,
    topic_name: String,
    pub(crate) datasample_cache: DataSampleCache<D>,
    latest_instant: u64,
    deserializer_type: PhantomData<DA>,
}

impl<D: Keyed, DA: DeserializerAdapter<D>> DataReader<D, DA> {
    /// The samples that the reader holds, by instance.
    pub closed spec fn samples(&self) -> Rows<D> {
        self.datasample_cache@
    }

    /// The history policy by which the reader keeps samples.
    pub closed spec fn history(&self) -> Option<History> {
        self.datasample_cache.history()
    }

    /// The instant of the newest change that the reader has looked at.
    pub closed spec fn latest_instant(&self) -> u64 {
        self.latest_instant
    }

    /// The name of the reader's topic.
    pub closed spec fn topic_name(&self) -> Seq<char> {
        self.topic_name@
    }

    /// The reader's identifier.
    pub closed spec fn spec_guid(&self) -> GUID {
        self.guid
    }

    /// The reader's policies.
    pub closed spec fn spec_qos(&self) -> QosPolicies {
        self.qos_policy
    }

    /// The reader's samples stand by instance in the order of the keys.
    pub closed spec fn wf(&self) -> bool {
        self.datasample_cache.wf()
    }

    /// A reader of the topic `topic_name` with the entity id `my_id` in the
    /// participant with the prefix `participant`. It keeps samples by the
    /// history policy of the topic and looks at changes that come after
    /// `now`.
    ///
    /// Fails with `PreconditionNotMet` where the participant is gone.
    pub fn new(
        participant: Option<GuidPrefix>,
        my_id: EntityId,
        topic_name: String,
        topic_qos: QosPolicies,
        now: u64,
    ) -> (r: Result<Self, Error>)
        ensures
            match r {
                Ok(reader) => {
                    &&& participant is Some
                    &&& reader.wf()
                    &&& reader.spec_guid() == (GUID {
                        guidPrefix: participant->Some_0,
                        entityId: my_id,
                    })
                    &&& reader.topic_name() == topic_name@
                    &&& reader.spec_qos() == topic_qos
                    &&& reader.history() == topic_qos.history
                    &&& reader.samples().len() == 0
                    &&& reader.latest_instant() == now
                },
                Err(e) => participant is None && e == Error::PreconditionNotMet,
            },
    {
        let prefix = match participant {
            Some(prefix) => prefix,
            None => {
                return Err(Error::PreconditionNotMet);
            },
        };
        Ok(
            DataReader {
                qos_policy: topic_qos,
                guid: GUID::new_with_prefix_and_id(prefix, my_id),
                topic_name,
                datasample_cache: DataSampleCache::new(topic_qos),
                latest_instant: now,
                deserializer_type: PhantomData,
            },
        )
    }

    /// The reader's identifier.
    #[verifier::when_used_as_spec(spec_guid)]
    pub fn get_guid(&self) -> (g: GUID)
        ensures
            g == self.spec_guid(),
    {
        self.guid
    }

    /// The reader's policies.
    pub fn get_qos(&self) -> (q: &QosPolicies)
        ensures
            *q == self.spec_qos(),
    {
        &self.qos_policy
    }

    /// Replaces the reader's policies. The samples it holds stay as they
    /// are, kept by the history policy it was made with.
    pub fn set_qos(&mut self, policy: &QosPolicies) -> (r: Result<(), Error>)
        ensures
            r is Ok,
            final(self).spec_qos() == *policy,
            final(self).samples() == old(self).samples(),
            final(self).history() == old(self).history(),
            final(self).latest_instant() == old(self).latest_instant(),
            final(self).topic_name() == old(self).topic_name(),
            final(self).spec_guid() == old(self).spec_guid(),
            final(self).wf() == old(self).wf(),
    {
        self.qos_policy = *policy;
        Ok(())
    }

    /// The samples that the reader holds of the instance with the key
    /// `key`, if it has a row for that instance.
    pub fn get_datasample(&self, key: &D::K) -> (r: Option<&Vec<DataSample<D>>>)
        requires
            self.wf(),
        ensures
            match r {
                Some(row) => exists|i: int|
                    0 <= i < self.samples().len() && self.samples()[i] == (*key, row@),
                None => forall|i: int|
                    0 <= i < self.samples().len() ==> (#[trigger] self.samples()[i]).0 != *key,
            },
    {
        let r = self.datasample_cache.get_datasample(key);
        proof {
            match r {
                Some(row) => {
                    let i = choose|i: int|
                        0 <= i < self.datasample_cache@.len() && self.datasample_cache@[i] == (
                            *key,
                            row@,
                        );
                    assert(self.samples()[i] == (*key, row@));
                },
                None => {},
            }
        }
        r
    }

    /// The state of an instance after a change of the given kind.
    pub fn change_kind_to_instance_state(c_k: &ChangeKind) -> (s: InstanceState)
        ensures
            s == instance_state_of(*c_k),
    {
        match c_k {
            ChangeKind::ALIVE => InstanceState::Alive,
            ChangeKind::NOT_ALIVE_DISPOSED => InstanceState::NotAlive_Disposed,
            ChangeKind::NOT_ALIVE_UNREGISTERED => InstanceState::NotAlive_NoWriters,
        }
    }

    /// Whether the sample is one that the condition asks for.
    pub fn matches_conditions(rcondition: &ReadCondition, dsample: &DataSample<D>) -> (b: bool)
        ensures
            b == rcondition.spec_matches(dsample.sample_info),
    {
        if rcondition.sample_state_mask & dsample.sample_info.sample_state.bit() == 0 {
            return false;
        }
        if rcondition.view_state_mask & dsample.sample_info.view_state.bit() == 0 {
            return false;
        }
        if rcondition.instance_state_mask & dsample.sample_info.instance_state.bit() == 0 {
            return false;
        }
        true
    }

    /// The read of one row: marks the samples that the scan picks as seen
    /// and notes their places, with the row's number, behind `positions`.
    /// The scan enters the row having picked as many samples as
    /// `positions` holds, stopped or not as `stopped` says; the result says
    /// whether it has stopped when it leaves the row.
    fn mark_row(
        row: &mut Vec<DataSample<D>>,
        r: usize,
        read_condition: &ReadCondition,
        max_samples: usize,
        positions: &mut Vec<(usize, usize)>,
        stopped: bool,
    ) -> (now_stopped: bool)
        ensures
            final(row)@ == row_marked(
                old(row)@,
                *read_condition,
                max_samples as nat,
                Scan { picked: old(positions)@.len(), stopped },
            ),
            scan_row(
                old(row)@,
                *read_condition,
                max_samples as nat,
                Scan { picked: old(positions)@.len(), stopped },
            ) == (Scan { picked: final(positions)@.len(), stopped: now_stopped }),
            final(positions)@.len() == old(positions)@.len() + row_picked(
                old(row)@,
                *read_condition,
                max_samples as nat,
                Scan { picked: old(positions)@.len(), stopped },
            ).len(),
            forall|k: int|
                0 <= k < old(positions)@.len() ==> final(positions)@[k] == old(positions)@[k],
            forall|k: int|
                old(positions)@.len() <= k < final(positions)@.len() ==> {
                    &&& (#[trigger] final(positions)@[k]).0 == r
                    &&& final(positions)@[k].1 < old(row)@.len()
                    &&& final(row)@[final(positions)@[k].1 as int] == row_picked(
                        old(row)@,
                        *read_condition,
                        max_samples as nat,
                        Scan { picked: old(positions)@.len(), stopped },
                    )[k - old(positions)@.len()]
                },
    {
        let ghost row0 = row@;
        let ghost pos0 = positions@;
        let ghost cond = *read_condition;
        let ghost max = max_samples as nat;
        let ghost st = Scan { picked: pos0.len(), stopped };
        let n = row.len();
        let mut stopped = stopped;
        let mut c: usize = 0;
        assert(row0.take(0) =~= Seq::<DataSample<D>>::empty());
        while c < n
            invariant
                n == row0.len(),
                row@.len() == n,
                c <= n,
                cond == *read_condition,
                max == max_samples as nat,
                forall|c2: int| 0 <= c2 < c ==> row@[c2] == row_marked(row0, cond, max, st)[c2],
                forall|c2: int| c <= c2 < n ==> row@[c2] == row0[c2],
                scan_row(row0.take(c as int), cond, max, st) == (Scan {
                    picked: positions@.len(),
                    stopped,
                }),
                positions@.len() == pos0.len() + row_picked(row0.take(c as int), cond, max, st).len(),
                forall|k: int| 0 <= k < pos0.len() ==> positions@[k] == pos0[k],
                forall|k: int|
                    pos0.len() <= k < positions@.len() ==> {
                        &&& (#[trigger] positions@[k]).0 == r
                        &&& positions@[k].1 < c
                        &&& row@[positions@[k].1 as int] == row_picked(
                            row0.take(c as int),
                            cond,
                            max,
                            st,
                        )[k - pos0.len()]
                    },
            decreases n - c,
        {
            let ghost upto = row0.take(c as int + 1);
            let ghost picked_before = row_picked(row0.take(c as int), cond, max, st);
            let ghost row_before = row@;
            let ghost pos_before = positions@;
            proof {
                assert(upto.drop_last() =~= row0.take(c as int));
                assert(upto.last() == row0[c as int]);
                assert(upto.take(upto.len() - 1) =~= row0.take(c as int));
            }
            if !stopped {
                if Self::matches_conditions(read_condition, &row[c]) {
                    row[c].sample_info.sample_state = SampleState::Read;
                    positions.push((r, c));
                    assert(row@[c as int] == as_read(row0[c as int]));
                }
                if positions.len() >= max_samples {
                    stopped = true;
                }
            }
            proof {
                assert(picks(upto, upto.len() - 1, cond, max, st) == picks(
                    row0,
                    c as int,
                    cond,
                    max,
                    st,
                ));
                assert(row@[c as int] == row_marked(row0, cond, max, st)[c as int]);
                assert forall|c2: int| 0 <= c2 < c implies row@[c2] == row_marked(
                    row0,
                    cond,
                    max,
                    st,
                )[c2] by {
                    assert(row@[c2] == row_before[c2]);
                }
                let picked_now = row_picked(upto, cond, max, st);
                assert forall|k: int| pos0.len() <= k < positions@.len() implies {
                    &&& (#[trigger] positions@[k]).0 == r
                    &&& positions@[k].1 < c + 1
                    &&& row@[positions@[k].1 as int] == picked_now[k - pos0.len()]
                } by {
                    if k < pos_before.len() {
                        assert(positions@[k] == pos_before[k]);
                        assert(row@[pos_before[k].1 as int] == row_before[pos_before[k].1 as int]);
                        assert(picked_now[k - pos0.len()] == picked_before[k - pos0.len()]);
                    }
                }
            }
            c += 1;
        }
        assert(row0.take(n as int) =~= row0);
        assert(row@ =~= row_marked(row0, cond, max, st));
        stopped
    }

    /// The take of one row: moves the samples that the scan picks behind
    /// `result`, marked as seen. The scan enters the row having picked as
    /// many samples as `result` holds, stopped or not as `stopped` says; the
    /// result says whether it has stopped when it leaves the row.
    fn take_row(
        row: &mut Vec<DataSample<D>>,
        read_condition: &ReadCondition,
        max_samples: usize,
        result: &mut Vec<DataSample<D>>,
        stopped: bool,
    ) -> (now_stopped: bool)
        ensures
            final(row)@ == row_left(
                old(row)@,
                *read_condition,
                max_samples as nat,
                Scan { picked: old(result)@.len(), stopped },
            ),
            final(result)@ == old(result)@ + row_picked(
                old(row)@,
                *read_condition,
                max_samples as nat,
                Scan { picked: old(result)@.len(), stopped },
            ),
            scan_row(
                old(row)@,
                *read_condition,
                max_samples as nat,
                Scan { picked: old(result)@.len(), stopped },
            ) == (Scan { picked: final(result)@.len(), stopped: now_stopped }),
    {
        let ghost row0 = row@;
        let ghost res0 = result@;
        let ghost cond = *read_condition;
        let ghost max = max_samples as nat;
        let ghost st = Scan { picked: res0.len(), stopped };
        let ghost mut j: int = 0;
        let mut stopped = stopped;
        let mut ind: usize = 0;
        proof {
            assert(row0.take(0) =~= Seq::<DataSample<D>>::empty());
            assert(row0.skip(0) =~= row0);
            assert(row@ =~= row_left(row0.take(0), cond, max, st) + row0.skip(0));
            assert(result@ =~= res0 + row_picked(row0.take(0), cond, max, st));
        }
        while ind < row.len()
            invariant
                0 <= j <= row0.len(),
                cond == *read_condition,
                max == max_samples as nat,
                ind == row_left(row0.take(j), cond, max, st).len(),
                row@ == row_left(row0.take(j), cond, max, st) + row0.skip(j),
                result@ == res0 + row_picked(row0.take(j), cond, max, st),
                scan_row(row0.take(j), cond, max, st) == (Scan { picked: result@.len(), stopped }),
            decreases row0.len() - j,
        {
            let ghost upto = row0.take(j + 1);
            let ghost left_before = row_left(row0.take(j), cond, max, st);
            let ghost picked_before = row_picked(row0.take(j), cond, max, st);
            proof {
                assert(row0.skip(j).len() > 0);
                assert(row@[ind as int] == row0.skip(j)[0]);
                assert(upto.drop_last() =~= row0.take(j));
                assert(upto.last() == row0[j]);
                assert(upto.take(upto.len() - 1) =~= row0.take(j));
                assert(row0.skip(j + 1) =~= row0.skip(j).skip(1));
            }
            if !stopped {
                // A sample that is removed makes room for the next one at
                // the same place.
                if Self::matches_conditions(read_condition, &row[ind]) {
                    let mut datasample = row.remove(ind);
                    datasample.sample_info.sample_state = SampleState::Read;
                    result.push(datasample);
                    proof {
                        assert(datasample == as_read(row0[j]));
                        assert(row@ =~= left_before + row0.skip(j + 1));
                        assert(result@ =~= res0 + picked_before.push(as_read(row0[j])));
                    }
                } else {
                    ind += 1;
                    proof {
                        assert(row@ =~= left_before.push(row0[j]) + row0.skip(j + 1));
                    }
                }
                if result.len() >= max_samples {
                    stopped = true;
                }
            } else {
                ind += 1;
                proof {
                    assert(row@ =~= left_before.push(row0[j]) + row0.skip(j + 1));
                }
            }
            proof {
                j = j + 1;
            }
        }
        proof {
            assert(row0.skip(j).len() == 0);
            assert(row0.take(j) =~= row0);
            assert(row@ =~= row_left(row0, cond, max, st));
        }
        stopped
    }

    /// The reader's samples once it has looked at the changes that came up
    /// to `now`.
    pub open spec fn samples_after_fetch(&self, cache: Map<Seq<char>, ChangeLog>, now: u64) -> Rows<
        D,
    > {
        rows_after_changes::<D, DA>(
            self.samples(),
            unseen_changes(
                cache,
                self.topic_name(),
                self.latest_instant(),
                now,
                self.spec_guid().guidPrefix,
            ),
            self.history(),
        )
    }

    /// The instant of the newest change that the reader has looked at once
    /// it has looked at those that came up to `now`.
    pub open spec fn instant_after_fetch(&self, cache: Map<Seq<char>, ChangeLog>, now: u64) -> u64 {
        let unseen = unseen_changes(
            cache,
            self.topic_name(),
            self.latest_instant(),
            now,
            self.spec_guid().guidPrefix,
        );
        if unseen.len() > 0 {
            unseen.last().0
        } else {
            self.latest_instant()
        }
    }

    /// Reliable delivery at `take`: a reader that keeps every sample hands
    /// out, where it asks for every sample and for no fewer than it then
    /// holds, all samples that it holds once it has looked at the changes
    /// that came up to `now`, each once, and keeps none. They come instance
    /// by instance in the order of the keys; the samples of one instance
    /// are those that the reader held of it before, and behind them one
    /// for each change that became a sample of it, in the order in which
    /// the cache holds the changes.
    pub proof fn lemma_take_hands_out_every_change(
        &self,
        cache: Map<Seq<char>, ChangeLog>,
        now: u64,
        max: nat,
    )
        requires
            self.wf(),
            self.history() == Some(History::KeepAll),
            all_samples::<D>(self.samples_after_fetch(cache, now)).len() <= max,
        ensures
            rows_picked::<D>(self.samples_after_fetch(cache, now), ReadCondition::spec_any(), max)
                == seen(all_samples::<D>(self.samples_after_fetch(cache, now))),
            forall|r: int|
                0 <= r < self.samples_after_fetch(cache, now).len() ==> (#[trigger] rows_left::<D>(
                    self.samples_after_fetch(cache, now),
                    ReadCondition::spec_any(),
                    max,
                )[r]).1.len() == 0,
            forall|key: D::K| #[trigger]
                row_of::<D>(self.samples_after_fetch(cache, now), key) == row_of::<D>(
                    self.samples(),
                    key,
                ) + instance_samples::<D, DA>(
                    self.samples(),
                    unseen_changes(
                        cache,
                        self.topic_name(),
                        self.latest_instant(),
                        now,
                        self.spec_guid().guidPrefix,
                    ),
                    Some(History::KeepAll),
                    key,
                ),
    {
        let rows = self.samples_after_fetch(cache, now);
        lemma_take_hands_out_everything::<D>(rows, max);
        assert forall|key: D::K| #[trigger]
            row_of::<D>(rows, key) == row_of::<D>(self.samples(), key) + instance_samples::<D, DA>(
                self.samples(),
                unseen_changes(
                    cache,
                    self.topic_name(),
                    self.latest_instant(),
                    now,
                    self.spec_guid().guidPrefix,
                ),
                Some(History::KeepAll),
                key,
            ) by {
            lemma_rows_hold_every_change::<D, DA>(
                self.samples(),
                unseen_changes(
                    cache,
                    self.topic_name(),
                    self.latest_instant(),
                    now,
                    self.spec_guid().guidPrefix,
                ),
                key,
            );
        }
    }

    /// Nothing of the reader but its samples and the instant of its last
    /// look may differ from `before`.
    pub open spec fn same_reader_as(&self, before: &Self) -> bool {
        &&& self.history() == before.history()
        &&& self.topic_name() == before.topic_name()
        &&& self.spec_guid() == before.spec_guid()
        &&& self.spec_qos() == before.spec_qos()
    }

    /// Takes in the changes that came up to `now`, then hands out the samples
    /// that `read_condition` asks for, by reference, and marks them as seen.
    ///
    /// The samples are looked at instance by instance in the order of the
    /// keys, within an instance in the order of arrival. The look ends after
    /// the sample with which `max_samples` samples or more are picked.
    pub fn read(
        &mut self,
        dds_cache: &DDSCache,
        now: u64,
        max_samples: usize,
        read_condition: ReadCondition,
    ) -> (r: Result<Vec<DataSample<&D>>, Error>)
        requires
            old(self).wf(),
            dds_cache.wf(),
        ensures
            final(self).wf(),
            final(self).same_reader_as(old(self)),
            final(self).latest_instant() == old(self).instant_after_fetch(dds_cache@, now),
            final(self).samples() == rows_marked::<D>(
                old(self).samples_after_fetch(dds_cache@, now),
                read_condition,
                max_samples as nat,
            ),
            r is Ok,
            r->Ok_0@ == all_lent(
                rows_picked::<D>(
                    old(self).samples_after_fetch(dds_cache@, now),
                    read_condition,
                    max_samples as nat,
                ),
            ),
    {
        self.read_as_obj(dds_cache, now, max_samples, read_condition)
    }

    /// Takes in the changes that came up to `now`, then hands over the
    /// samples that `read_condition` asks for, marked as seen; the reader
    /// holds them no longer.
    ///
    /// The samples are looked at instance by instance in the order of the
    /// keys, within an instance in the order of arrival. The look ends after
    /// the sample with which `max_samples` samples or more are picked.
    pub fn take(
        &mut self,
        dds_cache: &DDSCache,
        now: u64,
        max_samples: usize,
        read_condition: ReadCondition,
    ) -> (r: Result<Vec<DataSample<D>>, Error>)
        requires
            old(self).wf(),
            dds_cache.wf(),
        ensures
            final(self).wf(),
            final(self).same_reader_as(old(self)),
            final(self).latest_instant() == old(self).instant_after_fetch(dds_cache@, now),
            final(self).samples() == rows_left::<D>(
                old(self).samples_after_fetch(dds_cache@, now),
                read_condition,
                max_samples as nat,
            ),
            r is Ok,
            r->Ok_0@ == rows_picked::<D>(
                old(self).samples_after_fetch(dds_cache@, now),
                read_condition,
                max_samples as nat,
            ),
    {
        self.take_as_obj(dds_cache, now, max_samples, read_condition)
    }

    /// The work of `read`.
    pub(crate) fn read_as_obj(
        &mut self,
        dds_cache: &DDSCache,
        now: u64,
        max_samples: usize,
        read_condition: ReadCondition,
    ) -> (r: Result<Vec<DataSample<&D>>, Error>)
        requires
            old(self).wf(),
            dds_cache.wf(),
        ensures
            final(self).wf(),
            final(self).same_reader_as(old(self)),
            final(self).latest_instant() == old(self).instant_after_fetch(dds_cache@, now),
            final(self).samples() == rows_marked::<D>(
                old(self).samples_after_fetch(dds_cache@, now),
                read_condition,
                max_samples as nat,
            ),
            r is Ok,
            r->Ok_0@ == all_lent(
                rows_picked::<D>(
                    old(self).samples_after_fetch(dds_cache@, now),
                    read_condition,
                    max_samples as nat,
                ),
            ),
    {
        self.get_datasamples_from_cache(dds_cache, now);
        let ghost rows0 = self.samples();
        let ghost cond = read_condition;
        let ghost max = max_samples as nat;
        let ghost fetched = *self;
        proof {
            self.datasample_cache.lemma_view();
        }
        let nrows = self.datasample_cache.datasamples.len();
        let mut positions: Vec<(usize, usize)> = Vec::new();
        let mut stopped = false;
        let mut r: usize = 0;
        assert(rows0.take(0) =~= Seq::<(D::K, Seq<DataSample<D>>)>::empty());
        while r < nrows
            invariant
                nrows == rows0.len(),
                r <= nrows,
                cond == read_condition,
                max == max_samples as nat,
                self.datasample_cache.datasamples@.len() == nrows,
                forall|r2: int|
                    0 <= r2 < r ==> {
                        &&& (#[trigger] self.datasample_cache.datasamples@[r2]).0 == rows0[r2].0
                        &&& self.datasample_cache.datasamples@[r2].1@ == rows_marked::<D>(
                            rows0,
                            cond,
                            max,
                        )[r2].1
                    },
                forall|r2: int|
                    r <= r2 < nrows ==> {
                        &&& (#[trigger] self.datasample_cache.datasamples@[r2]).0 == rows0[r2].0
                        &&& self.datasample_cache.datasamples@[r2].1@ == rows0[r2].1
                    },
                scan_rows::<D>(rows0.take(r as int), cond, max) == (Scan {
                    picked: positions@.len(),
                    stopped,
                }),
                positions@.len() == rows_picked::<D>(rows0.take(r as int), cond, max).len(),
                forall|k: int|
                    0 <= k < positions@.len() ==> {
                        &&& (#[trigger] positions@[k]).0 < r
                        &&& positions@[k].1 < rows0[positions@[k].0 as int].1.len()
                        &&& self.datasample_cache.datasamples@[positions@[k].0 as int].1@[positions@[k].1 as int]
                            == rows_picked::<D>(rows0.take(r as int), cond, max)[k]
                    },
                self.same_reader_as(&fetched),
                self.datasample_cache.qos == fetched.datasample_cache.qos,
                self.latest_instant() == fetched.latest_instant(),
            decreases nrows - r,
        {
            let ghost upto = rows0.take(r as int + 1);
            let ghost before = rows_picked::<D>(rows0.take(r as int), cond, max);
            let ghost cache_before = self.datasample_cache.datasamples@;
            let ghost pos_before = positions@;
            proof {
                assert(upto.drop_last() =~= rows0.take(r as int));
                assert(upto.last() == rows0[r as int]);
            }
            stopped =
            Self::mark_row(
                &mut self.datasample_cache.datasamples[r].1,
                r,
                &read_condition,
                max_samples,
                &mut positions,
                stopped,
            );
            proof {
                self.datasample_cache.lemma_history();
                fetched.datasample_cache.lemma_history();
                let now_picked = rows_picked::<D>(upto, cond, max);
                assert forall|k: int| 0 <= k < positions@.len() implies {
                    &&& (#[trigger] positions@[k]).0 < r + 1
                    &&& positions@[k].1 < rows0[positions@[k].0 as int].1.len()
                    &&& self.datasample_cache.datasamples@[positions@[k].0 as int].1@[positions@[k].1 as int]
                        == now_picked[k]
                } by {
                    if k < pos_before.len() {
                        assert(positions@[k] == pos_before[k]);
                        assert(self.datasample_cache.datasamples@[pos_before[k].0 as int]
                            == cache_before[pos_before[k].0 as int]);
                        assert(now_picked[k] == before[k]);
                    }
                }
                assert forall|r2: int| 0 <= r2 < r + 1 implies {
                    &&& (#[trigger] self.datasample_cache.datasamples@[r2]).0 == rows0[r2].0
                    &&& self.datasample_cache.datasamples@[r2].1@ == rows_marked::<D>(
                        rows0,
                        cond,
                        max,
                    )[r2].1
                } by {
                    if r2 < r {
                        assert(self.datasample_cache.datasamples@[r2] == cache_before[r2]);
                    }
                }
                assert forall|r2: int| r + 1 <= r2 < nrows implies {
                    &&& (#[trigger] self.datasample_cache.datasamples@[r2]).0 == rows0[r2].0
                    &&& self.datasample_cache.datasamples@[r2].1@ == rows0[r2].1
                } by {
                    assert(self.datasample_cache.datasamples@[r2] == cache_before[r2]);
                }
            }
            r += 1;
        }
        proof {
            assert(rows0.take(nrows as int) =~= rows0);
            self.datasample_cache.lemma_view();
            assert(self.samples() =~= rows_marked::<D>(rows0, cond, max));
            lemma_rows_scan_keep_order::<D>(rows0, cond, max);
        }
        let ghost picked = rows_picked::<D>(rows0, cond, max);
        let this: &Self = self;
        let mut result: Vec<DataSample<&D>> = Vec::new();
        let n = positions.len();
        let mut k: usize = 0;
        while k < n
            invariant
                n == positions@.len(),
                n == picked.len(),
                k <= n,
                nrows == this.datasample_cache.datasamples@.len(),
                nrows == rows0.len(),
                forall|i: int|
                    0 <= i < n ==> {
                        &&& (#[trigger] positions@[i]).0 < nrows
                        &&& positions@[i].1 < this.datasample_cache.datasamples@[positions@[i].0 as int].1@.len()
                        &&& this.datasample_cache.datasamples@[positions@[i].0 as int].1@[positions@[i].1 as int]
                            == picked[i]
                    },
                result@.len() == k,
                forall|i: int| 0 <= i < k ==> result@[i] == lent(picked[i]),
            decreases n - k,
        {
            let (r, c) = positions[k];
            let sample = &this.datasample_cache.datasamples[r].1[c];
            let value: Result<&D, D::K> = match &sample.value {
                Ok(d) => Ok(d),
                Err(key) => Err(key.clone_key()),
            };
            result.push(DataSample { sample_info: sample.sample_info, value });
            k += 1;
        }
        assert(result@ =~= all_lent(picked));
        Ok(result)
    }

    /// The work of `take`.
    pub(crate) fn take_as_obj(
        &mut self,
        dds_cache: &DDSCache,
        now: u64,
        max_samples: usize,
        read_condition: ReadCondition,
    ) -> (r: Result<Vec<DataSample<D>>, Error>)
        requires
            old(self).wf(),
            dds_cache.wf(),
        ensures
            final(self).wf(),
            final(self).same_reader_as(old(self)),
            final(self).latest_instant() == old(self).instant_after_fetch(dds_cache@, now),
            final(self).samples() == rows_left::<D>(
                old(self).samples_after_fetch(dds_cache@, now),
                read_condition,
                max_samples as nat,
            ),
            r is Ok,
            r->Ok_0@ == rows_picked::<D>(
                old(self).samples_after_fetch(dds_cache@, now),
                read_condition,
                max_samples as nat,
            ),
    {
        self.get_datasamples_from_cache(dds_cache, now);
        let ghost rows0 = self.samples();
        let ghost cond = read_condition;
        let ghost max = max_samples as nat;
        let ghost fetched = *self;
        proof {
            self.datasample_cache.lemma_view();
        }
        let nrows = self.datasample_cache.datasamples.len();
        let mut result: Vec<DataSample<D>> = Vec::new();
        let mut stopped = false;
        let mut r: usize = 0;
        assert(rows0.take(0) =~= Seq::<(D::K, Seq<DataSample<D>>)>::empty());
        while r < nrows
            invariant
                nrows == rows0.len(),
                r <= nrows,
                cond == read_condition,
                max == max_samples as nat,
                self.datasample_cache.datasamples@.len() == nrows,
                forall|r2: int|
                    0 <= r2 < r ==> {
                        &&& (#[trigger] self.datasample_cache.datasamples@[r2]).0 == rows0[r2].0
                        &&& self.datasample_cache.datasamples@[r2].1@ == rows_left::<D>(
                            rows0,
                            cond,
                            max,
                        )[r2].1
                    },
                forall|r2: int|
                    r <= r2 < nrows ==> {
                        &&& (#[trigger] self.datasample_cache.datasamples@[r2]).0 == rows0[r2].0
                        &&& self.datasample_cache.datasamples@[r2].1@ == rows0[r2].1
                    },
                scan_rows::<D>(rows0.take(r as int), cond, max) == (Scan {
                    picked: result@.len(),
                    stopped,
                }),
                result@ == rows_picked::<D>(rows0.take(r as int), cond, max),
                self.same_reader_as(&fetched),
                self.datasample_cache.qos == fetched.datasample_cache.qos,
                self.latest_instant() == fetched.latest_instant(),
            decreases nrows - r,
        {
            let ghost upto = rows0.take(r as int + 1);
            let ghost cache_before = self.datasample_cache.datasamples@;
            proof {
                assert(upto.drop_last() =~= rows0.take(r as int));
                assert(upto.last() == rows0[r as int]);
            }
            stopped =
            Self::take_row(
                &mut self.datasample_cache.datasamples[r].1,
                &read_condition,
                max_samples,
                &mut result,
                stopped,
            );
            proof {
                self.datasample_cache.lemma_history();
                fetched.datasample_cache.lemma_history();
                assert forall|r2: int| 0 <= r2 < r + 1 implies {
                    &&& (#[trigger] self.datasample_cache.datasamples@[r2]).0 == rows0[r2].0
                    &&& self.datasample_cache.datasamples@[r2].1@ == rows_left::<D>(
                        rows0,
                        cond,
                        max,
                    )[r2].1
                } by {
                    if r2 < r {
                        assert(self.datasample_cache.datasamples@[r2] == cache_before[r2]);
                    }
                }
                assert forall|r2: int| r + 1 <= r2 < nrows implies {
                    &&& (#[trigger] self.datasample_cache.datasamples@[r2]).0 == rows0[r2].0
                    &&& self.datasample_cache.datasamples@[r2].1@ == rows0[r2].1
                } by {
                    assert(self.datasample_cache.datasamples@[r2] == cache_before[r2]);
                }
            }
            r += 1;
        }
        proof {
            assert(rows0.take(nrows as int) =~= rows0);
            self.datasample_cache.lemma_view();
            assert(self.samples() =~= rows_left::<D>(rows0, cond, max));
            lemma_rows_scan_keep_order::<D>(rows0, cond, max);
        }
        Ok(result)
    }

    /// Takes in the changes that came up to `now`, then hands out the first
    /// sample that has not been seen, by reference, and marks it as seen.
    pub fn read_next_sample(&mut self, dds_cache: &DDSCache, now: u64) -> (r: Result<
        Option<DataSample<&D>>,
        Error,
    >)
        requires
            old(self).wf(),
            dds_cache.wf(),
        ensures
            final(self).wf(),
            final(self).same_reader_as(old(self)),
            final(self).latest_instant() == old(self).instant_after_fetch(dds_cache@, now),
            final(self).samples() == rows_marked::<D>(
                old(self).samples_after_fetch(dds_cache@, now),
                ReadCondition::spec_not_read(),
                1,
            ),
            r is Ok,
            ({
                let picked = rows_picked::<D>(
                    old(self).samples_after_fetch(dds_cache@, now),
                    ReadCondition::spec_not_read(),
                    1,
                );
                r->Ok_0 == if picked.len() > 0 {
                    Some(lent(picked.last()))
                } else {
                    None
                }
            }),
    {
        let mut ds = match self.read_as_obj(dds_cache, now, 1, ReadCondition::not_read()) {
            Ok(ds) => ds,
            Err(e) => {
                return Err(e);
            },
        };
        Ok(ds.pop())
    }

    /// Takes in the changes that came up to `now`, then hands over the
    /// first sample that has not been seen; the reader holds it no longer.
    pub fn take_next_sample(&mut self, dds_cache: &DDSCache, now: u64) -> (r: Result<
        Option<DataSample<D>>,
        Error,
    >)
        requires
            old(self).wf(),
            dds_cache.wf(),
        ensures
            final(self).wf(),
            final(self).same_reader_as(old(self)),
            final(self).latest_instant() == old(self).instant_after_fetch(dds_cache@, now),
            final(self).samples() == rows_left::<D>(
                old(self).samples_after_fetch(dds_cache@, now),
                ReadCondition::spec_not_read(),
                1,
            ),
            r is Ok,
            ({
                let picked = rows_picked::<D>(
                    old(self).samples_after_fetch(dds_cache@, now),
                    ReadCondition::spec_not_read(),
                    1,
                );
                r->Ok_0 == if picked.len() > 0 {
                    Some(picked.last())
                } else {
                    None
                }
            }),
    {
        let mut ds = match self.take_as_obj(dds_cache, now, 1, ReadCondition::not_read()) {
            Ok(ds) => ds,
            Err(e) => {
                return Err(e);
            },
        };
        Ok(ds.pop())
    }

    /// The key of the instance that a read or take of one instance is of.
    fn choose_key(&self, instance_key: Option<D::K>, this_or_next: SelectByKey) -> (key: Option<
        D::K,
    >)
        requires
            self.wf(),
        ensures
            key == chosen_key::<D>(self.samples(), instance_key, this_or_next),
    {
        match instance_key {
            Some(k) => match this_or_next {
                SelectByKey::This => Some(k),
                SelectByKey::Next => self.datasample_cache.get_next_key(&k),
            },
            None => self.datasample_cache.first_key(),
        }
    }

    /// Works as `read` does, on the samples of one instance only: the
    /// instance of `instance_key`, or the one after it in the order of keys
    /// where `this_or_next` says so, or the first instance where no key is
    /// given. Where the reader holds no such instance, nothing is handed out.
    pub fn read_instance(
        &mut self,
        dds_cache: &DDSCache,
        now: u64,
        max_samples: usize,
        read_condition: ReadCondition,
        instance_key: Option<<D as Keyed>::K>,
        this_or_next: SelectByKey,
    ) -> (r: Result<Vec<&DataSample<D>>, Error>)
        requires
            old(self).wf(),
            dds_cache.wf(),
        ensures
            final(self).wf(),
            final(self).same_reader_as(old(self)),
            final(self).latest_instant() == old(self).instant_after_fetch(dds_cache@, now),
            ({
                let rows = old(self).samples_after_fetch(dds_cache@, now);
                let key = chosen_key::<D>(rows, instance_key, this_or_next);
                &&& final(self).samples() == rows_after_instance_read::<D>(
                    rows,
                    read_condition,
                    max_samples as nat,
                    key,
                )
                &&& r is Ok
                &&& shown(r->Ok_0@) == instance_picked::<D>(
                    rows,
                    read_condition,
                    max_samples as nat,
                    key,
                )
            }),
    {
        self.get_datasamples_from_cache(dds_cache, now);
        let ghost rows = self.samples();
        let ghost cond = read_condition;
        let ghost max = max_samples as nat;
        let ghost fetched = *self;
        let key = self.choose_key(instance_key, this_or_next);
        let ghost chosen = key;
        let mut positions: Vec<(usize, usize)> = Vec::new();
        let mut row_index: usize = 0;
        match key {
            Some(key) => {
                let p = self.datasample_cache.find_position(&key);
                if self.datasample_cache.row_is_of(p, &key) {
                    proof {
                        self.datasample_cache.lemma_view();
                        self.datasample_cache.lemma_history();
                    }
                    let ghost cache_before = self.datasample_cache.datasamples@;
                    Self::mark_row(
                        &mut self.datasample_cache.datasamples[p].1,
                        p,
                        &read_condition,
                        max_samples,
                        &mut positions,
                        false,
                    );
                    row_index = p;
                    proof {
                        self.datasample_cache.lemma_view();
                        self.datasample_cache.lemma_history();
                        let expect = rows_after_instance_read::<D>(rows, cond, max, chosen);
                        assert forall|i: int| 0 <= i < rows.len() implies self.samples()[i]
                            == expect[i] by {
                            if i != p {
                                assert(self.datasample_cache.datasamples@[i] == cache_before[i]);
                            }
                        }
                        assert(self.samples() =~= expect);
                    }
                }
            },
            None => {},
        }
        proof {
            lemma_instance_scan_keeps_order::<D>(rows, cond, max, chosen);
            self.datasample_cache.lemma_view();
        }
        let ghost picked = instance_picked::<D>(rows, cond, max, chosen);
        let this: &Self = self;
        let mut result: Vec<&DataSample<D>> = Vec::new();
        let n = positions.len();
        let mut k: usize = 0;
        while k < n
            invariant
                n == positions@.len(),
                n == picked.len(),
                k <= n,
                n > 0 ==> row_index < this.datasample_cache.datasamples@.len(),
                forall|i: int|
                    0 <= i < n ==> {
                        &&& (#[trigger] positions@[i]).1 < this.datasample_cache.datasamples@[row_index as int].1@.len()
                        &&& this.datasample_cache.datasamples@[row_index as int].1@[positions@[i].1 as int]
                            == picked[i]
                    },
                result@.len() == k,
                forall|i: int| 0 <= i < k ==> *result@[i] == picked[i],
            decreases n - k,
        {
            let c = positions[k].1;
            result.push(&this.datasample_cache.datasamples[row_index].1[c]);
            k += 1;
        }
        assert(shown(result@) =~= picked);
        Ok(result)
    }

    /// Works as `take` does, on the samples of one instance only: the
    /// instance of `instance_key`, or the one after it in the order of keys
    /// where `this_or_next` says so, or the first instance where no key is
    /// given. Where the reader holds no such instance, nothing is handed over.
    pub fn take_instance(
        &mut self,
        dds_cache: &DDSCache,
        now: u64,
        max_samples: usize,
        read_condition: ReadCondition,
        instance_key: Option<<D as Keyed>::K>,
        this_or_next: SelectByKey,
    ) -> (r: Result<Vec<DataSample<D>>, Error>)
        requires
            old(self).wf(),
            dds_cache.wf(),
        ensures
            final(self).wf(),
            final(self).same_reader_as(old(self)),
            final(self).latest_instant() == old(self).instant_after_fetch(dds_cache@, now),
            ({
                let rows = old(self).samples_after_fetch(dds_cache@, now);
                let key = chosen_key::<D>(rows, instance_key, this_or_next);
                &&& final(self).samples() == rows_after_instance_take::<D>(
                    rows,
                    read_condition,
                    max_samples as nat,
                    key,
                )
                &&& r is Ok
                &&& r->Ok_0@ == instance_picked::<D>(rows, read_condition, max_samples as nat, key)
            }),
    {
        self.get_datasamples_from_cache(dds_cache, now);
        let ghost rows = self.samples();
        let ghost cond = read_condition;
        let ghost max = max_samples as nat;
        let key = self.choose_key(instance_key, this_or_next);
        let ghost chosen = key;
        let mut result: Vec<DataSample<D>> = Vec::new();
        match key {
            Some(key) => {
                let p = self.datasample_cache.find_position(&key);
                if self.datasample_cache.row_is_of(p, &key) {
                    proof {
                        self.datasample_cache.lemma_view();
                        self.datasample_cache.lemma_history();
                    }
                    let ghost cache_before = self.datasample_cache.datasamples@;
                    Self::take_row(
                        &mut self.datasample_cache.datasamples[p].1,
                        &read_condition,
                        max_samples,
                        &mut result,
                        false,
                    );
                    proof {
                        self.datasample_cache.lemma_view();
                        self.datasample_cache.lemma_history();
                        let expect = rows_after_instance_take::<D>(rows, cond, max, chosen);
                        assert forall|i: int| 0 <= i < rows.len() implies self.samples()[i]
                            == expect[i] by {
                            if i != p {
                                assert(self.datasample_cache.datasamples@[i] == cache_before[i]);
                            }
                        }
                        assert(self.samples() =~= expect);
                        assert(result@ =~= instance_picked::<D>(rows, cond, max, chosen));
                    }
                }
            },
            None => {},
        }
        proof {
            lemma_instance_scan_keeps_order::<D>(rows, cond, max, chosen);
        }
        Ok(result)
    }

    /// The sample that a change with a payload becomes, given what the
    /// deserializer made of the payload.
    pub fn sample_from_decoded(
        kind: ChangeKind,
        writer_guid: GUID,
        decoded: Result<D, crate::serialization::Error>,
    ) -> (s: Option<DataSample<D>>)
        ensures
            s == sample_of_decoded::<D>(kind, writer_guid, decoded),
    {
        match decoded {
            Ok(payload) => {
                let mut datasample = DataSample::new(Timestamp::time_invalid(), payload, writer_guid);
                datasample.sample_info.instance_state = Self::change_kind_to_instance_state(&kind);
                Some(datasample)
            },
            Err(_) => None,
        }
    }

    /// Takes in one change of the reader's topic.
    fn take_change(&mut self, cc: &CacheChange)
        requires
            old(self).wf(),
        ensures
            final(self).wf(),
            final(self).samples() == rows_after_change::<D, DA>(
                old(self).samples(),
                cc@,
                old(self).history(),
            ),
            final(self).history() == old(self).history(),
            final(self).latest_instant() == old(self).latest_instant(),
            final(self).topic_name() == old(self).topic_name(),
            final(self).spec_guid() == old(self).spec_guid(),
            final(self).spec_qos() == old(self).spec_qos(),
    {
        let sample: Option<DataSample<D>> = match cc.kind {
            ChangeKind::ALIVE => match &cc.data_value {
                Some(ser_payload) => match RepresentationIdentifier::try_from_u16(
                    ser_payload.representation_identifier,
                ) {
                    Ok(rep_id) => {
                        let bytes = bytes_as_slice(&ser_payload.value);
                        Self::sample_from_decoded(
                            cc.kind,
                            cc.writer_guid,
                            DA::from_bytes(bytes, rep_id),
                        )
                    },
                    Err(_) => None,
                },
                None => None,
            },
            ChangeKind::NOT_ALIVE_DISPOSED => match self.datasample_cache.get_key(
                cc.instance_key_hash,
            ) {
                Some(key) => Some(
                    DataSample::new_disposed(Timestamp::time_invalid(), key, cc.writer_guid),
                ),
                // the reader has never seen the instance
                None => None,
            },
            ChangeKind::NOT_ALIVE_UNREGISTERED => None,
        };
        match sample {
            Some(datasample) => {
                self.datasample_cache.add_datasample(datasample);
            },
            None => {},
        }
    }

    /// Looks at the changes of the reader's topic that came after the last
    /// look and not after `now`, oldest first, and takes in those of other
    /// participants. The newest of them is the last that the reader has
    /// looked at.
    pub fn get_datasamples_from_cache(&mut self, dds_cache: &DDSCache, now: u64)
        requires
            old(self).wf(),
            dds_cache.wf(),
        ensures
            final(self).wf(),
            ({
                let unseen = unseen_changes(
                    dds_cache@,
                    old(self).topic_name(),
                    old(self).latest_instant(),
                    now,
                    old(self).spec_guid().guidPrefix,
                );
                &&& final(self).samples() == rows_after_changes::<D, DA>(
                    old(self).samples(),
                    unseen,
                    old(self).history(),
                )
                &&& final(self).latest_instant() == if unseen.len() > 0 {
                    unseen.last().0
                } else {
                    old(self).latest_instant()
                }
            }),
            final(self).history() == old(self).history(),
            final(self).topic_name() == old(self).topic_name(),
            final(self).spec_guid() == old(self).spec_guid(),
            final(self).spec_qos() == old(self).spec_qos(),
    {
        let cache_changes = dds_cache.changes_in_range(&self.topic_name, self.latest_instant, now);
        let ghost in_range = viewed(cache_changes@);
        let ghost unsorted = cache_changes@;
        let sorted = sorted_by_instant(cache_changes);
        proof {
            assert forall|i: int, j: int| 0 <= i < j < unsorted.len() implies unsorted[i].0
                < unsorted[j].0 by {
                assert(in_range[i].0 == unsorted[i].0 && in_range[j].0 == unsorted[j].0);
            }
            lemma_strict_order_is_unique(sorted@, unsorted);
        }
        let ghost own = self.guid.guidPrefix;
        let mut foreign: Vec<(u64, &CacheChange)> = Vec::new();
        let n = sorted.len();
        let mut i: usize = 0;
        proof {
            assert(in_range.take(0) =~= Seq::<(u64, CacheChangeView)>::empty());
            assert(viewed(foreign@) =~= Seq::<(u64, CacheChangeView)>::empty());
        }
        while i < n
            invariant
                n == sorted@.len(),
                i <= n,
                in_range == viewed(sorted@),
                own == self.guid.guidPrefix,
                viewed(foreign@) == foreign_changes(in_range.take(i as int), own),
            decreases n - i,
        {
            let instant = sorted[i].0;
            let cc: &CacheChange = sorted[i].1;
            let ghost before = viewed(foreign@);
            proof {
                let upto = in_range.take(i as int + 1);
                assert(upto.drop_last() =~= in_range.take(i as int));
                assert(upto.last() == in_range[i as int]);
            }
            if !(cc.writer_guid.guidPrefix == self.guid.guidPrefix) {
                foreign.push((instant, cc));
                assert(viewed(foreign@) =~= before.push(in_range[i as int]));
            }
            i += 1;
        }
        assert(in_range.take(n as int) =~= in_range);
        let ghost unseen = viewed(foreign@);
        let m = foreign.len();
        if m == 0 {
            // no new changes
            return ;
        }
        self.latest_instant = foreign[m - 1].0;
        let ghost rows = self.samples();
        let ghost history = self.history();
        let mut k: usize = 0;
        assert(unseen.take(0) =~= Seq::<(u64, CacheChangeView)>::empty());
        while k < m
            invariant
                m == foreign@.len(),
                k <= m,
                unseen == viewed(foreign@),
                self.wf(),
                self.history() == history,
                self.samples() == rows_after_changes::<D, DA>(rows, unseen.take(k as int), history),
                self.latest_instant() == unseen.last().0,
                self.topic_name() == old(self).topic_name(),
                self.spec_guid() == old(self).spec_guid(),
                self.spec_qos() == old(self).spec_qos(),
            decreases m - k,
        {
            proof {
                let upto = unseen.take(k as int + 1);
                assert(upto.drop_last() =~= unseen.take(k as int));
                assert(upto.last() == unseen[k as int]);
            }
            let cc: &CacheChange = foreign[k].1;
            self.take_change(cc);
            k += 1;
        }
        assert(unseen.take(m as int) =~= unseen);
    }
}

} // verus!
