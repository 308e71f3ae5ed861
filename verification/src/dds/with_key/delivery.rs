//! What reaches the application: that a reader holds a sample for every
//! change that came, in the row of its instance and in the order of
//! arrival, and that a take of everything hands each of them out once.

use crate::dds::datasample::DataSample;
use crate::dds::datasample_cache::{
    key_position, keys_ascend, lemma_key_position, lemma_key_position_is, lemma_rows_after_add,
    retained, rows_after_add, rows_hold_their_instances, Rows,
};
use crate::dds::qos::History;
use crate::dds::readcondition::ReadCondition;
use crate::dds::traits::{DeserializerAdapter, Key, Keyed};
use crate::dds::reader::writer_numbers_ascend;
use crate::dds::with_key::datareader::{
    as_read, foreign_changes, picks, row_left, row_picked, rows_after_changes, rows_left,
    rows_picked, sample_of_change, scan_row, scan_rows, Scan,
};
use crate::structure::dds_cache::{instants_increase, lemma_log_between, log_between, ChangeLog};
use crate::structure::guid::{GuidPrefix, GUID};
use vstd::prelude::*;

verus! {

/// All samples of the rows: row by row in the order of the keys, within a
/// row in the order of arrival.
pub open spec fn all_samples<D: Keyed>(rows: Rows<D>) -> Seq<DataSample<D>>
    decreases rows.len(),
{
    if rows.len() == 0 {
        Seq::empty()
    } else {
        all_samples::<D>(rows.drop_last()) + rows.last().1
    }
}

/// Samples as they are once the application has seen them.
pub open spec fn seen<D: Keyed>(samples: Seq<DataSample<D>>) -> Seq<DataSample<D>> {
    Seq::new(samples.len(), |k: int| as_read(samples[k]))
}

/// The samples of the instance with the key `key`, in the order of their
/// arrival; none where the rows have no such instance.
pub open spec fn row_of<D: Keyed>(rows: Rows<D>, key: D::K) -> Seq<DataSample<D>> {
    let p = key_position::<D>(rows, key);
    if p < rows.len() && rows[p].0 == key {
        rows[p].1
    } else {
        Seq::empty()
    }
}

/// The samples that the changes of a log become for the instance with the
/// key `key`, in the order of the log, for a reader that held `rows` before
/// and keeps samples by the policy `history`.
pub open spec fn instance_samples<D: Keyed, DA: DeserializerAdapter<D>>(
    rows: Rows<D>,
    log: ChangeLog,
    history: Option<History>,
    key: D::K,
) -> Seq<DataSample<D>>
    decreases log.len(),
{
    if log.len() == 0 {
        Seq::empty()
    } else {
        let before = instance_samples::<D, DA>(rows, log.drop_last(), history, key);
        match sample_of_change::<D, DA>(
            rows_after_changes::<D, DA>(rows, log.drop_last(), history),
            log.last().1,
        ) {
            Some(sample) => if sample.spec_key() == key {
                before.push(sample)
            } else {
                before
            },
            None => before,
        }
    }
}

/// The first rows hold no more samples than all of them.
pub proof fn lemma_all_samples_grow<D: Keyed>(rows: Rows<D>, r: int)
    requires
        0 <= r <= rows.len(),
    ensures
        all_samples::<D>(rows.take(r)).len() <= all_samples::<D>(rows).len(),
    decreases rows.len() - r,
{
    if r < rows.len() {
        lemma_all_samples_grow::<D>(rows, r + 1);
        assert(rows.take(r + 1).drop_last() =~= rows.take(r));
    } else {
        assert(rows.take(r) =~= rows);
    }
}

/// A scan for every sample that enters a row with room for all of its
/// samples picks them all, leaves none and counts each.
proof fn lemma_row_take_all<D: Keyed>(row: Seq<DataSample<D>>, max: nat, st: Scan)
    requires
        row.len() == 0 || (!st.stopped && st.picked + row.len() <= max),
    ensures
        row_picked(row, ReadCondition::spec_any(), max, st) == seen(row),
        row_left(row, ReadCondition::spec_any(), max, st).len() == 0,
        scan_row(row, ReadCondition::spec_any(), max, st).picked == st.picked + row.len(),
        scan_row(row, ReadCondition::spec_any(), max, st).stopped == (st.stopped || (row.len() > 0
            && st.picked + row.len() >= max)),
    decreases row.len(),
{
    let any = ReadCondition::spec_any();
    if row.len() == 0 {
        assert(row_picked(row, any, max, st) =~= seen(row));
    } else {
        let head = row.drop_last();
        lemma_row_take_all(head, max, st);
        ReadCondition::lemma_any_matches_all(row.last().sample_info);
        assert(row.take(row.len() - 1) =~= head);
        assert(picks(row, row.len() - 1, any, max, st));
        assert(row_picked(row, any, max, st) =~= seen(row));
    }
}

/// A scan for every sample of rows that hold no more than it may pick
/// counts every sample, and stops with the last where they are as many as
/// it may pick.
proof fn lemma_scan_all<D: Keyed>(rows: Rows<D>, max: nat)
    requires
        all_samples::<D>(rows).len() <= max,
    ensures
        scan_rows::<D>(rows, ReadCondition::spec_any(), max).picked == all_samples::<D>(
            rows,
        ).len(),
        scan_rows::<D>(rows, ReadCondition::spec_any(), max).stopped ==> all_samples::<D>(
            rows,
        ).len() >= max,
    decreases rows.len(),
{
    if rows.len() > 0 {
        let head = rows.drop_last();
        lemma_scan_all::<D>(head, max);
        let st = scan_rows::<D>(head, ReadCondition::spec_any(), max);
        lemma_row_take_all(rows.last().1, max, st);
    }
}

/// A take of everything hands out everything, once: where the rows hold no
/// more samples than the take may pick and the condition asks for every
/// sample, the take picks all samples of all rows, row by row in the order
/// of the keys and within a row in the order of arrival, each as the
/// application then has seen it, and leaves no sample in any row.
pub proof fn lemma_take_hands_out_everything<D: Keyed>(rows: Rows<D>, max: nat)
    requires
        all_samples::<D>(rows).len() <= max,
    ensures
        rows_picked::<D>(rows, ReadCondition::spec_any(), max) == seen(all_samples::<D>(rows)),
        rows_left::<D>(rows, ReadCondition::spec_any(), max).len() == rows.len(),
        forall|r: int|
            0 <= r < rows.len() ==> (#[trigger] rows_left::<D>(
                rows,
                ReadCondition::spec_any(),
                max,
            )[r]).1.len() == 0 && rows_left::<D>(rows, ReadCondition::spec_any(), max)[r].0
                == rows[r].0,
    decreases rows.len(),
{
    let any = ReadCondition::spec_any();
    if rows.len() == 0 {
        assert(rows_picked::<D>(rows, any, max) =~= seen(all_samples::<D>(rows)));
    } else {
        let head = rows.drop_last();
        lemma_take_hands_out_everything::<D>(head, max);
        lemma_scan_all::<D>(head, max);
        let st = scan_rows::<D>(head, any, max);
        lemma_row_take_all(rows.last().1, max, st);
        assert(rows_picked::<D>(rows, any, max) =~= seen(all_samples::<D>(rows)));
    }
    assert forall|r: int| 0 <= r < rows.len() implies (#[trigger] rows_left::<D>(
        rows,
        any,
        max,
    )[r]).1.len() == 0 && rows_left::<D>(rows, any, max)[r].0 == rows[r].0 by {
        lemma_all_samples_grow::<D>(rows, r + 1);
        assert(rows.take(r + 1).drop_last() =~= rows.take(r));
        assert(rows.take(r + 1).last() == rows[r]);
        lemma_scan_all::<D>(rows.take(r), max);
        lemma_row_take_all(rows[r].1, max, scan_rows::<D>(rows.take(r), any, max));
    }
}

/// A sample that arrives joins the row of its instance as its newest, of
/// which the history policy then keeps the newest; the rows of the other
/// instances stay as they are.
pub proof fn lemma_row_after_add<D: Keyed>(
    rows: Rows<D>,
    sample: DataSample<D>,
    history: Option<History>,
    key: D::K,
)
    requires
        keys_ascend::<D>(rows),
        rows_hold_their_instances::<D>(rows),
    ensures
        row_of::<D>(rows_after_add(rows, sample, history), key) == if key == sample.spec_key() {
            retained(row_of::<D>(rows, key).push(sample), history)
        } else {
            row_of::<D>(rows, key)
        },
{
    let own = sample.spec_key();
    let p = key_position::<D>(rows, own);
    let q = key_position::<D>(rows, key);
    let after = rows_after_add(rows, sample, history);
    lemma_key_position::<D>(rows, own);
    lemma_key_position::<D>(rows, key);
    lemma_rows_after_add(rows, sample, history);
    if p < rows.len() && rows[p].0 == own {
        assert forall|i: int| 0 <= i < after.len() implies (#[trigger] after[i]).0 == rows[i].0 by {
        }
        lemma_key_position_is::<D>(after, key, q);
        if key == own {
        } else if q < rows.len() && rows[q].0 == key {
            assert(q != p);
        }
    } else {
        if p < rows.len() {
            assert(rows[p].0.rank() != own.rank()) by {
                if rows[p].0.rank() == own.rank() {
                    D::K::rank_is_injective(&rows[p].0, &own);
                }
            }
        }
        assert forall|i: int| 0 <= i < after.len() implies (#[trigger] after[i]) == if i < p {
            rows[i]
        } else if i == p {
            (own, retained(seq![sample], history))
        } else {
            rows[i - 1]
        } by {
        }
        if key == own {
            lemma_key_position_is::<D>(after, key, p);
            assert(row_of::<D>(rows, key).push(sample) =~= seq![sample]);
        } else {
            assert(key.rank() != own.rank()) by {
                if key.rank() == own.rank() {
                    D::K::rank_is_injective(&key, &own);
                }
            }
            if key.rank() < own.rank() {
                assert(q <= p) by {
                    if q > p {
                        assert(rows[p].0.rank() < key.rank());
                    }
                }
                assert forall|i: int| 0 <= i < q implies (#[trigger] after[i]).0.rank()
                    < key.rank() by {
                    assert(after[i] == rows[i]);
                }
                lemma_key_position_is::<D>(after, key, q);
            } else {
                assert(q >= p) by {
                    if q < p {
                        assert(rows[q].0.rank() < own.rank());
                    }
                }
                assert forall|i: int| 0 <= i < q + 1 implies (#[trigger] after[i]).0.rank()
                    < key.rank() by {
                    if i < p {
                        assert(after[i] == rows[i]);
                    } else if i > p {
                        assert(after[i] == rows[i - 1]);
                    }
                }
                lemma_key_position_is::<D>(after, key, q + 1);
            }
        }
    }
}

/// Taking changes in leaves the rows in the order of their keys, each
/// sample in the row of its instance.
pub proof fn lemma_rows_after_changes<D: Keyed, DA: DeserializerAdapter<D>>(
    rows: Rows<D>,
    log: ChangeLog,
    history: Option<History>,
)
    requires
        keys_ascend::<D>(rows),
        rows_hold_their_instances::<D>(rows),
    ensures
        keys_ascend::<D>(rows_after_changes::<D, DA>(rows, log, history)),
        rows_hold_their_instances::<D>(rows_after_changes::<D, DA>(rows, log, history)),
    decreases log.len(),
{
    if log.len() > 0 {
        lemma_rows_after_changes::<D, DA>(rows, log.drop_last(), history);
        let before = rows_after_changes::<D, DA>(rows, log.drop_last(), history);
        match sample_of_change::<D, DA>(before, log.last().1) {
            Some(sample) => lemma_rows_after_add(before, sample, history),
            None => {},
        }
    }
}

/// None lost, none twice: a reader that keeps every sample holds, after it
/// has taken in the changes of a log, in the row of each instance the
/// samples that it held there before and behind them the samples that the
/// changes became for that instance, one for each such change, in the
/// order of the log.
pub proof fn lemma_rows_hold_every_change<D: Keyed, DA: DeserializerAdapter<D>>(
    rows: Rows<D>,
    log: ChangeLog,
    key: D::K,
)
    requires
        keys_ascend::<D>(rows),
        rows_hold_their_instances::<D>(rows),
    ensures
        row_of::<D>(rows_after_changes::<D, DA>(rows, log, Some(History::KeepAll)), key)
            == row_of::<D>(rows, key) + instance_samples::<D, DA>(
            rows,
            log,
            Some(History::KeepAll),
            key,
        ),
    decreases log.len(),
{
    let all = Some(History::KeepAll);
    if log.len() == 0 {
        assert(row_of::<D>(rows, key) + Seq::<DataSample<D>>::empty() =~= row_of::<D>(rows, key));
    } else {
        let head = log.drop_last();
        lemma_rows_hold_every_change::<D, DA>(rows, head, key);
        lemma_rows_after_changes::<D, DA>(rows, head, all);
        let before = rows_after_changes::<D, DA>(rows, head, all);
        let came = instance_samples::<D, DA>(rows, head, all, key);
        match sample_of_change::<D, DA>(before, log.last().1) {
            Some(sample) => {
                lemma_row_after_add(before, sample, all, key);
                if sample.spec_key() == key {
                    assert((row_of::<D>(rows, key) + came).push(sample) =~= row_of::<D>(rows, key)
                        + came.push(sample));
                }
            },
            None => {},
        }
    }
}

/// A part of a log keeps the order of the log: where the instants of both
/// increase and the changes of a writer stand in the log in the order of
/// their sequence numbers, they stand so in the part.
pub proof fn lemma_part_keeps_order(part: ChangeLog, log: ChangeLog, writer: GUID)
    requires
        instants_increase(log),
        instants_increase(part),
        forall|k: int| 0 <= k < part.len() ==> log.contains(#[trigger] part[k]),
        writer_numbers_ascend(log, writer),
    ensures
        writer_numbers_ascend(part, writer),
{
    assert forall|i: int, j: int|
        0 <= i < j < part.len() && part[i].1.writer_guid == writer && part[j].1.writer_guid
            == writer implies part[i].1.sequence_number.0 < part[j].1.sequence_number.0 by {
        assert(log.contains(part[i]));
        assert(log.contains(part[j]));
        let a = choose|a: int| 0 <= a < log.len() && log[a] == part[i];
        let b = choose|b: int| 0 <= b < log.len() && log[b] == part[j];
        assert(part[i].0 < part[j].0);
        if a > b {
            assert(log[b].0 < log[a].0);
        }
        assert(a < b);
    }
}

/// The changes of other participants are changes of the log, in the order
/// of the log.
pub proof fn lemma_foreign_changes(log: ChangeLog, own: GuidPrefix)
    requires
        instants_increase(log),
    ensures
        instants_increase(foreign_changes(log, own)),
        forall|k: int|
            0 <= k < foreign_changes(log, own).len() ==> log.contains(
                #[trigger] foreign_changes(log, own)[k],
            ),
    decreases log.len(),
{
    if log.len() > 0 {
        let head = log.drop_last();
        lemma_foreign_changes(head, own);
        let before = foreign_changes(head, own);
        let all = foreign_changes(log, own);
        assert forall|k: int| 0 <= k < all.len() implies log.contains(#[trigger] all[k]) by {
            if k < before.len() {
                assert(all[k] == before[k]);
                assert(head.contains(before[k]));
                let a = choose|a: int| 0 <= a < head.len() && head[a] == before[k];
                assert(log[a] == all[k]);
            } else {
                assert(log[log.len() - 1] == all[k]);
            }
        }
        assert forall|i: int, j: int| 0 <= i < j < all.len() implies all[i].0 < all[j].0 by {
            assert(all[i] == before[i]);
            if j < before.len() {
                assert(all[j] == before[j]);
            } else {
                assert(head.contains(before[i]));
                let a = choose|a: int| 0 <= a < head.len() && head[a] == before[i];
                assert(log[a].0 < log[log.len() - 1].0);
            }
        }
    }
}

/// The changes that a reader has not seen stand in the order of the
/// sequence numbers of their writer, where the cache holds them so.
pub proof fn lemma_unseen_changes_keep_order(
    log: ChangeLog,
    from: u64,
    to: u64,
    own: GuidPrefix,
    writer: GUID,
)
    requires
        instants_increase(log),
        writer_numbers_ascend(log, writer),
    ensures
        writer_numbers_ascend(foreign_changes(log_between(log, from, to), own), writer),
{
    let between = log_between(log, from, to);
    lemma_log_between(log, from, to);
    lemma_part_keeps_order(between, log, writer);
    lemma_foreign_changes(between, own);
    lemma_part_keeps_order(foreign_changes(between, own), between, writer);
}

} // verus!
