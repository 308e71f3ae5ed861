//! The samples that a reader holds for the application, by instance.

use crate::dds::datasample::DataSample;
use crate::dds::qos::{History, QosPolicies};
use crate::dds::traits::{Key, Keyed};
use vstd::prelude::*;

verus! {

/// The samples of a reader: one row for each instance, the rows in the order
/// of their keys, the samples of a row in the order of their arrival.
pub type Rows<D> = Seq<(<D as Keyed>::K, Seq<DataSample<D>>)>;

/// The keys of the rows ascend.
pub open spec fn keys_ascend<D: Keyed>(rows: Rows<D>) -> bool {
    forall|i: int, j: int| 0 <= i < j < rows.len() ==> rows[i].0.rank() < rows[j].0.rank()
}

/// Every sample stands in the row of its instance.
pub open spec fn rows_hold_their_instances<D: Keyed>(rows: Rows<D>) -> bool {
    forall|i: int, c: int|
        0 <= i < rows.len() && 0 <= c < rows[i].1.len() ==> (#[trigger] rows[i].1[c]).spec_key()
            == rows[i].0
}

/// How many rows at the head have a key before `key`.
pub open spec fn key_position<D: Keyed>(rows: Rows<D>, key: D::K) -> int
    decreases rows.len(),
{
    if rows.len() == 0 || rows[0].0.rank() >= key.rank() {
        0
    } else {
        1 + key_position::<D>(rows.skip(1), key)
    }
}

/// The place of the first row whose key comes after `key`.
pub open spec fn next_position<D: Keyed>(rows: Rows<D>, key: D::K) -> int {
    let p = key_position::<D>(rows, key);
    if p < rows.len() && rows[p].0 == key {
        p + 1
    } else {
        p
    }
}

/// How many samples of an instance a history policy keeps: all of them where
/// the result is `None`. By default one sample is kept.
pub open spec fn history_depth(history: Option<History>) -> Option<nat> {
    match history {
        None => Some(1nat),
        Some(History::KeepAll) => None,
        Some(History::KeepLast { depth }) => Some(
            if depth > 0 {
                depth as nat
            } else {
                0nat
            },
        ),
    }
}

/// The newest samples of a row that the history policy keeps.
pub open spec fn retained<D: Keyed>(row: Seq<DataSample<D>>, history: Option<History>) -> Seq<
    DataSample<D>,
> {
    match history_depth(history) {
        None => row,
        Some(depth) => if row.len() > depth {
            row.skip(row.len() - depth)
        } else {
            row
        },
    }
}

/// The rows after a sample has arrived: it is the newest of its instance's
/// row, which is made where the instance is new, and of that row the history
/// policy keeps the newest.
pub open spec fn rows_after_add<D: Keyed>(
    rows: Rows<D>,
    sample: DataSample<D>,
    history: Option<History>,
) -> Rows<D> {
    let key = sample.spec_key();
    let p = key_position::<D>(rows, key);
    if p < rows.len() && rows[p].0 == key {
        rows.update(p, (key, retained(rows[p].1.push(sample), history)))
    } else {
        rows.insert(p, (key, retained(seq![sample], history)))
    }
}

/// The first key in the order of keys whose hash is `key_hash`.
pub open spec fn key_of_hash<D: Keyed>(rows: Rows<D>, key_hash: u128) -> Option<D::K>
    decreases rows.len(),
{
    if rows.len() == 0 {
        None
    } else if rows[0].0.spec_hash_key() == key_hash {
        Some(rows[0].0)
    } else {
        key_of_hash::<D>(rows.skip(1), key_hash)
    }
}

/// What `key_position` counts: it lies within the rows, the keys before it
/// come before `key` and the keys from it on do not.
pub proof fn lemma_key_position<D: Keyed>(rows: Rows<D>, key: D::K)
    requires
        keys_ascend::<D>(rows),
    ensures
        0 <= key_position::<D>(rows, key) <= rows.len(),
        forall|i: int|
            0 <= i < key_position::<D>(rows, key) ==> (#[trigger] rows[i]).0.rank() < key.rank(),
        forall|i: int|
            key_position::<D>(rows, key) <= i < rows.len() ==> (#[trigger] rows[i]).0.rank()
                >= key.rank(),
    decreases rows.len(),
{
    if rows.len() == 0 || rows[0].0.rank() >= key.rank() {
    } else {
        let rest = rows.skip(1);
        assert forall|i: int, j: int| 0 <= i < j < rest.len() implies rest[i].0.rank()
            < rest[j].0.rank() by {
            assert(rest[i] == rows[i + 1] && rest[j] == rows[j + 1]);
        }
        lemma_key_position::<D>(rest, key);
        let p = key_position::<D>(rest, key);
        assert forall|i: int| 0 <= i < p + 1 implies (#[trigger] rows[i]).0.rank() < key.rank() by {
            if i > 0 {
                assert(rows[i] == rest[i - 1]);
            }
        }
        assert forall|i: int| p + 1 <= i < rows.len() implies (#[trigger] rows[i]).0.rank()
            >= key.rank() by {
            assert(rows[i] == rest[i - 1]);
        }
    }
}

/// The place where the keys before `key` end is the key's position.
pub proof fn lemma_key_position_is<D: Keyed>(rows: Rows<D>, key: D::K, p: int)
    requires
        keys_ascend::<D>(rows),
        0 <= p <= rows.len(),
        forall|i: int| 0 <= i < p ==> (#[trigger] rows[i]).0.rank() < key.rank(),
        p < rows.len() ==> rows[p].0.rank() >= key.rank(),
    ensures
        key_position::<D>(rows, key) == p,
{
    lemma_key_position::<D>(rows, key);
    let q = key_position::<D>(rows, key);
    if q < p {
        assert(rows[q].0.rank() >= key.rank());
    } else if q > p {
        assert(rows[p].0.rank() < key.rank());
    }
}

/// A new sample leaves the rows in the order of their keys, each sample in
/// the row of its instance.
pub proof fn lemma_rows_after_add<D: Keyed>(
    rows: Rows<D>,
    sample: DataSample<D>,
    history: Option<History>,
)
    requires
        keys_ascend::<D>(rows),
        rows_hold_their_instances::<D>(rows),
    ensures
        keys_ascend::<D>(rows_after_add(rows, sample, history)),
        rows_hold_their_instances::<D>(rows_after_add(rows, sample, history)),
{
    let key = sample.spec_key();
    let p = key_position::<D>(rows, key);
    let after = rows_after_add(rows, sample, history);
    lemma_key_position::<D>(rows, key);
    if p < rows.len() && rows[p].0 == key {
        let grown = rows[p].1.push(sample);
        let kept = retained(grown, history);
        assert forall|c: int| 0 <= c < kept.len() implies (#[trigger] kept[c]).spec_key() == key by {
            let off = grown.len() - kept.len();
            assert(kept[c] == grown[c + off]);
            if c + off < rows[p].1.len() {
                assert(grown[c + off] == rows[p].1[c + off]);
            }
        }
        assert forall|i: int, c: int|
            0 <= i < after.len() && 0 <= c < after[i].1.len() implies (#[trigger] after[i].1[c]).spec_key()
            == after[i].0 by {
            if i != p {
                assert(after[i] == rows[i]);
            }
        }
        assert forall|i: int, j: int| 0 <= i < j < after.len() implies after[i].0.rank()
            < after[j].0.rank() by {
            assert(after[i].0 == rows[i].0 && after[j].0 == rows[j].0);
        }
    } else {
        let kept = retained(seq![sample], history);
        assert forall|c: int| 0 <= c < kept.len() implies (#[trigger] kept[c]).spec_key() == key by {
            assert(kept[c] == sample);
        }
        if p < rows.len() {
            assert(rows[p].0.rank() != key.rank()) by {
                if rows[p].0.rank() == key.rank() {
                    D::K::rank_is_injective(&rows[p].0, &key);
                }
            }
        }
        assert forall|i: int, j: int| 0 <= i < j < after.len() implies after[i].0.rank()
            < after[j].0.rank() by {
            if i < p {
                assert(after[i] == rows[i]);
            } else if i > p {
                assert(after[i] == rows[i - 1]);
            }
            if j < p {
                assert(after[j] == rows[j]);
            } else if j > p {
                assert(after[j] == rows[j - 1]);
            }
        }
        assert forall|i: int, c: int|
            0 <= i < after.len() && 0 <= c < after[i].1.len() implies (#[trigger] after[i].1[c]).spec_key()
            == after[i].0 by {
            if i < p {
                assert(after[i] == rows[i]);
            } else if i > p {
                assert(after[i] == rows[i - 1]);
            }
        }
    }
}

/// The samples that a reader holds for the application.
pub struct DataSampleCache<D: Keyed> {
    pub(crate) qos: QosPolicies,
    pub(crate) datasamples: Vec<(D::K, Vec<DataSample<D>>)>,
}

impl<D: Keyed> View for DataSampleCache<D> {
    type V = Rows<D>;

    closed spec fn view(&self) -> Rows<D> {
        Seq::new(self.datasamples@.len(), |i: int| (self.datasamples@[i].0, self.datasamples@[i].1@))
    }
}

impl<D: Keyed> DataSampleCache<D> {
    /// The history policy by which samples are kept.
    pub closed spec fn history(&self) -> Option<History> {
        self.qos.history
    }

    /// The rows stand in the order of their keys and each sample stands in
    /// the row of its instance.
    pub open spec fn wf(&self) -> bool {
        &&& keys_ascend::<D>(self@)
        &&& rows_hold_their_instances::<D>(self@)
    }

    /// A cache without samples that keeps them by the history policy of `qos`.
    pub fn new(qos: QosPolicies) -> (c: DataSampleCache<D>)
        ensures
            c.wf(),
            c@.len() == 0,
            c.history() == qos.history,
    {
        DataSampleCache { qos, datasamples: Vec::new() }
    }

    /// The place of the row of `key`, or of the row that would follow it.
    pub(crate) fn find_position(&self, key: &D::K) -> (p: usize)
        requires
            self.wf(),
        ensures
            p == key_position::<D>(self@, *key),
            p <= self@.len(),
    {
        let n = self.datasamples.len();
        let mut p: usize = 0;
        while p < n && self.datasamples[p].0.key_lt(key)
            invariant
                self.wf(),
                n == self.datasamples@.len(),
                p <= n,
                forall|i: int| 0 <= i < p ==> (#[trigger] self@[i]).0.rank() < key.rank(),
            decreases n - p,
        {
            p += 1;
        }
        proof {
            if p < n {
                assert(self@[p as int].0 == self.datasamples@[p as int].0);
            }
            lemma_key_position_is::<D>(self@, *key, p as int);
        }
        p
    }

    /// Whether the row at `p` is the row of `key`, where `p` is the key's
    /// position.
    pub(crate) fn row_is_of(&self, p: usize, key: &D::K) -> (b: bool)
        requires
            self.wf(),
            p == key_position::<D>(self@, *key),
        ensures
            b == (p < self@.len() && self@[p as int].0 == *key),
    {
        proof {
            lemma_key_position::<D>(self@, *key);
        }
        if p < self.datasamples.len() {
            let later = key.key_lt(&self.datasamples[p].0);
            proof {
                assert(self@[p as int].0 == self.datasamples@[p as int].0);
                if !later {
                    D::K::rank_is_injective(&self@[p as int].0, key);
                }
            }
            !later
        } else {
            false
        }
    }

    /// Takes in a sample that has arrived and gives the key of its
    /// instance. The sample becomes the newest of its instance, and of the
    /// instance the history policy keeps the newest.
    pub fn add_datasample(&mut self, data_sample: DataSample<D>) -> (key: D::K)
        requires
            old(self).wf(),
        ensures
            final(self).wf(),
            final(self).history() == old(self).history(),
            final(self)@ == rows_after_add(old(self)@, data_sample, old(self).history()),
            key == data_sample.spec_key(),
    {
        let key = data_sample.get_key();
        let p = self.find_position(&key);
        let ghost rows = self@;
        let ghost history = self.history();
        let depth: Option<usize> = match self.qos.history {
            None => Some(1),
            Some(History::KeepAll) => None,
            Some(History::KeepLast { depth }) => Some(
                if depth > 0 {
                    depth as usize
                } else {
                    0
                },
            ),
        };
        if self.row_is_of(p, &key) {
            self.datasamples[p].1.push(data_sample);
            let len = self.datasamples[p].1.len();
            match depth {
                Some(d) => {
                    if len > d {
                        let kept = self.datasamples[p].1.split_off(len - d);
                        self.datasamples[p].1 = kept;
                    }
                },
                None => {},
            }
            proof {
                let expect = rows.update(
                    p as int,
                    (key, retained(rows[p as int].1.push(data_sample), history)),
                );
                assert(self@.len() == expect.len());
                assert forall|i: int| 0 <= i < self@.len() implies self@[i] == expect[i] by {
                    if i == p {
                        assert(self@[i].1 =~= expect[i].1);
                    }
                }
                assert(self@ =~= expect);
            }
        } else {
            let mut row: Vec<DataSample<D>> = Vec::new();
            match depth {
                Some(0) => {},
                _ => {
                    row.push(data_sample);
                },
            }
            assert(row@ =~= retained(seq![data_sample], history));
            self.datasamples.insert(p, (key.clone_key(), row));
            proof {
                let expect = rows.insert(p as int, (key, retained(seq![data_sample], history)));
                assert(self@ =~= expect);
            }
        }
        proof {
            lemma_rows_after_add::<D>(rows, data_sample, history);
        }
        key
    }

    /// The samples of the instance with the key `key`, if the cache has a
    /// row for it.
    pub fn get_datasample(&self, key: &D::K) -> (r: Option<&Vec<DataSample<D>>>)
        requires
            self.wf(),
        ensures
            match r {
                Some(row) => exists|i: int|
                    0 <= i < self@.len() && self@[i] == (*key, row@),
                None => forall|i: int| 0 <= i < self@.len() ==> (#[trigger] self@[i]).0 != *key,
            },
    {
        let p = self.find_position(key);
        if self.row_is_of(p, key) {
            assert(self@[p as int] == (*key, self.datasamples@[p as int].1@));
            Some(&self.datasamples[p].1)
        } else {
            proof {
                lemma_key_position::<D>(self@, *key);
                assert forall|i: int| 0 <= i < self@.len() implies (#[trigger] self@[i]).0 != *key by {
                    if i != p {
                        assert(self@[i].0.rank() != key.rank());
                    }
                }
            }
            None
        }
    }

    /// The first key in the order of keys whose hash is `key_hash`, if an
    /// instance of the cache has that hash.
    pub fn get_key(&self, key_hash: u128) -> (r: Option<D::K>)
        ensures
            r == key_of_hash::<D>(self@, key_hash),
    {
        let n = self.datasamples.len();
        let ghost rows = self@;
        let mut i: usize = 0;
        assert(rows.skip(0) =~= rows);
        while i < n
            invariant
                rows == self@,
                n == self.datasamples@.len(),
                i <= n,
                key_of_hash::<D>(rows, key_hash) == key_of_hash::<D>(rows.skip(i as int), key_hash),
            decreases n - i,
        {
            proof {
                let rest = rows.skip(i as int);
                assert(rest[0] == rows[i as int]);
                assert(rest.skip(1) =~= rows.skip(i as int + 1));
            }
            if self.datasamples[i].0.into_hash_key() == key_hash {
                return Some(self.datasamples[i].0.clone_key());
            }
            i += 1;
        }
        None
    }

    /// What the history policy is read from.
    pub(crate) proof fn lemma_history(&self)
        ensures
            self.history() == self.qos.history,
    {
    }

    /// What the view is made of.
    pub(crate) proof fn lemma_view(&self)
        ensures
            self@.len() == self.datasamples@.len(),
            forall|i: int|
                0 <= i < self@.len() ==> #[trigger] self@[i] == (
                    self.datasamples@[i].0,
                    self.datasamples@[i].1@,
                ),
    {
    }

    /// The least key of the cache that comes after `key`, if there is one.
    pub fn get_next_key(&self, key: &D::K) -> (r: Option<D::K>)
        requires
            self.wf(),
        ensures
            r == if next_position::<D>(self@, *key) < self@.len() {
                Some(self@[next_position::<D>(self@, *key)].0)
            } else {
                None
            },
    {
        let p = self.find_position(key);
        let n = self.datasamples.len();
        let q = if self.row_is_of(p, key) {
            assert(p < n);
            p + 1
        } else {
            p
        };
        if q < n {
            Some(self.datasamples[q].0.clone_key())
        } else {
            None
        }
    }

    /// The key that `get_next_key` gives comes after `key`, and no key of
    /// the cache lies between the two.
    pub proof fn lemma_next_key(&self, key: D::K)
        requires
            self.wf(),
        ensures
            0 <= next_position::<D>(self@, key) <= self@.len(),
            forall|i: int|
                0 <= i < next_position::<D>(self@, key) ==> (#[trigger] self@[i]).0.rank()
                    <= key.rank(),
            forall|i: int|
                next_position::<D>(self@, key) <= i < self@.len() ==> (#[trigger] self@[i]).0.rank()
                    > key.rank(),
    {
        lemma_key_position::<D>(self@, key);
        let p = key_position::<D>(self@, key);
        let q = next_position::<D>(self@, key);
        assert forall|i: int| q <= i < self@.len() implies (#[trigger] self@[i]).0.rank()
            > key.rank() by {
            if q == p {
                if self@[i].0.rank() == key.rank() {
                    D::K::rank_is_injective(&self@[i].0, &key);
                    if i > p {
                        assert(self@[p].0.rank() < self@[i].0.rank());
                    }
                }
            } else {
                assert(self@[p].0.rank() < self@[i].0.rank());
            }
        }
    }

    /// The least key of the cache, if it has a row.
    pub fn first_key(&self) -> (r: Option<D::K>)
        requires
            self.wf(),
        ensures
            match r {
                Some(key) => self@.len() > 0 && self@[0].0 == key,
                None => self@.len() == 0,
            },
    {
        if self.datasamples.len() > 0 {
            let key = self.datasamples[0].0.clone_key();
            assert(self@[0].0 == key);
            Some(key)
        } else {
            None
        }
    }
}

} // verus!
