//! The counter by which a writer numbers its samples.

use vstd::prelude::*;

verus! {

/// A writer's count of its samples: a signed 64-bit number, 1 for the first.
#[derive(Debug, Clone, Copy, PartialEq, Eq, Hash, Structural)]
pub struct SequenceNumber(pub i64);

impl SequenceNumber {
    /// The number as an integer.
    pub open spec fn spec_value(self) -> int {
        self.0 as int
    }

    /// The number of a writer's first sample.
    pub fn first() -> (n: SequenceNumber)
        ensures
            n.0 == 1,
    {
        SequenceNumber(1)
    }

    /// The number as an integer.
    pub fn value(self) -> (v: i64)
        ensures
            v == self.0,
    {
        self.0
    }
}

impl From<i64> for SequenceNumber {
    fn from(value: i64) -> (n: SequenceNumber) {
        SequenceNumber(value)
    }
}

impl vstd::std_specs::convert::FromSpecImpl<i64> for SequenceNumber {
    open spec fn obeys_from_spec() -> bool {
        true
    }

    open spec fn from_spec(value: i64) -> SequenceNumber {
        SequenceNumber(value)
    }
}

impl Default for SequenceNumber {
    fn default() -> (n: SequenceNumber)
        ensures
            n.0 == 1,
    {
        SequenceNumber(1)
    }
}

/// A set of sequence numbers, held one by one.
pub struct NumberSet {
    numbers: Vec<i64>,
}

impl View for NumberSet {
    type V = Set<int>;

    closed spec fn view(&self) -> Set<int> {
        Set::new(|v: int| listed(self.numbers@, v))
    }
}

/// Whether the list holds the number `v`.
pub open spec fn listed(list: Seq<i64>, v: int) -> bool {
    exists|i: int| 0 <= i < list.len() && list[i] == v
}

/// The least number of a set of numbers that has one.
pub open spec fn least_of(s: Set<int>) -> int {
    choose|m: int| s.contains(m) && forall|w: int| s.contains(w) ==> m <= w
}

/// The greatest number of a set of numbers that has one.
pub open spec fn greatest_of(s: Set<int>) -> int {
    choose|m: int| s.contains(m) && forall|w: int| s.contains(w) ==> m >= w
}

/// The whole numbers from `lo` to `hi`, both included.
pub open spec fn number_range(lo: int, hi: int) -> Set<int> {
    Set::new(|v: int| lo <= v <= hi)
}

impl NumberSet {
    /// The empty set.
    pub fn new() -> (s: NumberSet)
        ensures
            s@ == Set::<int>::empty(),
    {
        let s = NumberSet { numbers: Vec::new() };
        assert(s@ =~= Set::<int>::empty());
        s
    }

    /// Whether the set holds `n`.
    pub fn contains(&self, n: i64) -> (b: bool)
        ensures
            b == self@.contains(n as int),
    {
        let len = self.numbers.len();
        let mut i: usize = 0;
        while i < len
            invariant
                len == self.numbers@.len(),
                i <= len,
                forall|k: int| 0 <= k < i ==> self.numbers@[k] != n,
            decreases len - i,
        {
            if self.numbers[i] == n {
                return true;
            }
            i += 1;
        }
        false
    }

    /// Whether the set holds nothing.
    pub fn is_empty(&self) -> (b: bool)
        ensures
            b == (self@ == Set::<int>::empty()),
    {
        let b = self.numbers.len() == 0;
        proof {
            if b {
                assert(self@ =~= Set::<int>::empty());
            } else {
                assert(self@.contains(self.numbers@[0] as int));
            }
        }
        b
    }

    /// The least number of the set, if it holds any.
    pub fn min(&self) -> (m: Option<i64>)
        ensures
            match m {
                Some(least) => self@.contains(least as int) && forall|v: int|
                    self@.contains(v) ==> least <= v,
                None => self@ == Set::<int>::empty(),
            },
    {
        let len = self.numbers.len();
        if len == 0 {
            assert(self@ =~= Set::<int>::empty());
            return None;
        }
        let mut least = self.numbers[0];
        let mut i: usize = 1;
        while i < len
            invariant
                len == self.numbers@.len(),
                1 <= i <= len,
                exists|k: int| 0 <= k < i && self.numbers@[k] == least,
                forall|k: int| 0 <= k < i ==> least <= self.numbers@[k],
            decreases len - i,
        {
            if self.numbers[i] < least {
                least = self.numbers[i];
            }
            i += 1;
        }
        Some(least)
    }

    /// The greatest number of the set, if it holds any.
    pub fn max(&self) -> (m: Option<i64>)
        ensures
            match m {
                Some(most) => self@.contains(most as int) && forall|v: int|
                    self@.contains(v) ==> most >= v,
                None => self@ == Set::<int>::empty(),
            },
    {
        let len = self.numbers.len();
        if len == 0 {
            assert(self@ =~= Set::<int>::empty());
            return None;
        }
        let mut most = self.numbers[0];
        let mut i: usize = 1;
        while i < len
            invariant
                len == self.numbers@.len(),
                1 <= i <= len,
                exists|k: int| 0 <= k < i && self.numbers@[k] == most,
                forall|k: int| 0 <= k < i ==> most >= self.numbers@[k],
            decreases len - i,
        {
            if self.numbers[i] > most {
                most = self.numbers[i];
            }
            i += 1;
        }
        Some(most)
    }

    /// The numbers of the set outside `lo..=hi`, or inside it where `inside`
    /// says so, as a new list.
    fn select(&self, lo: i64, hi: i64, inside: bool) -> (kept: Vec<i64>)
        ensures
            forall|v: int| #[trigger]
                listed(kept@, v) <==> (self@.contains(v) && ((lo <= v <= hi) == inside)),
    {
        let len = self.numbers.len();
        let mut kept: Vec<i64> = Vec::new();
        let mut i: usize = 0;
        while i < len
            invariant
                len == self.numbers@.len(),
                i <= len,
                forall|k: int|
                    0 <= k < kept@.len() ==> ((lo <= #[trigger] kept@[k] <= hi) == inside) && listed(
                        self.numbers@.take(i as int),
                        kept@[k] as int,
                    ),
                forall|j: int|
                    0 <= j < i && ((lo <= #[trigger] self.numbers@[j] <= hi) == inside) ==> listed(
                        kept@,
                        self.numbers@[j] as int,
                    ),
            decreases len - i,
        {
            let n = self.numbers[i];
            let ghost before = kept@;
            let ghost seen = self.numbers@.take(i as int);
            let ghost seen_now = self.numbers@.take(i as int + 1);
            if (lo <= n && n <= hi) == inside {
                kept.push(n);
            }
            proof {
                assert(seen_now[i as int] == n);
                assert forall|k: int| 0 <= k < kept@.len() implies ((lo <= #[trigger] kept@[k] <= hi)
                    == inside) && listed(seen_now, kept@[k] as int) by {
                    if k < before.len() {
                        assert(kept@[k] == before[k]);
                        let w = choose|w: int| 0 <= w < seen.len() && seen[w] == before[k];
                        assert(seen_now[w] == before[k]);
                    }
                }
                assert forall|j: int|
                    0 <= j < i + 1 && ((lo <= #[trigger] self.numbers@[j] <= hi)
                        == inside) implies listed(kept@, self.numbers@[j] as int) by {
                    if j < i {
                        let k = choose|k: int| 0 <= k < before.len() && before[k] == self.numbers@[j];
                        assert(kept@[k] == self.numbers@[j]);
                    } else {
                        assert(kept@[kept@.len() - 1] == n);
                    }
                }
            }
            i += 1;
        }
        proof {
            assert(self.numbers@.take(len as int) =~= self.numbers@);
            assert forall|v: int| #[trigger]
                listed(kept@, v) <==> (self@.contains(v) && ((lo <= v <= hi) == inside)) by {
                if listed(kept@, v) {
                    let k = choose|k: int| 0 <= k < kept@.len() && kept@[k] == v;
                    assert(listed(self.numbers@, kept@[k] as int));
                }
                if self@.contains(v) && ((lo <= v <= hi) == inside) {
                    let j = choose|j: int| 0 <= j < self.numbers@.len() && self.numbers@[j] == v;
                    assert(listed(kept@, self.numbers@[j] as int));
                }
            }
        }
        kept
    }

    /// Takes `n` out of the set.
    pub fn remove(&mut self, n: i64)
        ensures
            final(self)@ == old(self)@.remove(n as int),
    {
        let kept = self.select(n, n, false);
        self.numbers = kept;
        assert(self@ =~= old(self)@.remove(n as int));
    }

    /// Takes the numbers from `lo` to `hi` out of the set.
    pub fn remove_range(&mut self, lo: i64, hi: i64)
        ensures
            final(self)@ == old(self)@.difference(number_range(lo as int, hi as int)),
    {
        let kept = self.select(lo, hi, false);
        self.numbers = kept;
        assert(self@ =~= old(self)@.difference(number_range(lo as int, hi as int)));
    }

    /// Leaves in the set only its numbers from `lo` to `hi`.
    pub fn keep_range(&mut self, lo: i64, hi: i64)
        ensures
            final(self)@ == old(self)@.intersect(number_range(lo as int, hi as int)),
    {
        let kept = self.select(lo, hi, true);
        self.numbers = kept;
        assert(self@ =~= old(self)@.intersect(number_range(lo as int, hi as int)));
    }

    /// Puts every number from `lo` to `hi` into the set.
    pub fn fill_range(&mut self, lo: i64, hi: i64)
        ensures
            final(self)@ == old(self)@.union(number_range(lo as int, hi as int)),
    {
        let mut kept = self.select(lo, hi, false);
        let ghost outside = kept@;
        if lo <= hi {
            let mut n = lo;
            loop
                invariant_except_break
                    lo <= n <= hi,
                    kept@.len() >= outside.len(),
                    forall|k: int| 0 <= k < outside.len() ==> kept@[k] == outside[k],
                    forall|k: int| outside.len() <= k < kept@.len() ==> lo <= #[trigger] kept@[k] < n,
                    forall|v: int| lo <= v < n ==> #[trigger] listed(kept@, v),
                ensures
                    kept@.len() >= outside.len(),
                    forall|k: int| 0 <= k < outside.len() ==> kept@[k] == outside[k],
                    forall|k: int| outside.len() <= k < kept@.len() ==> lo <= #[trigger] kept@[k] <= hi,
                    forall|v: int| lo <= v <= hi ==> #[trigger] listed(kept@, v),
                decreases hi - n,
            {
                let ghost before = kept@;
                kept.push(n);
                proof {
                    assert(kept@[kept@.len() - 1] == n);
                    assert forall|v: int| lo <= v <= n implies #[trigger] listed(kept@, v) by {
                        if v < n {
                            assert(listed(before, v));
                            let k = choose|k: int| 0 <= k < before.len() && before[k] == v;
                            assert(kept@[k] == v);
                        }
                    }
                }
                if n == hi {
                    break ;
                }
                n += 1;
            }
        }
        self.numbers = kept;
        proof {
            let want = old(self)@.union(number_range(lo as int, hi as int));
            assert forall|v: int| self@.contains(v) == want.contains(v) by {
                if self@.contains(v) {
                    let k = choose|k: int| 0 <= k < kept@.len() && kept@[k] == v;
                    if k < outside.len() {
                        assert(outside[k] == v);
                        assert(listed(outside, v));
                    }
                }
                if want.contains(v) {
                    if lo <= v <= hi {
                        assert(listed(kept@, v));
                    } else {
                        assert(listed(outside, v));
                        let k = choose|k: int| 0 <= k < outside.len() && outside[k] == v;
                        assert(kept@[k] == v);
                    }
                }
            }
            assert(self@ =~= want);
        }
    }

    /// Puts `n` into the set.
    pub fn insert(&mut self, n: i64)
        ensures
            final(self)@ == old(self)@.insert(n as int),
    {
        self.fill_range(n, n);
        assert(self@ =~= old(self)@.insert(n as int));
    }
}

/// A window of sequence numbers on the wire: a base and up to 256 bits, of
/// which bit `i` says whether the number `base + i` is in the set.
pub struct SequenceNumberSet {
    base: SequenceNumber,
    bits: Vec<bool>,
}

/// The most bits that a window holds.
pub const SEQUENCE_NUMBER_SET_MAX_BITS: usize = 256;

impl SequenceNumberSet {
    /// The first number of the window.
    pub closed spec fn spec_base(&self) -> int {
        self.base.0 as int
    }

    /// The bits of the window.
    pub closed spec fn spec_bits(&self) -> Seq<bool> {
        self.bits@
    }

    /// The window holds no more bits than the wire form has room for, and
    /// each of its bits stands for a sequence number.
    pub open spec fn wf(&self) -> bool {
        &&& self.spec_bits().len() <= SEQUENCE_NUMBER_SET_MAX_BITS
        &&& self.spec_base() + self.spec_bits().len() <= i64::MAX + 1
    }

    /// Whether the window says that `n` is in the set.
    pub open spec fn spec_contains(&self, n: int) -> bool {
        0 <= n - self.spec_base() < self.spec_bits().len() && self.spec_bits()[n - self.spec_base()]
    }

    /// The numbers that the window says are in the set.
    pub open spec fn members(&self) -> Set<int> {
        Set::new(|n: int| self.spec_contains(n))
    }

    /// The window of no bits that begins at `base`.
    pub fn new(base: SequenceNumber) -> (s: SequenceNumberSet)
        ensures
            s.wf(),
            s.spec_base() == base.0,
            s.spec_bits() == Seq::<bool>::empty(),
    {
        SequenceNumberSet { base, bits: Vec::new() }
    }

    /// The window with these bits that begins at `base`; `None` where the
    /// bits are more than a window holds or reach past the last sequence
    /// number.
    pub fn from_bits(base: SequenceNumber, bits: Vec<bool>) -> (s: Option<SequenceNumberSet>)
        ensures
            match s {
                Some(set) => set.wf() && set.spec_base() == base.0 && set.spec_bits() == bits@,
                None => bits@.len() > SEQUENCE_NUMBER_SET_MAX_BITS || base.0 + bits@.len()
                    > i64::MAX + 1,
            },
    {
        if bits.len() > SEQUENCE_NUMBER_SET_MAX_BITS {
            None
        } else if (base.0 as i128) + (bits.len() as i128) > (i64::MAX as i128) + 1 {
            None
        } else {
            Some(SequenceNumberSet { base, bits })
        }
    }

    /// The window of `num_bits` bits from `base` on that shows which of its
    /// numbers are in `numbers`.
    pub fn of_numbers(base: SequenceNumber, num_bits: usize, numbers: &NumberSet) -> (s:
        SequenceNumberSet)
        requires
            num_bits <= SEQUENCE_NUMBER_SET_MAX_BITS,
            base.0 + num_bits <= i64::MAX + 1,
        ensures
            s.wf(),
            s.spec_base() == base.0,
            s.spec_bits().len() == num_bits,
            forall|n: int| s.spec_contains(n) <==> (base.0 <= n < base.0 + num_bits && numbers@.contains(n)),
    {
        let mut bits: Vec<bool> = Vec::new();
        let mut i: usize = 0;
        while i < num_bits
            invariant
                i <= num_bits,
                num_bits <= SEQUENCE_NUMBER_SET_MAX_BITS,
                base.0 + num_bits <= i64::MAX + 1,
                bits@.len() == i,
                forall|k: int| 0 <= k < i ==> bits@[k] == numbers@.contains(base.0 + k),
            decreases num_bits - i,
        {
            let n: i64 = base.0 + (i as i64);
            bits.push(numbers.contains(n));
            i += 1;
        }
        SequenceNumberSet { base, bits }
    }

    /// The first number of the window.
    pub fn base(&self) -> (b: SequenceNumber)
        ensures
            b.0 == self.spec_base(),
    {
        self.base
    }

    /// How many bits the window holds.
    pub fn num_bits(&self) -> (n: usize)
        ensures
            n == self.spec_bits().len(),
    {
        self.bits.len()
    }

    /// The bit at `i`.
    pub fn bit(&self, i: usize) -> (b: bool)
        requires
            i < self.spec_bits().len(),
        ensures
            b == self.spec_bits()[i as int],
    {
        self.bits[i]
    }

    /// Whether the window says that `n` is in the set.
    #[verifier::when_used_as_spec(spec_contains_number)]
    pub fn contains(&self, n: SequenceNumber) -> (b: bool)
        ensures
            b == self.spec_contains(n.0 as int),
    {
        if n.0 < self.base.0 {
            return false;
        }
        let offset: i128 = (n.0 as i128) - (self.base.0 as i128);
        if offset >= self.bits.len() as i128 {
            return false;
        }
        self.bits[offset as usize]
    }

    /// Whether the window says that `n` is in the set.
    pub open spec fn spec_contains_number(&self, n: SequenceNumber) -> bool {
        self.spec_contains(n.0 as int)
    }

    /// Whether no bit of the window is set.
    pub fn is_empty(&self) -> (b: bool)
        ensures
            b == (self.members() == Set::<int>::empty()),
    {
        let len = self.bits.len();
        let mut i: usize = 0;
        while i < len
            invariant
                len == self.bits@.len(),
                i <= len,
                forall|k: int| 0 <= k < i ==> !self.bits@[k],
            decreases len - i,
        {
            if self.bits[i] {
                assert(self.spec_contains(self.spec_base() + i));
                assert(self.members().contains(self.spec_base() + i));
                return false;
            }
            i += 1;
        }
        assert(self.members() =~= Set::<int>::empty());
        true
    }
}

impl Clone for SequenceNumberSet {
    fn clone(&self) -> (s: SequenceNumberSet)
        ensures
            s.spec_base() == self.spec_base(),
            s.spec_bits() == self.spec_bits(),
    {
        let mut bits: Vec<bool> = Vec::new();
        let len = self.bits.len();
        let mut i: usize = 0;
        while i < len
            invariant
                len == self.bits@.len(),
                i <= len,
                bits@ == self.bits@.take(i as int),
            decreases len - i,
        {
            bits.push(self.bits[i]);
            assert(bits@ =~= self.bits@.take(i as int + 1));
            i += 1;
        }
        assert(self.bits@.take(len as int) =~= self.bits@);
        SequenceNumberSet { base: self.base, bits }
    }
}

} // verus!
