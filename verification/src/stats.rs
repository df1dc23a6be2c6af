//! Rolling windows with order statistics.

use crate::number::{clamp, clamped, law_rounded, law_trunc, rounded, trunc};
use vstd::prelude::*;
use vstd::relations::{sorted_by, total_ordering};

verus! {

/// Samples a window keeps: four seconds at 60 Hz, several beat periods.
pub const HISTORY: usize = 240;

/// The last [`HISTORY`] of a sequence, or all of it.
pub open spec fn recent(s: Seq<i64>) -> Seq<i64> {
    if s.len() > HISTORY {
        s.skip(s.len() - HISTORY)
    } else {
        s
    }
}

/// The order on samples.
pub open spec fn at_most() -> spec_fn(i64, i64) -> bool {
    |a: i64, b: i64| a <= b
}

/// A sequence in ascending order.
pub open spec fn ascending(s: Seq<i64>) -> Seq<i64> {
    s.sort_by(at_most())
}

proof fn lemma_at_most()
    ensures
        total_ordering(at_most()),
{
}

/// Sorting keeps every sample and puts them in order.
pub proof fn law_ascending(s: Seq<i64>)
    ensures
        ascending(s).to_multiset() == s.to_multiset(),
        ascending(s).len() == s.len(),
        forall|i: int, j: int| 0 <= i <= j < s.len() ==> ascending(s)[i] <= ascending(s)[j],
{
    lemma_at_most();
    s.lemma_sort_by_ensures(at_most());
    let t = ascending(s);
    broadcast use vstd::seq_lib::group_to_multiset_ensures;

    assert(t.len() == t.to_multiset().len());
    assert(s.len() == s.to_multiset().len());
    assert forall|i: int, j: int| 0 <= i <= j < s.len() implies t[i] <= t[j] by {
        if i < j {
            assert(at_most()(t[i], t[j]));
        }
    }
}

/// Sort samples in ascending order.
pub fn sort_samples(s: &Vec<i64>) -> (t: Vec<i64>)
    ensures
        t@ == ascending(s@),
        t@.len() == s@.len(),
{
    let mut t: Vec<i64> = Vec::with_capacity(s.len());
    let mut i: usize = 0;
    assert(s@.take(0) =~= Seq::<i64>::empty());
    assert(t@ =~= Seq::<i64>::empty());
    while i < s.len()
        invariant
            i <= s@.len(),
            t@.len() == i,
            sorted_by(t@, at_most()),
            t@.to_multiset() == s@.take(i as int).to_multiset(),
        decreases s@.len() - i,
    {
        let v: i64 = s[i];
        let mut p: usize = t.len();
        while p > 0 && t[p - 1] > v
            invariant
                p <= t@.len() == i,
                sorted_by(t@, at_most()),
                forall|j: int| p <= j < t@.len() ==> #[trigger] t@[j] > v,
            decreases p,
        {
            p = p - 1;
        }
        let ghost before = t@;
        assert(forall|j: int| 0 <= j < p ==> #[trigger] before[j] <= v) by {
            assert forall|j: int| 0 <= j < p implies #[trigger] before[j] <= v by {
                if j < p - 1 {
                    assert(at_most()(before[j], before[p - 1]));
                }
            }
        }
        t.insert(p, v);
        proof {
            assert(t@ == before.insert(p as int, v));
            assert forall|a: int, b: int| 0 <= a < b < t@.len() implies #[trigger] at_most()(
                t@[a],
                t@[b],
            ) by {
                if a != p && b != p {
                    let x = if a < p {
                        a
                    } else {
                        a - 1
                    };
                    let y = if b < p {
                        b
                    } else {
                        b - 1
                    };
                    assert(at_most()(before[x], before[y]));
                }
            }
            assert(s@.take(i + 1) =~= s@.take(i as int).push(v));
            vstd::seq_lib::to_multiset_insert(before, p as int, v);
            vstd::seq_lib::to_multiset_build(s@.take(i as int), v);
        }
        i = i + 1;
    }
    proof {
        assert(s@.take(s@.len() as int) =~= s@);
        lemma_at_most();
        s@.lemma_sort_by_ensures(at_most());
        vstd::seq_lib::lemma_sorted_unique(t@, ascending(s@), at_most());
    }
    t
}

/// Sum of the first `n` samples.
pub open spec fn total(s: Seq<i64>, n: int) -> int
    decreases n,
{
    if n <= 0 {
        0
    } else {
        total(s, n - 1) + s[n - 1]
    }
}

/// Mean of the samples, rounded toward zero; zero of none.
pub open spec fn mean_of(s: Seq<i64>) -> int {
    if s.len() == 0 {
        0
    } else {
        trunc(total(s, s.len() as int), s.len() as int)
    }
}

/// Smallest of the first `n` samples.
pub open spec fn least(s: Seq<i64>, n: int) -> Option<i64>
    decreases n,
{
    if n <= 0 {
        None
    } else {
        match least(s, n - 1) {
            None => Some(s[n - 1]),
            Some(m) => if s[n - 1] < m {
                Some(s[n - 1])
            } else {
                Some(m)
            },
        }
    }
}

/// Largest of the first `n` samples.
pub open spec fn greatest(s: Seq<i64>, n: int) -> Option<i64>
    decreases n,
{
    if n <= 0 {
        None
    } else {
        match greatest(s, n - 1) {
            None => Some(s[n - 1]),
            Some(m) => if s[n - 1] > m {
                Some(s[n - 1])
            } else {
                Some(m)
            },
        }
    }
}

/// Position of the `num / den` quantile among `len` sorted samples, with the
/// fraction limited to `0..=1`.
pub open spec fn quantile_rank(len: int, num: int, den: int) -> int {
    rounded((len - 1) * clamped(num, 0, den), den)
}

/// The `num / den` quantile; zero of no samples.
pub open spec fn quantile(s: Seq<i64>, num: int, den: int) -> int {
    if s.len() == 0 {
        0
    } else {
        ascending(s)[quantile_rank(s.len() as int, num, den)] as int
    }
}

/// Fixed-capacity circular buffer of samples.
pub struct Ring {
    pub buf: Vec<i64>,
    pub idx: usize,
    pub len: usize,
}

/// Slot of sample `i`, oldest first, in a ring of `len` samples whose next slot
/// is `idx`.
pub open spec fn slot(idx: int, len: int, i: int) -> int {
    if len == HISTORY {
        (idx + i) % 240
    } else {
        i
    }
}

impl View for Ring {
    type V = Seq<i64>;

    /// Samples, oldest first.
    open spec fn view(&self) -> Seq<i64> {
        Seq::new(
            self.len as nat,
            |i: int| self.buf@[slot(self.idx as int, self.len as int, i)],
        )
    }
}

impl Ring {
    /// The buffer is full-sized and filled from the start.
    pub open spec fn wf(&self) -> bool {
        &&& self.buf@.len() == HISTORY
        &&& self.idx < HISTORY
        &&& self.len <= HISTORY
        &&& self.len < HISTORY ==> self.idx == self.len
    }

    /// An empty ring.
    pub fn new() -> (r: Self)
        ensures
            r.wf(),
            r@ == Seq::<i64>::empty(),
    {
        let mut buf: Vec<i64> = Vec::with_capacity(HISTORY);
        let mut i: usize = 0;
        while i < HISTORY
            invariant
                i <= HISTORY,
                buf@.len() == i,
            decreases HISTORY - i,
        {
            buf.push(0);
            i = i + 1;
        }
        let r: Ring = Ring { buf, idx: 0, len: 0 };
        assert(r@ =~= Seq::<i64>::empty());
        r
    }

    /// Append a sample, retiring the oldest once the ring is full.
    pub fn push(&mut self, v: i64)
        requires
            old(self).wf(),
        ensures
            final(self).wf(),
            final(self)@ == recent(old(self)@.push(v)),
    {
        self.buf.set(self.idx, v);
        self.idx = if self.idx + 1 == HISTORY {
            0
        } else {
            self.idx + 1
        };
        if self.len < HISTORY {
            self.len = self.len + 1;
        }
        assert(self@ =~= recent(old(self)@.push(v)));
    }

    /// Whether the ring holds no sample.
    pub fn is_empty(&self) -> (r: bool)
        ensures
            r == (self@.len() == 0),
    {
        self.len == 0
    }

    /// Sample `i`, oldest first.
    fn at(&self, i: usize) -> (v: i64)
        requires
            self.wf(),
            i < self.len,
        ensures
            v == self@[i as int],
    {
        let k: usize = if self.len == HISTORY {
            (self.idx + i) % HISTORY
        } else {
            i
        };
        self.buf[k]
    }

    /// Samples, oldest first.
    pub fn samples(&self) -> (out: Vec<i64>)
        requires
            self.wf(),
        ensures
            out@ == self@,
    {
        let mut out: Vec<i64> = Vec::with_capacity(self.len);
        let mut i: usize = 0;
        while i < self.len
            invariant
                self.wf(),
                i <= self.len,
                out@.len() == i,
                forall|j: int| 0 <= j < i ==> #[trigger] out@[j] == self@[j],
            decreases self.len - i,
        {
            out.push(self.at(i));
            i = i + 1;
        }
        assert(out@ =~= self@);
        out
    }

    /// Mean of the samples.
    pub fn mean(&self) -> (m: i64)
        requires
            self.wf(),
        ensures
            m == mean_of(self@),
    {
        if self.len == 0 {
            return 0;
        }
        let mut sum: i128 = 0;
        let mut i: usize = 0;
        while i < self.len
            invariant
                self.wf(),
                i <= self.len,
                sum == total(self@, i as int),
                -0x8000_0000_0000_0000 * i <= sum <= 0x7FFF_FFFF_FFFF_FFFF * i,
            decreases self.len - i,
        {
            sum = sum + self.at(i) as i128;
            i = i + 1;
        }
        let n: i128 = self.len as i128;
        let ghost t = sum as int;
        if sum >= 0 {
            assert(0 <= t / (n as int) <= 0x7FFF_FFFF_FFFF_FFFF) by (nonlinear_arith)
                requires
                    0 <= t <= 0x7FFF_FFFF_FFFF_FFFF * n,
                    n >= 1,
            ;
            (sum / n) as i64
        } else {
            assert(0 <= (-t) / (n as int) <= 0x8000_0000_0000_0000) by (nonlinear_arith)
                requires
                    0 <= -t <= 0x8000_0000_0000_0000 * n,
                    n >= 1,
            ;
            (-((-sum) / n)) as i64
        }
    }

    /// Smallest sample.
    pub fn min(&self) -> (m: Option<i64>)
        requires
            self.wf(),
        ensures
            m == least(self@, self@.len() as int),
    {
        let mut m: Option<i64> = None;
        let mut i: usize = 0;
        while i < self.len
            invariant
                self.wf(),
                i <= self.len,
                m == least(self@, i as int),
            decreases self.len - i,
        {
            let v: i64 = self.at(i);
            m = match m {
                None => Some(v),
                Some(w) => if v < w {
                    Some(v)
                } else {
                    Some(w)
                },
            };
            i = i + 1;
        }
        m
    }

    /// Largest sample.
    pub fn max(&self) -> (m: Option<i64>)
        requires
            self.wf(),
        ensures
            m == greatest(self@, self@.len() as int),
    {
        let mut m: Option<i64> = None;
        let mut i: usize = 0;
        while i < self.len
            invariant
                self.wf(),
                i <= self.len,
                m == greatest(self@, i as int),
            decreases self.len - i,
        {
            let v: i64 = self.at(i);
            m = match m {
                None => Some(v),
                Some(w) => if v > w {
                    Some(v)
                } else {
                    Some(w)
                },
            };
            i = i + 1;
        }
        m
    }

    /// The `num / den` quantile: the sample at the nearest position in sorted
    /// order. The fraction is limited to `0..=1`. Zero when the ring is empty.
    pub fn percentile(&self, num: i64, den: u32) -> (v: i64)
        requires
            self.wf(),
            1 <= den,
        ensures
            v == quantile(self@, num as int, den as int),
    {
        if self.len == 0 {
            return 0;
        }
        let sorted: Vec<i64> = sort_samples(&self.samples());
        let n: u64 = (self.len - 1) as u64;
        let num: u64 = clamp(num, 0, den as i64) as u64;
        assert(0 <= n * num <= 239 * 0xFFFF_FFFF) by (nonlinear_arith)
            requires
                0 <= n <= 239,
                0 <= num <= 0xFFFF_FFFF,
        ;
        let r: u64 = crate::number::div_round(n * num, den as u64);
        assert(r <= n) by {
            let a = 2 * (n * num) + den;
            let d = 2 * den;
            assert(a < (n + 1) * d) by (nonlinear_arith)
                requires
                    a == 2 * (n * num) + den,
                    d == 2 * den,
                    num <= den,
                    den >= 1,
            ;
            assert(a / d <= n) by (nonlinear_arith)
                requires
                    a < (n + 1) * d,
                    0 <= a,
                    d >= 1,
            ;
        }
        sorted[r as usize]
    }
}

/// The extremes bound every sample.
pub proof fn law_extremes(s: Seq<i64>, n: int, i: int)
    requires
        0 <= i < n <= s.len(),
    ensures
        least(s, n) is Some,
        greatest(s, n) is Some,
        least(s, n)->0 <= s[i] <= greatest(s, n)->0,
    decreases n,
{
    if i < n - 1 {
        law_extremes(s, n - 1, i);
    } else if n > 1 {
        law_extremes(s, n - 1, 0);
    }
}

/// Quantiles follow the order of samples: the lowest is the least sample in
/// sorted order, the highest the last, and a higher quantile is never smaller.
pub proof fn law_quantiles_ordered(s: Seq<i64>, a: int, b: int, den: int)
    requires
        s.len() >= 1,
        0 <= a <= b <= den,
        den >= 1,
    ensures
        quantile(s, a, den) <= quantile(s, b, den),
        quantile(s, 0, den) == ascending(s)[0],
        quantile(s, den, den) == ascending(s).last(),
{
    law_ascending(s);
    let n = s.len() - 1;
    let d = 2 * den;
    let (x, y) = (n * a, n * b);
    assert(0 <= x <= y <= n * den) by (nonlinear_arith)
        requires
            x == n * a,
            y == n * b,
            0 <= a <= b <= den,
            n >= 0,
    ;
    vstd::arithmetic::div_mod::lemma_div_is_ordered(2 * x + den, 2 * y + den, d);
    vstd::arithmetic::div_mod::lemma_div_pos_is_pos(2 * x + den, d);
    let top = n * den;
    assert((2 * top + den) / d == n) by (nonlinear_arith)
        requires
            top == n * den,
            d == 2 * den,
            den >= 1,
            n >= 0,
    ;
    vstd::arithmetic::div_mod::lemma_div_is_ordered(2 * y + den, 2 * top + den, d);
    assert(n * 0 == 0) by (nonlinear_arith);
    assert(den / d == 0) by (nonlinear_arith)
        requires
            d == 2 * den,
            den >= 1,
    ;
}

/// A window keeps the newest 240 samples in the order they came.
pub proof fn law_recent(s: Seq<i64>, i: int)
    requires
        0 <= i < s.len(),
        i + 240 >= s.len(),
    ensures
        s.len() <= 240 ==> recent(s).len() == s.len() && recent(s)[i] == s[i],
        s.len() > 240 ==> recent(s).len() == 240 && recent(s)[i + 240 - s.len()] == s[i],
{
}

/// The sum of a window counts each of its samples once: it moves by as much as any
/// one of them does.
pub proof fn law_total_counts_each(s: Seq<i64>, n: int, i: int, v: i64)
    requires
        0 <= i < n <= s.len(),
    ensures
        total(s.update(i, v), n) == total(s, n) + v - s[i],
    decreases n,
{
    if i < n - 1 {
        law_total_counts_each(s, n - 1, i, v);
    } else {
        lemma_total_before(s, s.update(i, v), n - 1);
    }
}

proof fn lemma_total_before(s: Seq<i64>, t: Seq<i64>, n: int)
    requires
        0 <= n <= s.len(),
        n <= t.len(),
        forall|i: int| 0 <= i < n ==> #[trigger] s[i] == t[i],
    ensures
        total(s, n) == total(t, n),
    decreases n,
{
    if n > 0 {
        lemma_total_before(s, t, n - 1);
        assert(s[n - 1] == t[n - 1]);
    }
}

/// Samples that are all alike sum up to as many times one of them, and their mean is
/// that sample.
pub proof fn law_mean_of_equals(s: Seq<i64>, n: int, v: i64)
    requires
        0 <= n <= s.len(),
        forall|i: int| 0 <= i < s.len() ==> #[trigger] s[i] == v,
    ensures
        total(s, n) == n * v,
        s.len() > 0 && n == s.len() ==> mean_of(s) == v,
    decreases n,
{
    if n > 0 {
        law_mean_of_equals(s, n - 1, v);
        assert(s[n - 1] == v);
        assert((n - 1) * v + v == n * v) by (nonlinear_arith);
    }
    if s.len() > 0 && n == s.len() {
        law_trunc(n * v, n);
        let q = trunc(n * v, n);
        assert(q == v) by (nonlinear_arith)
            requires
                -n < n * v - n * q < n,
                n >= 1,
        ;
    }
}

/// The mean times the number of samples is their sum, as near as a whole number can
/// be; the mean of none is 0.
pub proof fn law_mean(s: Seq<i64>)
    ensures
        s.len() == 0 ==> mean_of(s) == 0,
        s.len() > 0 ==> -s.len() < total(s, s.len() as int) - s.len() * mean_of(s) < s.len(),
{
    if s.len() > 0 {
        law_trunc(total(s, s.len() as int), s.len() as int);
    }
}

/// The extremes of a window are samples of it. Returns where they stand.
pub proof fn law_extremes_occur(s: Seq<i64>, n: int) -> (r: (int, int))
    requires
        0 < n <= s.len(),
    ensures
        0 <= r.0 < n,
        0 <= r.1 < n,
        least(s, n) == Some(s[r.0]),
        greatest(s, n) == Some(s[r.1]),
    decreases n,
{
    if n == 1 {
        assert(least(s, 0) is None && greatest(s, 0) is None);
        (0, 0)
    } else {
        let (i, j) = law_extremes_occur(s, n - 1);
        (
            if s[n - 1] < s[i] {
                n - 1
            } else {
                i
            },
            if s[n - 1] > s[j] {
                n - 1
            } else {
                j
            },
        )
    }
}

/// A quantile is the sample at its share of the way through the samples in ascending
/// order, at the nearest place. Returns that place.
pub proof fn law_quantile(s: Seq<i64>, num: int, den: int) -> (rank: int)
    requires
        den >= 1,
        0 <= num <= den,
    ensures
        s.len() == 0 ==> quantile(s, num, den) == 0,
        s.len() > 0 ==> 0 <= rank < s.len() && -den <= 2 * ((s.len() - 1) * num - den * rank) < den
            && quantile(s, num, den) == ascending(s)[rank],
{
    let rank = quantile_rank(s.len() as int, num, den);
    if s.len() > 0 {
        let n = (s.len() - 1) * num;
        law_rounded(n, den);
        assert(0 <= n <= (s.len() - 1) * den) by (nonlinear_arith)
            requires
                n == (s.len() - 1) * num,
                s.len() >= 1,
                0 <= num <= den,
        ;
        let last = s.len() - 1;
        assert(0 <= rank <= last) by (nonlinear_arith)
            requires
                -den <= 2 * (n - den * rank) < den,
                0 <= n <= last * den,
                den >= 1,
                last >= 0,
        ;
    }
    rank
}

} // verus!
