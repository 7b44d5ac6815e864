//! Pairwise comparison of series.

use vstd::prelude::*;
use crate::error::BenError;
use crate::group::{Ser, Sers};
use crate::run::copy_vals;

verus! {

/// The pairs `(i, j)` with `lo <= i < j < hi`, in lexicographic order.
pub open spec fn pair_seq(lo: int, hi: int) -> Seq<(usize, usize)>
    decreases hi - lo,
{
    if hi - lo < 2 {
        Seq::empty()
    } else {
        Seq::new((hi - lo - 1) as nat, |k: int| (lo as usize, (lo + 1 + k) as usize)) + pair_seq(lo + 1, hi)
    }
}

/// There are `n (n - 1) / 2` pairs of `n` positions.
pub proof fn lemma_pair_count(lo: int, hi: int)
    requires
        lo <= hi,
    ensures
        pair_seq(lo, hi).len() == ((hi - lo) * (hi - lo - 1)) / 2,
    decreases hi - lo,
{
    let n = hi - lo;
    if n < 2 {
        assert(n * (n - 1) == 0) by (nonlinear_arith)
            requires
                0 <= n < 2,
        ;
    } else {
        lemma_pair_count(lo + 1, hi);
        assert((n - 1) + ((n - 1) * (n - 2)) / 2 == (n * (n - 1)) / 2) by (nonlinear_arith)
            requires
                n >= 2,
        ;
    }
}

/// Every pair of `pair_seq` lies within `lo..hi` and is ordered.
pub proof fn lemma_pair_bounds(lo: int, hi: int)
    requires
        0 <= lo <= hi <= usize::MAX,
    ensures
        forall|k: int| 0 <= k < pair_seq(lo, hi).len() ==> {
            let p = #[trigger] pair_seq(lo, hi)[k];
            lo <= p.0 < p.1 < hi
        },
    decreases hi - lo,
{
    if hi - lo >= 2 {
        lemma_pair_bounds(lo + 1, hi);
        let head = Seq::new((hi - lo - 1) as nat, |k: int| (lo as usize, (lo + 1 + k) as usize));
        assert forall|k: int| 0 <= k < pair_seq(lo, hi).len() implies {
            let p = #[trigger] pair_seq(lo, hi)[k];
            lo <= p.0 < p.1 < hi
        } by {
            if k >= head.len() {
                assert(pair_seq(lo, hi)[k] == pair_seq(lo + 1, hi)[k - head.len()]);
            }
        }
    }
}

/// Relies on `itertools::Itertools::combinations`: the 2-combinations of
/// `lo..hi`, each as its two items in order, the combinations in
/// lexicographic order of positions.
#[verifier::external_body]
fn pairs(lo: usize, hi: usize) -> (r: Vec<(usize, usize)>)
    requires
        lo <= hi,
    ensures
        r@ == pair_seq(lo as int, hi as int),
{
    itertools::Itertools::combinations(lo..hi, 2).map(|v| (v[0], v[1])).collect()
}

/// The number of positions below `n` where `x` is at most `y`.
pub open spec fn wins(x: Seq<u64>, y: Seq<u64>, n: nat) -> nat
    decreases n,
{
    if n == 0 {
        0
    } else {
        wins(x, y, (n - 1) as nat) + if x[n - 1] <= y[n - 1] { 1nat } else { 0nat }
    }
}

/// A comparison of two series, with the marks a table renders.
#[derive(Debug)]
pub struct Cmp {
    /// The axis series: the header row.
    pub axis: Ser,
    /// The first series, cut to the length of the shorter one.
    pub a: Ser,
    /// The second series, cut to the length of the shorter one.
    pub b: Ser,
    /// Where the first series is best: its value is the lesser or equal.
    pub a_best: Vec<bool>,
    /// Where the second series is best.
    pub b_best: Vec<bool>,
    /// The first series has at least as many best values as the second.
    pub a_lead: bool,
    /// The second series has at least as many best values as the first.
    pub b_lead: bool,
    /// At each position, the greater value and the lesser value (at least 1):
    /// the ratio is their quotient.
    pub ratio: Vec<(u64, u64)>,
}

/// A list of comparisons.
#[derive(Debug)]
pub struct Cmps(pub Vec<Cmp>);

/// `c` compares the series `a` and `b` under the axis `axis`.
pub open spec fn compared(c: Cmp, axis: Ser, a: Ser, b: Ser) -> bool {
    let n = if a.vals@.len() < b.vals@.len() { a.vals@.len() } else { b.vals@.len() };
    &&& c.axis.name@ == axis.name@
    &&& c.axis.vals@ == axis.vals@
    &&& c.a.name@ == a.name@
    &&& c.b.name@ == b.name@
    &&& c.a.vals@ == a.vals@.subrange(0, n as int)
    &&& c.b.vals@ == b.vals@.subrange(0, n as int)
    &&& c.a_best@.len() == n
    &&& c.b_best@.len() == n
    &&& c.ratio@.len() == n
    &&& forall|i: int| 0 <= i < n ==> (#[trigger] c.a_best@[i]) == (a.vals@[i] <= b.vals@[i])
    &&& forall|i: int| 0 <= i < n ==> (#[trigger] c.b_best@[i]) == (b.vals@[i] <= a.vals@[i])
    &&& forall|i: int| 0 <= i < n ==> #[trigger] c.ratio@[i] == (
        if a.vals@[i] < b.vals@[i] { b.vals@[i] } else { a.vals@[i] },
        if a.vals@[i] < b.vals@[i] {
            if a.vals@[i] == 0 { 1u64 } else { a.vals@[i] }
        } else {
            if b.vals@[i] == 0 { 1u64 } else { b.vals@[i] }
        },
    )
    &&& c.a_lead == (wins(a.vals@, b.vals@, n) >= wins(b.vals@, a.vals@, n))
    &&& c.b_lead == (wins(b.vals@, a.vals@, n) >= wins(a.vals@, b.vals@, n))
}

/// `cmps` compare each pair of data series of `sers`, the pairs in
/// lexicographic order.
pub open spec fn compared_all(cmps: Seq<Cmp>, sers: Seq<Ser>) -> bool {
    let ps = pair_seq(1, sers.len() as int);
    &&& cmps.len() == ps.len()
    &&& forall|k: int| 0 <= k < ps.len() ==> compared(
        #[trigger] cmps[k],
        sers[0],
        sers[ps[k].0 as int],
        sers[ps[k].1 as int],
    )
}

/// Returns a copy of a series.
pub fn copy_ser(s: &Ser) -> (r: Ser)
    ensures
        r.name@ == s.name@,
        r.vals@ == s.vals@,
{
    Ser { name: s.name.clone(), vals: copy_vals(&s.vals) }
}

impl Sers {
    /// Compares the series at `ia` and `ib`, under the axis series.
    fn cmp_pair(&self, ia: usize, ib: usize) -> (r: Cmp)
        requires
            ia < self.0@.len(),
            ib < self.0@.len(),
        ensures
            compared(r, self.0@[0], self.0@[ia as int], self.0@[ib as int]),
    {
        let axis = copy_ser(&self.0[0]);
        let a = &self.0[ia];
        let b = &self.0[ib];
        let n = if a.vals.len() < b.vals.len() { a.vals.len() } else { b.vals.len() };
        let mut av: Vec<u64> = Vec::with_capacity(n);
        let mut bv: Vec<u64> = Vec::with_capacity(n);
        let mut a_best: Vec<bool> = Vec::with_capacity(n);
        let mut b_best: Vec<bool> = Vec::with_capacity(n);
        let mut ratio: Vec<(u64, u64)> = Vec::with_capacity(n);
        let mut ca: usize = 0;
        let mut cb: usize = 0;
        let mut i: usize = 0;
        while i < n
            invariant
                n <= a.vals@.len(),
                n <= b.vals@.len(),
                i <= n,
                av@ == a.vals@.subrange(0, i as int),
                bv@ == b.vals@.subrange(0, i as int),
                a_best@.len() == i,
                b_best@.len() == i,
                ratio@.len() == i,
                ca == wins(a.vals@, b.vals@, i as nat),
                cb == wins(b.vals@, a.vals@, i as nat),
                ca <= i,
                cb <= i,
                forall|j: int| 0 <= j < i ==> (#[trigger] a_best@[j]) == (a.vals@[j] <= b.vals@[j]),
                forall|j: int| 0 <= j < i ==> (#[trigger] b_best@[j]) == (b.vals@[j] <= a.vals@[j]),
                forall|j: int| 0 <= j < i ==> #[trigger] ratio@[j] == (
                    if a.vals@[j] < b.vals@[j] { b.vals@[j] } else { a.vals@[j] },
                    if a.vals@[j] < b.vals@[j] {
                        if a.vals@[j] == 0 { 1u64 } else { a.vals@[j] }
                    } else {
                        if b.vals@[j] == 0 { 1u64 } else { b.vals@[j] }
                    },
                ),
            decreases n - i,
        {
            let x = a.vals[i];
            let y = b.vals[i];
            av.push(x);
            bv.push(y);
            a_best.push(x <= y);
            b_best.push(y <= x);
            if x <= y {
                ca += 1;
            }
            if y <= x {
                cb += 1;
            }
            let lo = if x < y { x } else { y };
            let hi = if x < y { y } else { x };
            ratio.push((hi, if lo == 0 { 1 } else { lo }));
            i += 1;
            assert(av@ =~= a.vals@.subrange(0, i as int));
            assert(bv@ =~= b.vals@.subrange(0, i as int));
        }
        Cmp {
            axis,
            a: Ser { name: a.name.clone(), vals: av },
            b: Ser { name: b.name.clone(), vals: bv },
            a_best,
            b_best,
            a_lead: ca >= cb,
            b_lead: cb >= ca,
            ratio,
        }
    }

    /// Compares each pair of data series, the pairs in lexicographic order.
    /// Fails with `InsufficientSeries` when there are fewer than two data
    /// series besides the axis.
    pub fn cmp<L>(&self) -> (r: Result<Cmps, BenError<L>>)
        ensures
            r is Err <==> self.0@.len() < 3,
            r matches Err(e) ==> e is InsufficientSeries,
            r matches Ok(c) ==> {
                &&& compared_all(c.0@, self.0@)
                &&& c.0@.len() == ((self.0@.len() - 1) * (self.0@.len() - 2)) / 2
            },
    {
        if self.0.len() < 3 {
            return Err(BenError::InsufficientSeries);
        }
        let ps = pairs(1, self.0.len());
        proof {
            lemma_pair_bounds(1, self.0@.len() as int);
            lemma_pair_count(1, self.0@.len() as int);
        }
        let mut cmps: Vec<Cmp> = Vec::with_capacity(ps.len());
        let mut k: usize = 0;
        while k < ps.len()
            invariant
                ps@ == pair_seq(1, self.0@.len() as int),
                forall|q: int| 0 <= q < ps@.len() ==> {
                    let p = #[trigger] ps@[q];
                    1 <= p.0 < p.1 < self.0@.len()
                },
                k <= ps@.len(),
                cmps@.len() == k,
                forall|q: int| 0 <= q < k ==> compared(
                    #[trigger] cmps@[q],
                    self.0@[0],
                    self.0@[ps@[q].0 as int],
                    self.0@[ps@[q].1 as int],
                ),
            decreases ps@.len() - k,
        {
            let p = ps[k];
            assert(ps@[k as int] == p);
            let c = self.cmp_pair(p.0, p.1);
            cmps.push(c);
            k += 1;
        }
        Ok(Cmps(cmps))
    }
}

} // verus!
