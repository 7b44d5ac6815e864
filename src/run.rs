//! Running selected bodies, sample statistics, and sorting results by label.

use vstd::prelude::*;
use vstd::relations::{sorted_by, total_ordering};
use crate::label::{Label, canonical_of, first_of_kind, find, copy_labels, sorted_strict, insert_sorted, same, unq_srt};
use crate::set::{Frm, Op};
use crate::sort::{stable_sort_of, sort_by_keys};

verus! {

broadcast use vstd::seq_lib::group_to_multiset_ensures;

/// Statistical reductions of benchmark samples.
#[derive(Clone, Copy, Debug, PartialEq, Eq, Hash, Default)]
pub enum Sta {
    /// The median: the middle sample in ascending order.
    #[default]
    Mdn,
    /// The least sample.
    Min,
    /// The greatest sample.
    Max,
    /// The mean, rounded down.
    Avg,
}

/// The order of samples.
pub open spec fn sample_leq() -> spec_fn(u64, u64) -> bool {
    |a: u64, b: u64| a <= b
}

/// The samples in ascending order.
pub open spec fn sorted_vals(s: Seq<u64>) -> Seq<u64> {
    s.sort_by(sample_leq())
}

/// The sum of the samples.
pub open spec fn seq_sum(s: Seq<u64>) -> nat
    decreases s.len(),
{
    if s.len() == 0 {
        0
    } else {
        (seq_sum(s.drop_last()) + s.last()) as nat
    }
}

/// The least sample of a non-empty sequence.
pub open spec fn seq_min(s: Seq<u64>) -> u64
    decreases s.len(),
{
    if s.len() <= 1 {
        s[0]
    } else if s.last() < seq_min(s.drop_last()) {
        s.last()
    } else {
        seq_min(s.drop_last())
    }
}

/// The greatest sample of a non-empty sequence.
pub open spec fn seq_max(s: Seq<u64>) -> u64
    decreases s.len(),
{
    if s.len() <= 1 {
        s[0]
    } else if s.last() > seq_max(s.drop_last()) {
        s.last()
    } else {
        seq_max(s.drop_last())
    }
}

/// The statistic `sta` of the non-empty samples `s`.
pub open spec fn stat(s: Seq<u64>, sta: Sta) -> u64 {
    match sta {
        Sta::Mdn => sorted_vals(s)[(s.len() / 2) as int],
        Sta::Min => seq_min(s),
        Sta::Max => seq_max(s),
        Sta::Avg => (seq_sum(s) / s.len()) as u64,
    }
}

/// The samples `s` as a result holds them: all of them, or the one statistic.
pub open spec fn reduced(s: Seq<u64>, sel: Option<Sta>) -> Seq<u64> {
    match sel {
        None => s,
        Some(sta) => seq![stat(s, sta)],
    }
}

/// `a` less `b`, or zero where `b` is larger.
pub open spec fn sat_sub(a: u64, b: u64) -> u64 {
    if a >= b {
        (a - b) as u64
    } else {
        0
    }
}

/// The sort key of a tag set: its label of the kind of `l`, or the fallback.
pub open spec fn sort_key<L: Label>(tags: Seq<L>, l: L) -> L {
    match first_of_kind(tags, l.kind()) {
        Some(x) => x,
        None => L::fallback(),
    }
}

/// The sort key codes of results.
pub open spec fn key_codes<L: Label>(s: Seq<Dat<L>>, l: L) -> Seq<u64> {
    Seq::new(s.len(), |i: int| sort_key(s[i].lbls@, l).code() as u64)
}

/// `r` is `s` sorted stably by the sort key of `l`.
pub open spec fn dats_sorted_by<L: Label>(r: Seq<Dat<L>>, s: Seq<Dat<L>>, l: L) -> bool {
    stable_sort_of(r, key_codes(r, l), s, key_codes(s, l))
}

/// Results of a benchmark run.
#[derive(Debug)]
pub struct Dat<L> {
    /// Labels of the benchmark.
    pub lbls: Vec<L>,
    /// Its samples, or the one statistic of them.
    pub vals: Vec<u64>,
}

/// Copies samples.
pub fn copy_vals(v: &Vec<u64>) -> (r: Vec<u64>)
    ensures
        r@ == v@,
{
    let mut r: Vec<u64> = Vec::with_capacity(v.len());
    let mut i: usize = 0;
    while i < v.len()
        invariant
            i <= v@.len(),
            r@ == v@.subrange(0, i as int),
        decreases v@.len() - i,
    {
        r.push(v[i]);
        i += 1;
        assert(r@ =~= v@.subrange(0, i as int));
    }
    assert(r@ =~= v@);
    r
}

/// The order of samples is total.
pub proof fn lemma_sample_leq_total()
    ensures
        total_ordering(sample_leq()),
{
}

impl<L: Label> Dat<L> {
    /// Returns a result with the canonical form of `lbls` and the samples
    /// `vals`.
    pub fn new(lbls: &[L], vals: Vec<u64>) -> (r: Self)
        ensures
            canonical_of(r.lbls@, lbls@),
            r.vals == vals,
    {
        Dat { lbls: unq_srt(lbls), vals }
    }

    /// Returns the labels of this result that `lbls` lacks, ascending and
    /// each once.
    pub fn lbls_dif(&self, lbls: &[L]) -> (r: Vec<L>)
        ensures
            sorted_strict(r@),
            forall|x: L| r@.contains(x) <==> (self.lbls@.contains(x) && !lbls@.contains(x)),
    {
        let mut r: Vec<L> = Vec::new();
        let mut i: usize = 0;
        while i < self.lbls.len()
            invariant
                i <= self.lbls@.len(),
                sorted_strict(r@),
                forall|x: L| r@.contains(x) <==> (self.lbls@.subrange(0, i as int).contains(x) && !lbls@.contains(x)),
            decreases self.lbls@.len() - i,
        {
            let l = self.lbls[i];
            let ghost pre = self.lbls@.subrange(0, i as int);
            let mut found = false;
            let mut j: usize = 0;
            while j < lbls.len()
                invariant
                    j <= lbls@.len(),
                    found == exists|k: int| 0 <= k < j && lbls@[k] == l,
                decreases lbls@.len() - j,
            {
                if same(&lbls[j], &l) {
                    found = true;
                }
                j += 1;
            }
            if !found {
                insert_sorted(&mut r, l);
            }
            i += 1;
            let ghost cur = self.lbls@.subrange(0, i as int);
            assert forall|x: L| cur.contains(x) <==> (pre.contains(x) || x == l) by {
                if cur.contains(x) {
                    let k = choose|k: int| 0 <= k < cur.len() && cur[k] == x;
                    if k < pre.len() {
                        assert(pre[k] == x);
                    }
                }
                if pre.contains(x) {
                    let k = choose|k: int| 0 <= k < pre.len() && pre[k] == x;
                    assert(cur[k] == x);
                }
                if x == l {
                    assert(cur[i - 1] == x);
                }
            }
        }
        assert(self.lbls@.subrange(0, self.lbls@.len() as int) =~= self.lbls@);
        r
    }
}

impl<L> Dat<L> {
    /// Returns the samples in ascending order.
    pub fn srt(&self) -> (r: Vec<u64>)
        ensures
            r@ == sorted_vals(self.vals@),
    {
        let mut v = copy_vals(&self.vals);
        let mut keys = copy_vals(&self.vals);
        sort_by_keys(&mut v, &mut keys);
        proof {
            let p = choose|p: Seq<int>| {
                &&& crate::sort::is_perm(p, self.vals@.len())
                &&& forall|a: int| 0 <= a < v@.len() ==> v@[a] == self.vals@[#[trigger] p[a]] && keys@[a] == self.vals@[p[a]]
                &&& forall|a: int, b: int| 0 <= a < b < v@.len() && keys@[a] == keys@[b] ==> p[a] < p[b]
            };
            assert forall|a: int| 0 <= a < v@.len() implies v@[a] == keys@[a] by {
                assert(v@[a] == self.vals@[p[a]]);
            }
            assert(v@ =~= keys@);
            assert(sorted_by(v@, sample_leq()));
            lemma_sample_leq_total();
            self.vals@.lemma_sort_by_ensures(sample_leq());
            vstd::seq_lib::lemma_sorted_unique(v@, sorted_vals(self.vals@), sample_leq());
        }
        v
    }

    /// Returns the median: the middle sample in ascending order.
    pub fn mdn(&self) -> (r: u64)
        requires
            self.vals@.len() > 0,
        ensures
            r == stat(self.vals@, Sta::Mdn),
    {
        let s = self.srt();
        proof {
            lemma_sample_leq_total();
            self.vals@.lemma_sort_by_ensures(sample_leq());
            assert(s@.to_multiset().len() == self.vals@.len());
        }
        s[s.len() / 2]
    }

    /// Returns the mean of the samples, rounded down.
    pub fn avg(&self) -> (r: u64)
        requires
            self.vals@.len() > 0,
        ensures
            r == stat(self.vals@, Sta::Avg),
    {
        let n = self.vals.len();
        let mut sum: u128 = 0;
        let mut i: usize = 0;
        while i < n
            invariant
                n == self.vals@.len(),
                i <= n,
                sum == seq_sum(self.vals@.subrange(0, i as int)),
                sum <= i * 0xffff_ffff_ffff_ffff,
            decreases n - i,
        {
            let ghost pre = self.vals@.subrange(0, i as int);
            let x = self.vals[i];
            assert(sum + x <= (i + 1) * 0xffff_ffff_ffff_ffff) by (nonlinear_arith)
                requires
                    sum <= i * 0xffff_ffff_ffff_ffff,
                    x <= 0xffff_ffff_ffff_ffff,
            ;
            assert((i + 1) * 0xffff_ffff_ffff_ffff <= 0xffff_ffff_ffff_ffff * 0x1_0000_0000_0000_0000) by (nonlinear_arith)
                requires
                    i < 0x1_0000_0000_0000_0000,
            ;
            sum = sum + x as u128;
            i += 1;
            assert(self.vals@.subrange(0, i as int).drop_last() =~= pre);
        }
        assert(self.vals@.subrange(0, n as int) =~= self.vals@);
        let q = sum / (n as u128);
        assert(q <= 0xffff_ffff_ffff_ffff) by (nonlinear_arith)
            requires
                sum <= n * 0xffff_ffff_ffff_ffff,
                n > 0,
                q == sum / (n as u128),
        ;
        q as u64
    }

    /// Returns the least sample.
    pub fn min(&self) -> (r: u64)
        requires
            self.vals@.len() > 0,
        ensures
            r == stat(self.vals@, Sta::Min),
    {
        let mut m = self.vals[0];
        let mut i: usize = 1;
        assert(self.vals@.subrange(0, 1).drop_last().len() == 0);
        while i < self.vals.len()
            invariant
                1 <= i <= self.vals@.len(),
                m == seq_min(self.vals@.subrange(0, i as int)),
            decreases self.vals@.len() - i,
        {
            let ghost pre = self.vals@.subrange(0, i as int);
            if self.vals[i] < m {
                m = self.vals[i];
            }
            i += 1;
            assert(self.vals@.subrange(0, i as int).drop_last() =~= pre);
        }
        assert(self.vals@.subrange(0, i as int) =~= self.vals@);
        m
    }

    /// Returns the greatest sample.
    pub fn max(&self) -> (r: u64)
        requires
            self.vals@.len() > 0,
        ensures
            r == stat(self.vals@, Sta::Max),
    {
        let mut m = self.vals[0];
        let mut i: usize = 1;
        assert(self.vals@.subrange(0, 1).drop_last().len() == 0);
        while i < self.vals.len()
            invariant
                1 <= i <= self.vals@.len(),
                m == seq_max(self.vals@.subrange(0, i as int)),
            decreases self.vals@.len() - i,
        {
            let ghost pre = self.vals@.subrange(0, i as int);
            if self.vals[i] > m {
                m = self.vals[i];
            }
            i += 1;
            assert(self.vals@.subrange(0, i as int).drop_last() =~= pre);
        }
        assert(self.vals@.subrange(0, i as int) =~= self.vals@);
        m
    }
}

/// Reduces samples as `sel` asks: all of them, or their one statistic.
pub fn reduce(vals: Vec<u64>, sel: &Option<Sta>) -> (r: Vec<u64>)
    requires
        vals@.len() > 0,
    ensures
        r@ == reduced(vals@, *sel),
{
    match sel {
        None => vals,
        Some(sta) => {
            let d: Dat<u32> = Dat { lbls: Vec::new(), vals };
            let x = match sta {
                Sta::Mdn => d.mdn(),
                Sta::Min => d.min(),
                Sta::Max => d.max(),
                Sta::Avg => d.avg(),
            };
            let mut r: Vec<u64> = Vec::new();
            r.push(x);
            assert(r@ =~= seq![x]);
            r
        },
    }
}

/// Returns the code of the sort key of `tags` for `l`.
fn sort_key_code<L: Label>(tags: &Vec<L>, l: L) -> (r: u64)
    ensures
        r as int == sort_key(tags@, l).code(),
{
    match find(tags.as_slice(), l) {
        Some(x) => x.key(),
        None => L::fallback_label().key(),
    }
}

/// Sorts results stably by their sort key for `l`.
pub fn sort_dats<L: Label>(dats: &mut Vec<Dat<L>>, l: L)
    ensures
        dats_sorted_by(final(dats)@, old(dats)@, l),
{
    let ghost d0 = dats@;
    let mut keys: Vec<u64> = Vec::with_capacity(dats.len());
    let mut i: usize = 0;
    while i < dats.len()
        invariant
            dats@ == d0,
            i <= dats@.len(),
            keys@.len() == i,
            forall|a: int| 0 <= a < i ==> keys@[a] as int == sort_key(d0[a].lbls@, l).code(),
        decreases dats@.len() - i,
    {
        keys.push(sort_key_code(&dats[i].lbls, l));
        i += 1;
    }
    let ghost k0 = keys@;
    assert(k0 =~= key_codes(d0, l));
    sort_by_keys(dats, &mut keys);
    proof {
        let r = dats@;
        let p = choose|p: Seq<int>| {
            &&& crate::sort::is_perm(p, d0.len())
            &&& forall|a: int| 0 <= a < r.len() ==> r[a] == d0[#[trigger] p[a]] && keys@[a] == k0[p[a]]
            &&& forall|a: int, b: int| 0 <= a < b < r.len() && keys@[a] == keys@[b] ==> p[a] < p[b]
        };
        assert forall|a: int| 0 <= a < r.len() implies keys@[a] == key_codes(r, l)[a] by {
            assert(r[a] == d0[p[a]]);
        }
        assert(keys@ =~= key_codes(r, l));
    }
}

/// `x` is what one call of `f` may return, less `ov`.
pub open spec fn is_sample<F: Fn() -> u64>(f: F, x: u64, ov: u64) -> bool {
    exists|c: u64| call_ensures(f, (), c) && x == sat_sub(c, ov)
}

/// `d` holds the labels of `op` and the reduction by `sel` of `itr` samples:
/// each what one call of the body returned, less `ov`.
pub open spec fn measured<L: Label, F: Fn() -> u64>(d: Dat<L>, op: Op<L, F>, itr: nat, ov: u64, sel: Option<Sta>) -> bool {
    &&& d.lbls@ == op.lbls@
    &&& exists|raw: Seq<u64>| {
        &&& raw.len() == itr
        &&& forall|k: int| 0 <= k < itr ==> is_sample(op.fnc, #[trigger] raw[k], ov)
        &&& d.vals@ == reduced(raw, sel)
    }
}

/// The ops that a list of references points to.
pub open spec fn deref_ops<L, F>(ops: Seq<&Op<L, F>>) -> Seq<Op<L, F>> {
    Seq::new(ops.len(), |i: int| *ops[i])
}

/// `res` is what running `ops` gives: one result per op, each `itr` samples
/// less `ov` reduced by `sel`, sorted stably by the kind of `srt` if given.
pub open spec fn ran<L: Label, F: Fn() -> u64>(
    res: Seq<Dat<L>>,
    ops: Seq<Op<L, F>>,
    itr: nat,
    ov: u64,
    srt: Option<L>,
    sel: Option<Sta>,
) -> bool {
    exists|u: Seq<Dat<L>>| {
        &&& u.len() == ops.len()
        &&& forall|i: int| 0 <= i < u.len() ==> measured(#[trigger] u[i], ops[i], itr, ov, sel)
        &&& match srt {
            None => res == u,
            Some(l) => dats_sorted_by(res, u, l),
        }
    }
}

/// A benchmark measurement run.
#[derive(Debug)]
pub struct Run<L> {
    /// Benchmark results.
    pub res: Vec<Dat<L>>,
}

impl<L: Label> Run<L> {
    /// Returns a run of the results `res`.
    pub fn new(res: Vec<Dat<L>>) -> (r: Self)
        ensures
            r.res == res,
    {
        Run { res }
    }
}

impl<'a, L: Label, F: Fn() -> u64> Frm<'a, L, F> {
    /// Runs each selected body `itr` times. Each sample is what the body
    /// returned less `overhead`, and zero where that is larger. The samples
    /// are reduced by `sel`, and the results sorted stably by the label of
    /// the kind of `srt`.
    pub fn run(&self, itr: u32, srt: &Option<L>, sel: &Option<Sta>, overhead: u64) -> (r: Run<L>)
        requires
            itr >= 1,
            forall|i: int| 0 <= i < self.ops@.len() ==> (#[trigger] self.ops@[i]).fnc.requires(()),
        ensures
            r.res@.len() == self.ops@.len(),
            forall|i: int| 0 <= i < r.res@.len() ==> (#[trigger] r.res@[i]).vals@.len() == match *sel {
                None => itr as nat,
                Some(_) => 1,
            },
            ran(r.res@, deref_ops(self.ops@), itr as nat, overhead, *srt, *sel),
    {
        let mut res: Vec<Dat<L>> = Vec::with_capacity(self.ops.len());
        let mut i: usize = 0;
        while i < self.ops.len()
            invariant
                itr >= 1,
                forall|i: int| 0 <= i < self.ops@.len() ==> (#[trigger] self.ops@[i]).fnc.requires(()),
                i <= self.ops@.len(),
                res@.len() == i,
                forall|a: int| 0 <= a < i ==> measured(#[trigger] res@[a], *self.ops@[a], itr as nat, overhead, *sel),
                forall|a: int| 0 <= a < i ==> (#[trigger] res@[a]).vals@.len() == match *sel {
                    None => itr as nat,
                    Some(_) => 1,
                },
            decreases self.ops@.len() - i,
        {
            let op: &Op<L, F> = self.ops[i];
            let mut vals: Vec<u64> = Vec::with_capacity(itr as usize);
            let mut k: u32 = 0;
            while k < itr
                invariant
                    k <= itr,
                    op.fnc.requires(()),
                    vals@.len() == k,
                    forall|m: int| 0 <= m < k ==> is_sample(op.fnc, #[trigger] vals@[m], overhead),
                decreases itr - k,
            {
                let cyc = (op.fnc)();
                let ghost before = vals@;
                vals.push(cyc.saturating_sub(overhead));
                k += 1;
                assert forall|m: int| 0 <= m < k implies is_sample(op.fnc, #[trigger] vals@[m], overhead) by {
                    if m < k - 1 {
                        assert(vals@[m] == before[m]);
                    } else {
                        assert(vals@[m] == sat_sub(cyc, overhead));
                        assert(call_ensures(op.fnc, (), cyc) && vals@[m] == sat_sub(cyc, overhead));
                    }
                }
            }
            let ghost raw = vals@;
            let vals = reduce(vals, sel);
            let d = Dat { lbls: copy_labels(op.lbls.as_slice()), vals };
            assert(raw.len() == itr as nat);
            assert(d.vals@ == reduced(raw, *sel));
            assert(measured(d, *op, itr as nat, overhead, *sel));
            res.push(d);
            i += 1;
        }
        let ghost u = res@;
        match srt {
            None => {},
            Some(l) => {
                sort_dats(&mut res, *l);
                proof {
                    let p = choose|p: Seq<int>| {
                        &&& crate::sort::is_perm(p, u.len())
                        &&& forall|a: int| 0 <= a < res@.len() ==> res@[a] == u[#[trigger] p[a]] && key_codes(res@, *l)[a] == key_codes(u, *l)[p[a]]
                        &&& forall|a: int, b: int| 0 <= a < b < res@.len() && key_codes(res@, *l)[a] == key_codes(res@, *l)[b] ==> p[a] < p[b]
                    };
                    assert forall|a: int| 0 <= a < res@.len() implies (#[trigger] res@[a]).vals@.len() == match *sel {
                        None => itr as nat,
                        Some(_) => 1,
                    } by {
                        assert(res@[a] == u[p[a]]);
                    }
                }
            },
        }
        proof {
            let ops = deref_ops(self.ops@);
            assert forall|i: int| 0 <= i < u.len() implies measured(#[trigger] u[i], ops[i], itr as nat, overhead, *sel) by {
                assert(ops[i] == *self.ops@[i]);
            }
        }
        Run::new(res)
    }
}

} // verus!
