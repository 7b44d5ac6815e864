//! The tagged store of benchmark bodies and the filter that selects from it.

use vstd::prelude::*;
use std::collections::HashMap;
use crate::error::BenError;
use crate::label::{Label, canonical_of, sorted_strict, unq_srt, mrg_unq_srt, copy_labels};

verus! {

broadcast use vstd::std_specs::hash::group_hash_axioms;

/// A benchmark body with its canonical labels.
pub struct Op<L, F> {
    /// Labels, ascending and each once.
    pub lbls: Vec<L>,
    /// The body: one call runs the benchmark once and returns its cycle count.
    pub fnc: F,
}

impl<L: Label, F> Op<L, F> {
    /// Returns an op whose labels are the canonical form of `lbls`.
    pub fn new(lbls: &[L], fnc: F) -> (r: Self)
        ensures
            canonical_of(r.lbls@, lbls@),
            r.fnc == fnc,
    {
        Op { lbls: unq_srt(lbls), fnc }
    }
}

/// Whether some label of `tags` has code `k`.
pub open spec fn has_code<L: Label>(tags: Seq<L>, k: int) -> bool {
    exists|j: int| 0 <= j < tags.len() && tags[j].code() == k
}

/// Ids strictly ascend along `s`.
pub open spec fn ascending(s: Seq<u16>) -> bool {
    forall|i: int, j: int| 0 <= i < j < s.len() ==> s[i] < s[j]
}

/// Whether `tags` holds every label of `q`.
pub open spec fn holds_all<L: Label>(tags: Seq<L>, q: Seq<L>) -> bool {
    forall|j: int| 0 <= j < q.len() ==> tags.contains(q[j])
}

/// The ids below `n`, ascending, whose tags hold every label of the
/// non-empty conjunction `q`.
pub open spec fn match_ids<L: Label>(tags: Seq<Seq<L>>, q: Seq<L>, n: nat) -> Seq<u16>
    decreases n,
{
    if n == 0 {
        Seq::empty()
    } else {
        let prev = match_ids(tags, q, (n - 1) as nat);
        if q.len() > 0 && holds_all(tags[n - 1], q) {
            prev.push((n - 1) as u16)
        } else {
            prev
        }
    }
}

/// The ids that the disjunction `qs` selects: those of each conjunction in
/// turn.
pub open spec fn frm_ids<L: Label>(tags: Seq<Seq<L>>, qs: Seq<Seq<L>>) -> Seq<u16>
    decreases qs.len(),
{
    if qs.len() == 0 {
        Seq::empty()
    } else {
        frm_ids(tags, qs.drop_last()) + match_ids(tags, qs.last(), tags.len())
    }
}

/// The views of a list of label lists.
pub open spec fn views<L>(v: Seq<Vec<L>>) -> Seq<Seq<L>> {
    Seq::new(v.len(), |i: int| v[i]@)
}

/// Every id that `frm_ids` selects is below the number of ops.
pub proof fn lemma_frm_ids_bounded<L: Label>(tags: Seq<Seq<L>>, qs: Seq<Seq<L>>)
    requires
        tags.len() <= 0x1_0000,
    ensures
        forall|i: int| 0 <= i < frm_ids(tags, qs).len() ==> frm_ids(tags, qs)[i] < tags.len(),
    decreases qs.len(),
{
    if qs.len() > 0 {
        lemma_frm_ids_bounded(tags, qs.drop_last());
        lemma_match_ids(tags, qs.last(), tags.len());
        let a = frm_ids(tags, qs.drop_last());
        let b = match_ids(tags, qs.last(), tags.len());
        assert forall|i: int| 0 <= i < frm_ids(tags, qs).len() implies frm_ids(tags, qs)[i] < tags.len() by {
            if i < a.len() {
                assert(frm_ids(tags, qs)[i] == a[i]);
            } else {
                assert(frm_ids(tags, qs)[i] == b[i - a.len()]);
            }
        }
    }
}

/// `match_ids` is ascending, and holds exactly the ids that match.
pub proof fn lemma_match_ids<L: Label>(tags: Seq<Seq<L>>, q: Seq<L>, n: nat)
    requires
        n <= tags.len(),
        n <= 0x1_0000,
    ensures
        ascending(match_ids(tags, q, n)),
        forall|i: int| 0 <= i < match_ids(tags, q, n).len() ==> match_ids(tags, q, n)[i] < n,
        forall|x: u16| match_ids(tags, q, n).contains(x) <==> (x < n && q.len() > 0 && holds_all(tags[x as int], q)),
    decreases n,
{
    if n > 0 {
        lemma_match_ids(tags, q, (n - 1) as nat);
        let prev = match_ids(tags, q, (n - 1) as nat);
        let cur = match_ids(tags, q, n);
        assert(((n - 1) as u16) as int == n - 1);
        assert forall|x: u16| cur.contains(x) <==> (x < n && q.len() > 0 && holds_all(tags[x as int], q)) by {
            if q.len() > 0 && holds_all(tags[n - 1], q) {
                assert(cur == prev.push((n - 1) as u16));
                if cur.contains(x) {
                    let i = choose|i: int| 0 <= i < cur.len() && cur[i] == x;
                    if i < prev.len() {
                        assert(prev[i] == x);
                        assert(prev.contains(x));
                    } else {
                        assert(x as int == n - 1);
                    }
                    assert(x < n && q.len() > 0 && holds_all(tags[x as int], q));
                }
                if x < n && holds_all(tags[x as int], q) {
                    if x == n - 1 {
                        assert(cur[prev.len() as int] == x);
                    } else {
                        assert(prev.contains(x));
                        let i = choose|i: int| 0 <= i < prev.len() && prev[i] == x;
                        assert(cur[i] == x);
                    }
                    assert(cur.contains(x));
                }
            } else {
                assert(cur == prev);
                if x < n && q.len() > 0 && holds_all(tags[x as int], q) {
                    assert(x != n - 1);
                    assert(x < n - 1);
                    assert(prev.contains(x));
                }
                if cur.contains(x) {
                    assert(prev.contains(x));
                    assert(x < n && q.len() > 0 && holds_all(tags[x as int], q));
                }
            }
        }
        assert forall|i: int| 0 <= i < cur.len() implies cur[i] < n by {
            if i < prev.len() {
                assert(cur[i] == prev[i]);
            }
        }
    }
}

/// Two ascending id lists with the same ids are equal.
pub proof fn lemma_ascending_unique(a: Seq<u16>, b: Seq<u16>)
    requires
        ascending(a),
        ascending(b),
        forall|x: u16| a.contains(x) <==> b.contains(x),
    ensures
        a == b,
    decreases a.len() + b.len(),
{
    if a.len() == 0 || b.len() == 0 {
        if a.len() > 0 {
            assert(a.contains(a[0]));
        }
        if b.len() > 0 {
            assert(b.contains(b[0]));
        }
        assert(a =~= b);
    } else {
        assert(a.contains(a[0]));
        assert(b.contains(b[0]));
        let ia = choose|i: int| 0 <= i < a.len() && a[i] == b[0];
        let ib = choose|i: int| 0 <= i < b.len() && b[i] == a[0];
        if ib > 0 {
            assert(b[0] < b[ib]);
        }
        if ia > 0 {
            assert(a[0] < a[ia]);
        }
        let ta = a.drop_first();
        let tb = b.drop_first();
        assert forall|x: u16| ta.contains(x) <==> tb.contains(x) by {
            if ta.contains(x) {
                let i = choose|i: int| 0 <= i < ta.len() && ta[i] == x;
                assert(a[i + 1] == x);
                assert(a.contains(x));
                let j = choose|j: int| 0 <= j < b.len() && b[j] == x;
                assert(j != 0);
                assert(tb[j - 1] == x);
            }
            if tb.contains(x) {
                let i = choose|i: int| 0 <= i < tb.len() && tb[i] == x;
                assert(b[i + 1] == x);
                assert(b.contains(x));
                let j = choose|j: int| 0 <= j < a.len() && a[j] == x;
                assert(j != 0);
                assert(ta[j - 1] == x);
            }
        }
        lemma_ascending_unique(ta, tb);
        assert(a =~= seq![a[0]] + ta);
        assert(b =~= seq![b[0]] + tb);
    }
}

/// A label is among `tags` exactly when its code is.
pub proof fn lemma_has_code<L: Label>(tags: Seq<L>, l: L)
    ensures
        has_code(tags, l.code()) <==> tags.contains(l),
{
    if has_code(tags, l.code()) {
        let j = choose|j: int| 0 <= j < tags.len() && tags[j].code() == l.code();
        L::lemma_code_injective(tags[j], l);
    }
    if tags.contains(l) {
        let j = choose|j: int| 0 <= j < tags.len() && tags[j] == l;
        assert(tags[j].code() == l.code());
    }
}

/// Whether `v` holds `x`.
fn has_id(v: &Vec<u16>, x: u16) -> (r: bool)
    ensures
        r == v@.contains(x),
{
    let mut i: usize = 0;
    while i < v.len()
        invariant
            i <= v@.len(),
            forall|j: int| 0 <= j < i ==> v@[j] != x,
        decreases v@.len() - i,
    {
        if v[i] == x {
            assert(v@[i as int] == x);
            return true;
        }
        i += 1;
    }
    false
}

/// The ids of `a` that `b` holds, in the order of `a`.
fn intersect(a: &Vec<u16>, b: &Vec<u16>) -> (r: Vec<u16>)
    requires
        ascending(a@),
    ensures
        ascending(r@),
        forall|x: u16| r@.contains(x) <==> (a@.contains(x) && b@.contains(x)),
{
    let mut r: Vec<u16> = Vec::new();
    let mut i: usize = 0;
    while i < a.len()
        invariant
            i <= a@.len(),
            ascending(a@),
            ascending(r@),
            forall|k: int| 0 <= k < r@.len() ==> (i < a@.len() ==> r@[k] < a@[i as int]),
            forall|x: u16| r@.contains(x) <==> (a@.subrange(0, i as int).contains(x) && b@.contains(x)),
        decreases a@.len() - i,
    {
        let x = a[i];
        let ghost r0 = r@;
        let ghost pre = a@.subrange(0, i as int);
        if has_id(b, x) {
            r.push(x);
        }
        i += 1;
        let ghost cur = a@.subrange(0, i as int);
        assert forall|y: u16| cur.contains(y) <==> (pre.contains(y) || y == x) by {
            if cur.contains(y) {
                let j = choose|j: int| 0 <= j < cur.len() && cur[j] == y;
                if j < pre.len() {
                    assert(pre[j] == y);
                }
            }
            if pre.contains(y) {
                let j = choose|j: int| 0 <= j < pre.len() && pre[j] == y;
                assert(cur[j] == y);
            }
            if y == x {
                assert(cur[i - 1] == y);
            }
        }
        assert forall|y: u16| r@.contains(y) <==> (cur.contains(y) && b@.contains(y)) by {
            if r@.contains(y) && r@ != r0 {
                let j = choose|j: int| 0 <= j < r@.len() && r@[j] == y;
                if j < r0.len() {
                    assert(r0[j] == y);
                }
            }
            if r0.contains(y) {
                let j = choose|j: int| 0 <= j < r0.len() && r0[j] == y;
                assert(r@[j] == y);
            }
            if y == x && b@.contains(y) {
                assert(r@[r@.len() - 1] == y);
            }
        }
        assert forall|k: int| 0 <= k < r@.len() && i < a@.len() implies r@[k] < a@[i as int] by {
            {
                assert(a@[i - 1] < a@[i as int]);
                if k < r0.len() {
                    assert(r0[k] < a@[i - 1]);
                }
            }
        }
    }
    assert(a@.subrange(0, a@.len() as int) =~= a@);
    r
}

/// Copies the label lists of `v`.
pub fn copy_label_lists<L: Label>(v: &Vec<Vec<L>>) -> (r: Vec<Vec<L>>)
    ensures
        views(r@) == views(v@),
{
    let mut r: Vec<Vec<L>> = Vec::with_capacity(v.len());
    let mut i: usize = 0;
    while i < v.len()
        invariant
            i <= v@.len(),
            r@.len() == i,
            forall|k: int| 0 <= k < i ==> r@[k]@ == v@[k]@,
        decreases v@.len() - i,
    {
        let c = copy_labels(v[i].as_slice());
        r.push(c);
        i += 1;
    }
    assert(views(r@) =~= views(v@));
    r
}

/// Benchmark bodies that a query selected, awaiting a run.
pub struct Frm<'a, L, F> {
    /// The query's label lists.
    pub lbls: Vec<Vec<L>>,
    /// The selected ops, in the order of selection.
    pub ops: Vec<&'a Op<L, F>>,
}

impl<'a, L: Label, F> Frm<'a, L, F> {
    /// Returns a selection for the query `lbls` that holds no op yet.
    pub fn new(lbls: &Vec<Vec<L>>) -> (r: Self)
        ensures
            views(r.lbls@) == views(lbls@),
            r.ops@.len() == 0,
    {
        Frm { lbls: copy_label_lists(lbls), ops: Vec::new() }
    }
}

/// A section of a set: each insert through it adds the section's labels.
pub struct Sec<'a, L, F> {
    /// The section's labels, ascending and each once.
    pub lbls: Vec<L>,
    /// The set that inserts go to.
    pub set: &'a mut BenSet<L, F>,
}

impl<'a, L: Label, F: Fn() -> u64> Sec<'a, L, F> {
    /// Returns a section with the canonical form of `lbls` over `set`.
    pub fn new(lbls: &[L], set: &'a mut BenSet<L, F>) -> (r: Self)
        ensures
            canonical_of(r.lbls@, lbls@),
            *r.set == *old(set),
            *final(r.set) == *final(set),
    {
        Sec { lbls: unq_srt(lbls), set }
    }

    /// Inserts a benchmark body under the section's labels merged with
    /// `lbls`. Fails with `MissingLabels`, and changes nothing, when both are
    /// empty.
    pub fn ins(&mut self, lbls: &[L], f: F) -> (r: Result<(), BenError<L>>)
        requires
            old(self).set.wf(),
            old(self).set.id < u16::MAX,
            f.requires(()),
        ensures
            final(self).lbls == old(self).lbls,
            old(self).lbls@.len() + lbls@.len() == 0 ==> (r matches Err(BenError::MissingLabels))
                && *final(self).set == *old(self).set,
            old(self).lbls@.len() + lbls@.len() > 0 ==> {
                &&& r is Ok
                &&& final(self).set.wf()
                &&& final(self).set.ops@.len() == old(self).set.ops@.len() + 1
                &&& forall|i: int| 0 <= i < old(self).set.ops@.len() ==> final(self).set.ops@[i] == old(self).set.ops@[i]
                &&& canonical_of(final(self).set.ops@.last().lbls@, old(self).lbls@ + lbls@)
                &&& final(self).set.ops@.last().fnc == f
            },
    {
        let all = mrg_unq_srt(self.lbls.as_slice(), lbls);
        proof {
            if old(self).lbls@.len() + lbls@.len() > 0 {
                let both = old(self).lbls@ + lbls@;
                assert(both.contains(both[0]));
                assert(all@.contains(both[0]));
            } else {
                if all@.len() > 0 {
                    assert(all@.contains(all@[0]));
                    assert((old(self).lbls@ + lbls@) =~= Seq::<L>::empty());
                }
            }
        }
        let r = self.set.ins(all.as_slice(), f);
        proof {
            if all@.len() > 0 {
                let c = self.set.ops@.last().lbls@;
                assert forall|x: L| c.contains(x) <==> (old(self).lbls@ + lbls@).contains(x) by {}
            }
        }
        r
    }
}

/// A set of benchmark bodies, indexed by label.
///
/// Ids are dense and given in insertion order: the op of id `i` is `ops[i]`.
pub struct BenSet<L, F> {
    /// The id the next insert gets.
    pub id: u16,
    /// Label codes mapped to the ascending ids of the ops that carry the label.
    pub ids: HashMap<u64, Vec<u16>>,
    /// The ops, by id.
    pub ops: Vec<Op<L, F>>,
}

impl<L: Label, F: Fn() -> u64> BenSet<L, F> {
    /// The labels of each op, by id.
    pub open spec fn tags(&self) -> Seq<Seq<L>> {
        Seq::new(self.ops@.len(), |i: int| self.ops@[i].lbls@)
    }

    /// The index and the ops agree; every op is canonical and callable.
    pub open spec fn wf(&self) -> bool {
        &&& self.ops@.len() == self.id as nat
        &&& forall|i: int| 0 <= i < self.ops@.len() ==> {
            &&& sorted_strict((#[trigger] self.ops@[i]).lbls@)
            &&& self.ops@[i].lbls@.len() > 0
            &&& self.ops@[i].fnc.requires(())
        }
        &&& forall|k: u64| #[trigger] self.ids@.contains_key(k) ==> {
            &&& ascending(self.ids@[k]@)
            &&& forall|x: u16| #[trigger] self.ids@[k]@.contains(x) <==> (x < self.id && has_code(
                self.tags()[x as int],
                k as int,
            ))
        }
        &&& forall|x: int, j: int|
            0 <= x < self.ops@.len() && 0 <= j < self.ops@[x].lbls@.len() ==> self.ids@.contains_key(
                #[trigger] self.ops@[x].lbls@[j].code() as u64,
            )
        &&& forall|x: int, j: int|
            0 <= x < self.ops@.len() && 0 <= j < self.ops@[x].lbls@.len() ==> 0 <= #[trigger] self.ops@[x].lbls@[j].code() < 0x1_0000_0000_0000_0000
    }

    /// Returns an empty set.
    pub fn new() -> (r: Self)
        ensures
            r.wf(),
            r.id == 0,
            r.ids@ == Map::<u64, Vec<u16>>::empty(),
            r.ops@.len() == 0,
    {
        BenSet { id: 0, ids: HashMap::new(), ops: Vec::new() }
    }

    /// Inserts a benchmark body under the canonical form of `lbls`, with the
    /// next id. Fails with `MissingLabels`, and changes nothing, when `lbls`
    /// is empty.
    pub fn ins(&mut self, lbls: &[L], f: F) -> (r: Result<(), BenError<L>>)
        requires
            old(self).wf(),
            old(self).id < u16::MAX,
            f.requires(()),
        ensures
            lbls@.len() == 0 ==> (r matches Err(BenError::MissingLabels)) && *final(self) == *old(self),
            lbls@.len() > 0 ==> {
                &&& r is Ok
                &&& final(self).wf()
                &&& final(self).id == old(self).id + 1
                &&& final(self).ops@.len() == old(self).ops@.len() + 1
                &&& forall|i: int| 0 <= i < old(self).ops@.len() ==> final(self).ops@[i] == old(self).ops@[i]
                &&& canonical_of(final(self).ops@.last().lbls@, lbls@)
                &&& final(self).ops@.last().fnc == f
            },
    {
        if lbls.len() == 0 {
            return Err(BenError::MissingLabels);
        }
        let ghost f0 = f;
        let id = self.id;
        let op = Op::new(lbls, f);
        let ghost c = op.lbls@;
        let ghost tags0 = self.tags();
        assert(c.len() > 0) by {
            assert(lbls@.contains(lbls@[0]));
            assert(c.contains(lbls@[0]));
        }
        let mut m: usize = 0;
        assert(c.subrange(0, 0) =~= Seq::<L>::empty());
        while m < op.lbls.len()
            invariant
                old(self).wf(),
                forall|x: int, j: int|
                    0 <= x < self.ops@.len() && 0 <= j < self.ops@[x].lbls@.len() ==> self.ids@.contains_key(
                        #[trigger] self.ops@[x].lbls@[j].code() as u64,
                    ),
                self.id == id,
                self.tags() == tags0,
                old(self).ops == self.ops,
                old(self).id == self.id,
                c == op.lbls@,
                sorted_strict(c),
                m <= c.len(),
                forall|j: int| 0 <= j < m ==> 0 <= #[trigger] c[j].code() < 0x1_0000_0000_0000_0000,
                forall|j: int| 0 <= j < m ==> self.ids@.contains_key(#[trigger] c[j].code() as u64),
                forall|k: u64| #[trigger] self.ids@.contains_key(k) ==> {
                    &&& ascending(self.ids@[k]@)
                    &&& forall|x: u16| #[trigger] self.ids@[k]@.contains(x) <==> ((x < id && has_code(
                        tags0[x as int],
                        k as int,
                    )) || (x == id && has_code(c.subrange(0, m as int), k as int)))
                },
            decreases c.len() - m,
        {
            let k = op.lbls[m].key();
            let ghost cm = c.subrange(0, m as int);
            assert(!has_code(cm, k as int)) by {
                if has_code(cm, k as int) {
                    let j = choose|j: int| 0 <= j < cm.len() && cm[j].code() == k as int;
                    assert(c[j].code() < c[m as int].code());
                }
            }
            let ghost before = self.ids@;
            let mut list = match self.ids.remove(&k) {
                Some(v) => v,
                None => Vec::new(),
            };
            proof {
                if before.contains_key(k) {
                    assert(list == before[k]);
                    assert forall|i: int| 0 <= i < list@.len() implies list@[i] < id by {
                        assert(list@.contains(list@[i]));
                    }
                } else {
                    assert(list@.len() == 0);
                }
            }
            list.push(id);
            self.ids.insert(k, list);
            m += 1;
            let ghost cm1 = c.subrange(0, m as int);
            assert forall|kk: int| has_code(cm1, kk) <==> (has_code(cm, kk) || kk == k as int) by {
                if has_code(cm1, kk) {
                    let j = choose|j: int| 0 <= j < cm1.len() && cm1[j].code() == kk;
                    if j < cm.len() {
                        assert(cm[j] == cm1[j]);
                    }
                }
                if has_code(cm, kk) {
                    let j = choose|j: int| 0 <= j < cm.len() && cm[j].code() == kk;
                    assert(cm1[j] == cm[j]);
                }
                if kk == k as int {
                    assert(cm1[m - 1] == c[m - 1]);
                }
            }
            assert forall|kk: u64| #[trigger] self.ids@.contains_key(kk) implies {
                &&& ascending(self.ids@[kk]@)
                &&& forall|x: u16| #[trigger] self.ids@[kk]@.contains(x) <==> ((x < id && has_code(
                    tags0[x as int],
                    kk as int,
                )) || (x == id && has_code(cm1, kk as int)))
            } by {
                if kk == k {
                    let l = self.ids@[kk]@;
                    assert forall|x: u16| #[trigger] l.contains(x) <==> ((x < id && has_code(
                        tags0[x as int],
                        kk as int,
                    )) || (x == id && has_code(cm1, kk as int))) by {
                        if l.contains(x) {
                            let i = choose|i: int| 0 <= i < l.len() && l[i] == x;
                            if i < l.len() - 1 {
                                assert(before[k]@.contains(x) || !before.contains_key(k));
                                if before.contains_key(k) {
                                    assert(before[k]@[i] == x);
                                }
                            }
                        }
                        if x < id && has_code(tags0[x as int], kk as int) {
                            assert(before.contains_key(k)) by {
                                let j = choose|j: int| 0 <= j < tags0[x as int].len() && tags0[x as int][j].code() == kk as int;
                                assert(self.ops@[x as int].lbls@[j].code() == kk as int);
                            }
                            assert(before[k]@.contains(x));
                            let i = choose|i: int| 0 <= i < before[k]@.len() && before[k]@[i] == x;
                            assert(l[i] == x);
                        }
                        if x == id && has_code(cm1, kk as int) {
                            assert(l[l.len() - 1] == x);
                        }
                    }
                } else {
                    assert(before.contains_key(kk));
                    assert(self.ids@[kk] == before[kk]);
                }
            }
            assert forall|x: int, j: int|
                0 <= x < self.ops@.len() && 0 <= j < self.ops@[x].lbls@.len() implies self.ids@.contains_key(
                    #[trigger] self.ops@[x].lbls@[j].code() as u64,
                ) by {
                assert(before.contains_key(self.ops@[x].lbls@[j].code() as u64));
            }
            assert forall|j: int| 0 <= j < m implies self.ids@.contains_key(#[trigger] c[j].code() as u64) by {
                if j < m - 1 {
                    assert(before.contains_key(c[j].code() as u64));
                }
            }
        }
        self.ops.push(op);
        self.id = id + 1;
        assert(c.subrange(0, c.len() as int) =~= c);
        assert(self.tags() =~= tags0.push(c));
        assert forall|x: int, j: int|
            0 <= x < self.ops@.len() && 0 <= j < self.ops@[x].lbls@.len() implies self.ids@.contains_key(
                #[trigger] self.ops@[x].lbls@[j].code() as u64,
            ) by {
            if x < id {
                assert(self.ops@[x] == old(self).ops@[x]);
            }
        }
        assert forall|x: int, j: int|
            0 <= x < self.ops@.len() && 0 <= j < self.ops@[x].lbls@.len() implies 0 <= #[trigger] self.ops@[x].lbls@[j].code() < 0x1_0000_0000_0000_0000 by {
            if x < id {
                assert(self.ops@[x] == old(self).ops@[x]);
            }
        }
        assert forall|k: u64| #[trigger] self.ids@.contains_key(k) implies {
            &&& ascending(self.ids@[k]@)
            &&& forall|x: u16| #[trigger] self.ids@[k]@.contains(x) <==> (x < self.id && has_code(
                self.tags()[x as int],
                k as int,
            ))
        } by {
            assert forall|x: u16| #[trigger] self.ids@[k]@.contains(x) <==> (x < self.id && has_code(
                self.tags()[x as int],
                k as int,
            )) by {
                if x < id {
                    assert(self.tags()[x as int] == tags0[x as int]);
                }
            }
        }
        proof {
            assert(self.ops@[id as int].fnc == f0);
        }
        Ok(())
    }

    /// Returns a section of this set: its inserts add the labels `lbls`.
    pub fn sec(&mut self, lbls: &[L]) -> (r: Sec<'_, L, F>)
        ensures
            canonical_of(r.lbls@, lbls@),
            *r.set == *old(self),
            *final(r.set) == *final(self),
    {
        Sec::new(lbls, self)
    }

    /// The ascending ids of the ops whose labels hold every label of `q`.
    fn match_q(&self, q: &Vec<L>) -> (r: Vec<u16>)
        requires
            self.wf(),
        ensures
            r@ == match_ids(self.tags(), q@, self.tags().len()),
    {
        let ghost n = self.tags().len();
        let ghost expect = match_ids(self.tags(), q@, n);
        proof {
            lemma_match_ids(self.tags(), q@, n);
        }
        if q.len() == 0 {
            proof {
                if expect.len() > 0 {
                    assert(expect.contains(expect[0]));
                }
            }
            assert(expect =~= Seq::<u16>::empty());
            return Vec::new();
        }
        let mut cand: Vec<u16> = Vec::new();
        let mut j: usize = 0;
        while j < q.len()
            invariant
                self.wf(),
                n == self.tags().len(),
                expect == match_ids(self.tags(), q@, n),
                q@.len() > 0,
                j <= q@.len(),
                ascending(cand@),
                j > 0 ==> forall|x: u16| cand@.contains(x) <==> (x < n && holds_all(
                    self.tags()[x as int],
                    q@.subrange(0, j as int),
                )),
            decreases q@.len() - j,
        {
            let l = q[j];
            let k = l.key();
            let ghost pre = q@.subrange(0, j as int);
            let ghost cur = q@.subrange(0, j as int + 1);
            assert forall|x: u16| x < n implies (holds_all(self.tags()[x as int], cur) <==> (holds_all(
                self.tags()[x as int],
                pre,
            ) && self.tags()[x as int].contains(l))) by {
                let t = self.tags()[x as int];
                if holds_all(t, cur) {
                    assert forall|i: int| 0 <= i < pre.len() implies t.contains(pre[i]) by {
                        assert(cur[i] == pre[i]);
                    }
                    assert(cur[j as int] == l);
                }
                if holds_all(t, pre) && t.contains(l) {
                    assert forall|i: int| 0 <= i < cur.len() implies t.contains(cur[i]) by {
                        if i < j {
                            assert(cur[i] == pre[i]);
                        }
                    }
                }
            }
            assert forall|x: u16| x < n implies (self.tags()[x as int].contains(l) <==> has_code(self.tags()[x as int], k as int)) by {
                lemma_has_code(self.tags()[x as int], l);
            }
            match self.ids.get(&k) {
                None => {
                    proof {
                        lemma_match_ids(self.tags(), q@, n);
                    }
                    assert forall|x: u16| !expect.contains(x) by {
                        if expect.contains(x) {
                            assert(x < n && holds_all(self.tags()[x as int], q@));
                            assert(q@[j as int] == l);
                            assert(self.tags()[x as int].contains(q@[j as int]));
                            let jj = choose|jj: int| 0 <= jj < self.tags()[x as int].len() && self.tags()[x as int][jj] == l;
                            assert(self.ops@[x as int].lbls@[jj] == l);
                        }
                    }
                    proof {
                        if expect.len() > 0 {
                            assert(expect.contains(expect[0]));
                        }
                    }
                    assert(expect =~= Seq::<u16>::empty());
                    return Vec::new();
                },
                Some(list) => {
                    if j == 0 {
                        cand = intersect(list, list);
                    } else {
                        cand = intersect(&cand, list);
                    }
                    assert(pre.len() == 0 ==> forall|x: u16| x < n ==> holds_all(self.tags()[x as int], pre));
                },
            }
            j += 1;
        }
        assert(q@.subrange(0, q@.len() as int) =~= q@);
        proof {
            lemma_ascending_unique(cand@, expect);
        }
        cand
    }

    /// Selects the ops that match the query: each inner list is a
    /// conjunction of labels, and the selections of the inner lists are
    /// appended in turn. `None` when nothing is selected.
    pub fn frm(&self, lblss: &Vec<Vec<L>>) -> (r: Option<Frm<'_, L, F>>)
        requires
            self.wf(),
        ensures
            ({
                let ids = frm_ids(self.tags(), views(lblss@));
                &&& (r is None <==> ids.len() == 0)
                &&& (r matches Some(frm) ==> {
                    &&& views(frm.lbls@) == views(lblss@)
                    &&& frm.ops@.len() == ids.len()
                    &&& forall|i: int| 0 <= i < ids.len() ==> *frm.ops@[i] == self.ops@[ids[i] as int]
                })
            }),
    {
        let ghost tags = self.tags();
        let ghost qs = views(lblss@);
        let mut ret = Frm::new(lblss);
        let mut qi: usize = 0;
        assert(qs.subrange(0, 0) =~= Seq::<Seq<L>>::empty());
        while qi < lblss.len()
            invariant
                self.wf(),
                tags == self.tags(),
                qs == views(lblss@),
                qi <= lblss@.len(),
                views(ret.lbls@) == qs,
                ({
                    let ids = frm_ids(tags, qs.subrange(0, qi as int));
                    &&& ret.ops@.len() == ids.len()
                    &&& forall|i: int| 0 <= i < ids.len() ==> *ret.ops@[i] == self.ops@[ids[i] as int]
                }),
            decreases lblss@.len() - qi,
        {
            let ghost before = frm_ids(tags, qs.subrange(0, qi as int));
            let ids = self.match_q(&lblss[qi]);
            proof {
                lemma_match_ids(tags, qs[qi as int], tags.len());
                assert(qs.subrange(0, qi as int + 1).drop_last() =~= qs.subrange(0, qi as int));
                assert(qs.subrange(0, qi as int + 1).last() == qs[qi as int]);
            }
            let mut m: usize = 0;
            while m < ids.len()
                invariant
                    self.wf(),
                    tags == self.tags(),
                    views(ret.lbls@) == qs,
                    m <= ids@.len(),
                    forall|i: int| 0 <= i < ids@.len() ==> ids@[i] < tags.len(),
                    ret.ops@.len() == before.len() + m,
                    forall|i: int| 0 <= i < before.len() ==> *ret.ops@[i] == self.ops@[before[i] as int],
                    forall|i: int| 0 <= i < m ==> *ret.ops@[before.len() + i] == self.ops@[ids@[i] as int],
                decreases ids@.len() - m,
            {
                let id = ids[m];
                ret.ops.push(&self.ops[id as usize]);
                m += 1;
            }
            qi += 1;
            proof {
                let now = frm_ids(tags, qs.subrange(0, qi as int));
                assert(now == before + ids@);
                assert forall|i: int| 0 <= i < now.len() implies *ret.ops@[i] == self.ops@[now[i] as int] by {
                    if i < before.len() {
                        assert(now[i] == before[i]);
                    } else {
                        assert(now[i] == ids@[i - before.len()]);
                    }
                }
            }
        }
        assert(qs.subrange(0, qs.len() as int) =~= qs);
        if ret.ops.len() == 0 {
            None
        } else {
            Some(ret)
        }
    }
}

} // verus!
