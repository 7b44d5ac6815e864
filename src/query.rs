//! A query and the pipeline of stages it drives.

use vstd::prelude::*;
use crate::compare::Cmps;
use crate::error::BenError;
use crate::compare::compared_all;
use crate::group::{Grps, Sers, Grp, Ser, dat_views, group_of, grouped_all, grouped_as, transposed, axis_bad};
use crate::label::{Label, canonical_of, first_of_kind};
use crate::run::{Dat, Run, Sta, ran, measured, reduced, dats_sorted_by};
use crate::set::{BenSet, Op, frm_ids, views, holds_all};

verus! {

/// A query of a benchmark set.
#[derive(Debug)]
pub struct Qry<L> {
    /// Run the benchmarks that one or more label lists select.
    pub frm: Vec<Vec<L>>,
    /// Group the results by one or more label lists. Each list is a group.
    pub grp: Option<Vec<Vec<L>>>,
    /// Sort the results by the label of this label's kind.
    pub srt: Option<L>,
    /// Reduce each benchmark's samples to this statistic.
    pub sta: Option<Sta>,
    /// Transpose the groups to series by this label's kind.
    pub trn: Option<L>,
    /// Compare pairs of series as a ratio of max to min.
    pub cmp: bool,
    /// The number of runs of each benchmark.
    pub itr: u32,
}

/// What a query yields: the product of its last stage.
pub enum Out<L> {
    /// No benchmark matched.
    NoMatch,
    /// The results of the run.
    Run(Run<L>),
    /// The grouped results.
    Grps(Grps<L>),
    /// The transposed series.
    Sers(Sers),
    /// The pairwise comparisons.
    Cmps(Cmps),
}

/// The query asks for a stage without the stage or option it needs: a
/// transpose without groups or a statistic, a comparison without a
/// transpose, or no run at all.
pub open spec fn invalid_query<L>(q: Qry<L>) -> bool {
    ||| q.itr == 0
    ||| (q.trn is Some && (q.grp is None || q.sta is None))
    ||| (q.cmp && q.trn is None)
}

/// The ops that the query's label lists select, in order.
pub open spec fn selected<L: Label, F: Fn() -> u64>(set: BenSet<L, F>, q: Qry<L>) -> Seq<Op<L, F>> {
    let ids = frm_ids(set.tags(), views(q.frm@));
    Seq::new(ids.len(), |i: int| set.ops@[ids[i] as int])
}


broadcast use vstd::seq_lib::group_to_multiset_ensures;

/// Some op of `ops` carries every label of the non-empty list `q`.
pub open spec fn some_holds<L: Label, F>(ops: Seq<Op<L, F>>, q: Seq<L>) -> bool {
    q.len() > 0 && exists|i: int| 0 <= i < ops.len() && holds_all(#[trigger] ops[i].lbls@, q)
}

/// `tags` hold no label of the kind of `trn`.
pub open spec fn lacks_kind<L: Label>(tags: Seq<L>, trn: L) -> bool {
    first_of_kind(tags, trn.kind()) is None
}

/// The label of the kind of `trn` in `tags` has no payload.
pub open spec fn lacks_payload<L: Label>(tags: Seq<L>, trn: L) -> bool {
    match first_of_kind(tags, trn.kind()) {
        Some(x) => x.payload() is None,
        None => false,
    }
}

/// An op of `ops` that the label list `q` selects gives no axis value for `trn`.
pub open spec fn axis_fails<L: Label, F>(ops: Seq<Op<L, F>>, q: Seq<L>, trn: L) -> bool {
    q.len() > 0 && exists|i: int|
        0 <= i < ops.len() && holds_all(#[trigger] ops[i].lbls@, q) && (lacks_kind(ops[i].lbls@, trn)
            || lacks_payload(ops[i].lbls@, trn))
}

/// Every label list of `qs` selects some op.
pub open spec fn groups_hold<L: Label, F>(ops: Seq<Op<L, F>>, qs: Seq<Seq<L>>) -> bool {
    forall|g: int| 0 <= g < qs.len() ==> some_holds(ops, #[trigger] qs[g])
}

/// `qs[g]` is the first label list of `qs` that selects no op.
pub open spec fn first_empty_group<L: Label, F>(ops: Seq<Op<L, F>>, qs: Seq<Seq<L>>, g: int) -> bool {
    &&& 0 <= g < qs.len()
    &&& !some_holds(ops, qs[g])
    &&& forall|h: int| 0 <= h < g ==> some_holds(ops, #[trigger] qs[h])
}

/// Each result has `vlen` values and the labels of an op, and each op's
/// labels are those of a result.
pub open spec fn mirrors<L: Label, F>(res: Seq<Dat<L>>, ops: Seq<Op<L, F>>, vlen: nat) -> bool {
    &&& forall|a: int| 0 <= a < res.len() ==> (#[trigger] res[a]).vals@.len() == vlen
    &&& forall|a: int| 0 <= a < res.len() ==> op_labelled(ops, (#[trigger] res[a]).lbls@)
    &&& forall|i: int| 0 <= i < ops.len() ==> result_labelled(res, (#[trigger] ops[i]).lbls@)
}

/// Some op of `ops` has the labels `t`.
pub open spec fn op_labelled<L, F>(ops: Seq<Op<L, F>>, t: Seq<L>) -> bool {
    exists|i: int| 0 <= i < ops.len() && ops[i].lbls@ == t
}

/// Some result of `res` has the labels `t`.
pub open spec fn result_labelled<L>(res: Seq<Dat<L>>, t: Seq<L>) -> bool {
    exists|a: int| 0 <= a < res.len() && res[a].lbls@ == t
}

proof fn lemma_ran_mirrors<L: Label, F: Fn() -> u64>(
    res: Seq<Dat<L>>,
    ops: Seq<Op<L, F>>,
    itr: nat,
    ov: u64,
    srt: Option<L>,
    sel: Option<Sta>,
)
    requires
        ran(res, ops, itr, ov, srt, sel),
    ensures
        mirrors(res, ops, if sel is None { itr } else { 1 }),
{
    let vlen: nat = if sel is None { itr } else { 1 };
    let u = choose|u: Seq<Dat<L>>| {
        &&& u.len() == ops.len()
        &&& forall|i: int| 0 <= i < u.len() ==> measured(#[trigger] u[i], ops[i], itr, ov, sel)
        &&& match srt {
            None => res == u,
            Some(l) => dats_sorted_by(res, u, l),
        }
    };
    assert forall|i: int| 0 <= i < u.len() implies (#[trigger] u[i]).vals@.len() == vlen && u[i].lbls@ == ops[i].lbls@ by {
        assert(measured(u[i], ops[i], itr, ov, sel));
        let raw = choose|raw: Seq<u64>| {
            &&& raw.len() == itr
            &&& forall|k: int| 0 <= k < itr ==> crate::run::is_sample(ops[i].fnc, #[trigger] raw[k], ov)
            &&& u[i].vals@ == reduced(raw, sel)
        };
    }
    assert(res.to_multiset() == u.to_multiset());
    assert forall|a: int| 0 <= a < res.len() implies (#[trigger] res[a]).vals@.len() == vlen && exists|i: int| 0 <= i < ops.len() && res[a].lbls@ == ops[i].lbls@ by {
        assert(res.contains(res[a]));
        assert(res.to_multiset().count(res[a]) > 0);
        assert(u.contains(res[a]));
        let i = choose|i: int| 0 <= i < u.len() && u[i] == res[a];
        assert(u[i].vals@.len() == vlen);
    }
    assert forall|a: int| 0 <= a < res.len() implies op_labelled(ops, (#[trigger] res[a]).lbls@) by {
        assert(res.contains(res[a]));
        assert(res.to_multiset().count(res[a]) > 0);
        assert(u.contains(res[a]));
        let i = choose|i: int| 0 <= i < u.len() && u[i] == res[a];
        assert(u[i].lbls@ == ops[i].lbls@);
    }
    assert forall|i: int| 0 <= i < ops.len() implies result_labelled(res, (#[trigger] ops[i]).lbls@) by {
        assert(u[i].lbls@ == ops[i].lbls@);
        assert(u.contains(u[i]));
        assert(u.to_multiset().count(u[i]) > 0);
        assert(res.contains(u[i]));
        let a = choose|a: int| 0 <= a < res.len() && res[a] == u[i];
    }
}

proof fn lemma_group_of_contains<L: Label>(s: Seq<(Seq<L>, Seq<u64>)>, q: Seq<L>)
    ensures
        forall|x: (Seq<L>, Seq<u64>)| #[trigger] group_of(s, q).contains(x) <==> (s.contains(x) && q.len() > 0 && holds_all(x.0, q)),
    decreases s.len(),
{
    if s.len() > 0 {
        lemma_group_of_contains(s.drop_last(), q);
        assert(s =~= s.drop_last().push(s.last()));
        assert forall|x: (Seq<L>, Seq<u64>)| #[trigger] group_of(s, q).contains(x) <==> (s.contains(x) && q.len() > 0 && holds_all(x.0, q)) by {
            let p = group_of(s.drop_last(), q);
            if s.contains(x) {
                let k = choose|k: int| 0 <= k < s.len() && s[k] == x;
                if k < s.len() - 1 {
                    assert(s.drop_last()[k] == x);
                }
            }
            if s.drop_last().contains(x) {
                let k = choose|k: int| 0 <= k < s.drop_last().len() && s.drop_last()[k] == x;
                assert(s[k] == x);
            }
            if q.len() > 0 && holds_all(s.last().0, q) {
                assert(group_of(s, q) == p.push(s.last()));
                if group_of(s, q).contains(x) {
                    let k = choose|k: int| 0 <= k < group_of(s, q).len() && group_of(s, q)[k] == x;
                    if k < p.len() {
                        assert(p[k] == x);
                    }
                }
                if p.contains(x) {
                    let k = choose|k: int| 0 <= k < p.len() && p[k] == x;
                    assert(group_of(s, q)[k] == x);
                }
                assert(group_of(s, q)[p.len() as int] == s.last());
            }
        }
    }
}

/// A grouped result has the labels of an op that the group's list selects,
/// and `vlen` values.
proof fn lemma_grouped_dat<L: Label, F>(grp: Grp<L>, res: Seq<Dat<L>>, ops: Seq<Op<L, F>>, q: Seq<L>, srt: Option<L>, vlen: nat, k: int)
    requires
        grouped_as(grp, dat_views(res), q, srt),
        mirrors(res, ops, vlen),
        0 <= k < grp.dats@.len(),
    ensures
        q.len() > 0,
        grp.dats@[k].vals@.len() == vlen,
        exists|i: int| 0 <= i < ops.len() && ops[i].lbls@ == grp.dats@[k].lbls@ && holds_all(ops[i].lbls@, q),
{
    let all = dat_views(res);
    let x = (grp.dats@[k].lbls@, grp.dats@[k].vals@);
    match srt {
        None => {
            assert(dat_views(grp.dats@)[k] == x);
        },
        Some(l) => {
            let u = choose|u: Seq<Dat<L>>| dat_views(u) == group_of(all, q) && dats_sorted_by(grp.dats@, u, l);
            assert(grp.dats@.contains(grp.dats@[k]));
            assert(grp.dats@.to_multiset().count(grp.dats@[k]) > 0);
            assert(u.contains(grp.dats@[k]));
            let j = choose|j: int| 0 <= j < u.len() && u[j] == grp.dats@[k];
            assert(dat_views(u)[j] == x);
        },
    }
    assert(group_of(all, q).contains(x));
    lemma_group_of_contains(all, q);
    let a = choose|a: int| 0 <= a < all.len() && all[a] == x;
    assert(res[a].lbls@ == x.0 && res[a].vals@ == x.1);
    assert(op_labelled(ops, res[a].lbls@));
    let i = choose|i: int| 0 <= i < ops.len() && ops[i].lbls@ == res[a].lbls@;
}

/// An op that a group's list selects has its labels in a grouped result.
proof fn lemma_op_grouped<L: Label, F>(grp: Grp<L>, res: Seq<Dat<L>>, ops: Seq<Op<L, F>>, q: Seq<L>, srt: Option<L>, vlen: nat, i: int)
    requires
        grouped_as(grp, dat_views(res), q, srt),
        mirrors(res, ops, vlen),
        0 <= i < ops.len(),
        q.len() > 0,
        holds_all(ops[i].lbls@, q),
    ensures
        exists|k: int| 0 <= k < grp.dats@.len() && grp.dats@[k].lbls@ == ops[i].lbls@,
{
    let all = dat_views(res);
    assert(result_labelled(res, ops[i].lbls@));
    let a = choose|a: int| 0 <= a < res.len() && res[a].lbls@ == ops[i].lbls@;
    assert(all[a] == (res[a].lbls@, res[a].vals@));
    assert(all.contains(all[a]));
    lemma_group_of_contains(all, q);
    assert(group_of(all, q).contains(all[a]));
    let j = choose|j: int| 0 <= j < group_of(all, q).len() && group_of(all, q)[j] == all[a];
    match srt {
        None => {
            assert(dat_views(grp.dats@)[j] == all[a]);
            assert(grp.dats@[j].lbls@ == ops[i].lbls@);
        },
        Some(l) => {
            let u = choose|u: Seq<Dat<L>>| dat_views(u) == group_of(all, q) && dats_sorted_by(grp.dats@, u, l);
            assert(u.contains(u[j]));
            assert(u.to_multiset().count(u[j]) > 0);
            assert(grp.dats@.contains(u[j]));
            let k = choose|k: int| 0 <= k < grp.dats@.len() && grp.dats@[k] == u[j];
            assert(dat_views(u)[j] == all[a]);
            assert(grp.dats@[k].lbls@ == ops[i].lbls@);
        },
    }
}

/// A group is non-empty exactly when some op carries all its labels.
proof fn lemma_group_nonempty<L: Label, F>(res: Seq<Dat<L>>, ops: Seq<Op<L, F>>, q: Seq<L>, vlen: nat)
    requires
        mirrors(res, ops, vlen),
    ensures
        group_of(dat_views(res), q).len() > 0 <==> some_holds(ops, q),
{
    let all = dat_views(res);
    lemma_group_of_contains(all, q);
    let gq = group_of(all, q);
    if gq.len() > 0 {
        assert(gq.contains(gq[0]));
        let a = choose|a: int| 0 <= a < all.len() && all[a] == gq[0];
        assert(res[a].lbls@ == gq[0].0);
        assert(op_labelled(ops, res[a].lbls@));
        let i = choose|i: int| 0 <= i < ops.len() && ops[i].lbls@ == res[a].lbls@;
        assert(holds_all(ops[i].lbls@, q));
    }
    if some_holds(ops, q) {
        let i = choose|i: int| 0 <= i < ops.len() && holds_all(#[trigger] ops[i].lbls@, q);
        assert(result_labelled(res, ops[i].lbls@));
        let a = choose|a: int| 0 <= a < res.len() && res[a].lbls@ == ops[i].lbls@;
        assert(all[a] == (res[a].lbls@, res[a].vals@));
        assert(all.contains(all[a]));
        assert(gq.contains(all[a]));
    }
}

impl<L: Label, F: Fn() -> u64> BenSet<L, F> {
    /// Runs a query: selects, runs, and then groups, transposes and
    /// compares as far as the query asks, and returns what the last stage
    /// made. `overhead` is subtracted from every sample.
    pub fn qry(&self, qry: &Qry<L>, overhead: u64) -> (r: Result<Out<L>, BenError<L>>)
        requires
            self.wf(),
        ensures
            invalid_query(*qry) <==> (r matches Err(BenError::InvalidQuery)),
            !invalid_query(*qry) ==> (frm_ids(self.tags(), views(qry.frm@)).len() == 0 <==> (r matches Ok(Out::NoMatch))),
            r matches Ok(out) ==> ({
                let ops = selected(*self, *qry);
                let itr = qry.itr as nat;
                match out {
                    Out::NoMatch => true,
                    Out::Run(run) => qry.grp is None && ran(run.res@, ops, itr, overhead, qry.srt, qry.sta),
                    Out::Grps(grps) => qry.grp is Some && qry.trn is None && exists|res: Seq<Dat<L>>| {
                        &&& ran(res, ops, itr, overhead, qry.srt, qry.sta)
                        &&& grouped_all(grps.0@, res, views(qry.grp->0@), qry.srt)
                    },
                    Out::Sers(sers) => qry.grp is Some && qry.trn is Some && !qry.cmp && exists|res: Seq<Dat<L>>, gs: Seq<Grp<L>>| {
                        &&& ran(res, ops, itr, overhead, qry.srt, qry.sta)
                        &&& grouped_all(gs, res, views(qry.grp->0@), qry.srt)
                        &&& transposed(sers.0@, gs, qry.trn->0)
                    },
                    Out::Cmps(cmps) => qry.grp is Some && qry.trn is Some && qry.cmp && exists|res: Seq<Dat<L>>, gs: Seq<Grp<L>>, ss: Seq<Ser>| {
                        &&& ran(res, ops, itr, overhead, qry.srt, qry.sta)
                        &&& grouped_all(gs, res, views(qry.grp->0@), qry.srt)
                        &&& transposed(ss, gs, qry.trn->0)
                        &&& compared_all(cmps.0@, ss)
                    },
                }
            }),
            ({
                let ops = selected(*self, *qry);
                let qs = views(qry.grp->0@);
                let reached = !invalid_query(*qry) && ops.len() > 0 && qry.grp is Some;
                let axis = qs.len() > 0 && axis_fails(ops, qs[0], qry.trn->0);
                &&& (r is Ok <==> !invalid_query(*qry) && (ops.len() == 0 || qry.grp is None || (groups_hold(ops, qs)
                    && (qry.trn is None || (!axis && (!qry.cmp || qs.len() >= 2))))))
                &&& ((r matches Err(BenError::EmptyGroup(_))) <==> reached && !groups_hold(ops, qs))
                &&& (r matches Err(BenError::EmptyGroup(v)) ==> exists|g: int| first_empty_group(ops, qs, g) && v@ == qs[g])
                &&& ((r matches Err(BenError::MissingTransposeLabel(_))) || (r matches Err(BenError::UnknownLabelKind(_)))
                    <==> reached && groups_hold(ops, qs) && qry.trn is Some && axis)
                &&& (r matches Err(BenError::MissingTransposeLabel(v)) ==> canonical_of(v@, qs[0]) && exists|i: int|
                    0 <= i < ops.len() && holds_all(#[trigger] ops[i].lbls@, qs[0]) && lacks_kind(ops[i].lbls@, qry.trn->0))
                &&& (r matches Err(BenError::UnknownLabelKind(x)) ==> x == qry.trn->0 && exists|i: int|
                    0 <= i < ops.len() && holds_all(#[trigger] ops[i].lbls@, qs[0]) && lacks_payload(ops[i].lbls@, qry.trn->0))
                &&& ((r matches Err(BenError::InsufficientSeries)) <==> reached && groups_hold(ops, qs) && qry.trn is Some
                    && !axis && qry.cmp && qs.len() < 2)
                &&& !(r matches Err(BenError::WrongRowCount { .. }))
                &&& !(r matches Err(BenError::MissingLabels))
            }),
    {
        if qry.itr == 0 || (qry.trn.is_some() && (qry.grp.is_none() || qry.sta.is_none())) || (qry.cmp
            && qry.trn.is_none()) {
            return Err(BenError::InvalidQuery);
        }
        let frm = match self.frm(&qry.frm) {
            None => {
                return Ok(Out::NoMatch);
            },
            Some(frm) => frm,
        };
        proof {
            let ids = frm_ids(self.tags(), views(qry.frm@));
            crate::set::lemma_frm_ids_bounded(self.tags(), views(qry.frm@));
            assert forall|i: int| 0 <= i < frm.ops@.len() implies (#[trigger] frm.ops@[i]).fnc.requires(()) by {
                assert(*frm.ops@[i] == self.ops@[ids[i] as int]);
                assert(self.ops@[ids[i] as int].fnc.requires(()));
            }
        }
        let run = frm.run(qry.itr, &qry.srt, &qry.sta, overhead);
        assert(crate::run::deref_ops(frm.ops@) =~= selected(*self, *qry));
        let lblss = match &qry.grp {
            None => {
                return Ok(Out::Run(run));
            },
            Some(lblss) => lblss,
        };
        let ghost ops = selected(*self, *qry);
        let ghost qs = views(lblss@);
        let ghost vlen: nat = if qry.sta is None { qry.itr as nat } else { 1 };
        proof {
            assert(ran(run.res@, ops, qry.itr as nat, overhead, qry.srt, qry.sta));
            lemma_ran_mirrors(run.res@, ops, qry.itr as nat, overhead, qry.srt, qry.sta);
            assert forall|g: int| 0 <= g < qs.len() implies (group_of(dat_views(run.res@), #[trigger] qs[g]).len() > 0
                <==> some_holds(ops, qs[g])) by {
                lemma_group_nonempty(run.res@, ops, qs[g], vlen);
            }
        }
        let grps = match run.grp(lblss, &qry.srt) {
            Err(e) => {
                proof {
                    let g = choose|g: int| {
                        &&& 0 <= g < qs.len()
                        &&& group_of(dat_views(run.res@), #[trigger] qs[g]).len() == 0
                        &&& forall|h: int| 0 <= h < g ==> group_of(dat_views(run.res@), #[trigger] qs[h]).len() > 0
                        &&& e matches BenError::EmptyGroup(v) && v@ == qs[g]
                    };
                    assert(first_empty_group(ops, qs, g));
                }
                return Err(e);
            },
            Ok(grps) => grps,
        };
        proof {
            assert(groups_hold(ops, qs));
            assert forall|g: int, k: int| 0 <= g < grps.0@.len() && 0 <= k < grps.0@[g].dats@.len()
                implies (#[trigger] grps.0@[g].dats@[k]).vals@.len() == vlen && qs[g].len() > 0 && exists|i: int| 0 <= i < ops.len()
                    && ops[i].lbls@ == grps.0@[g].dats@[k].lbls@ && holds_all(ops[i].lbls@, qs[g]) by {
                assert(grouped_as(grps.0@[g], dat_views(run.res@), qs[g], qry.srt));
                lemma_grouped_dat(grps.0@[g], run.res@, ops, qs[g], qry.srt, vlen, k);
            }
        }
        let trn = match qry.trn {
            None => {
                return Ok(Out::Grps(grps));
            },
            Some(trn) => trn,
        };
        let ghost gs = grps.0@;
        proof {
            if qs.len() > 0 {
                assert(grouped_as(gs[0], dat_views(run.res@), qs[0], qry.srt));
                if axis_fails(ops, qs[0], trn) {
                    let i = choose|i: int| 0 <= i < ops.len() && holds_all(#[trigger] ops[i].lbls@, qs[0]) && (lacks_kind(
                        ops[i].lbls@,
                        trn,
                    ) || lacks_payload(ops[i].lbls@, trn));
                    lemma_op_grouped(gs[0], run.res@, ops, qs[0], qry.srt, vlen, i);
                    let k = choose|k: int| 0 <= k < gs[0].dats@.len() && gs[0].dats@[k].lbls@ == ops[i].lbls@;
                    assert(axis_bad(gs[0].dats@[k], trn));
                }
                if exists|k: int| 0 <= k < gs[0].dats@.len() && axis_bad(#[trigger] gs[0].dats@[k], trn) {
                    let k = choose|k: int| 0 <= k < gs[0].dats@.len() && axis_bad(#[trigger] gs[0].dats@[k], trn);
                    assert(gs[0].dats@[k].vals@.len() == vlen);
                    let i = choose|i: int| 0 <= i < ops.len() && ops[i].lbls@ == gs[0].dats@[k].lbls@ && holds_all(ops[i].lbls@, qs[0]);
                    assert(holds_all(ops[i].lbls@, qs[0]));
                }
            }
            assert(!exists|g: int, k: int| 0 <= g < gs.len() && 0 <= k < gs[g].dats@.len() && crate::group::row_bad(#[trigger] gs[g].dats@[k]));
        }
        let sers = match grps.ser(trn) {
            Err(e) => {
                proof {
                    let k = choose|k: int| {
                        &&& 0 <= k < gs[0].dats@.len()
                        &&& axis_bad(#[trigger] gs[0].dats@[k], trn)
                        &&& forall|j: int| 0 <= j < k ==> !axis_bad(#[trigger] gs[0].dats@[j], trn)
                        &&& crate::group::axis_error(gs[0].dats@[k], trn, gs[0].lbls@, e)
                    };
                    assert(gs[0].dats@[k].vals@.len() == vlen);
                    let i = choose|i: int| 0 <= i < ops.len() && ops[i].lbls@ == gs[0].dats@[k].lbls@ && holds_all(ops[i].lbls@, qs[0]);
                    assert(holds_all(ops[i].lbls@, qs[0]));
                    assert(grouped_as(gs[0], dat_views(run.res@), qs[0], qry.srt));
                }
                return Err(e);
            },
            Ok(sers) => sers,
        };
        if !qry.cmp {
            assert(transposed(sers.0@, grps.0@, trn));
            return Ok(Out::Sers(sers));
        }
        match sers.cmp() {
            Err(e) => Err(e),
            Ok(cmps) => {
                assert(transposed(sers.0@, grps.0@, trn));
                assert(compared_all(cmps.0@, sers.0@));
                Ok(Out::Cmps(cmps))
            },
        }
    }
}

} // verus!
