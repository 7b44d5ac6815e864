//! Grouping results by label lists, and transposing groups to series.

use vstd::prelude::*;
use crate::error::BenError;
use crate::label::{Label, canonical_of, copy_labels, same, unq_srt, first_of_kind, without_kind, find, clone_except};
use crate::text::{join, joined};
use crate::run::{Dat, Run, copy_vals, dats_sorted_by, sort_dats};
use crate::set::{holds_all, views};

verus! {

/// What a result holds: its labels and its values.
pub open spec fn dat_views<L>(s: Seq<Dat<L>>) -> Seq<(Seq<L>, Seq<u64>)> {
    Seq::new(s.len(), |i: int| (s[i].lbls@, s[i].vals@))
}

/// The results among `s`, in order, whose labels hold every label of the
/// non-empty conjunction `g`.
pub open spec fn group_of<L: Label>(s: Seq<(Seq<L>, Seq<u64>)>, g: Seq<L>) -> Seq<(Seq<L>, Seq<u64>)>
    decreases s.len(),
{
    if s.len() == 0 {
        Seq::empty()
    } else {
        let prev = group_of(s.drop_last(), g);
        if g.len() > 0 && holds_all(s.last().0, g) {
            prev.push(s.last())
        } else {
            prev
        }
    }
}

/// `grp` is the group of the results `all` for the labels `g`: canonical
/// labels, and the selected results, sorted stably by the kind of `srt`.
pub open spec fn grouped_as<L: Label>(grp: Grp<L>, all: Seq<(Seq<L>, Seq<u64>)>, g: Seq<L>, srt: Option<L>) -> bool {
    &&& canonical_of(grp.lbls@, g)
    &&& match srt {
        None => dat_views(grp.dats@) == group_of(all, g),
        Some(l) => exists|u: Seq<Dat<L>>| dat_views(u) == group_of(all, g) && dats_sorted_by(grp.dats@, u, l),
    }
}

/// `grps` are the groups of the results `res` for the label lists `qs`.
pub open spec fn grouped_all<L: Label>(grps: Seq<Grp<L>>, res: Seq<Dat<L>>, qs: Seq<Seq<L>>, srt: Option<L>) -> bool {
    &&& grps.len() == qs.len()
    &&& forall|g: int| 0 <= g < qs.len() ==> grouped_as(#[trigger] grps[g], dat_views(res), qs[g], srt)
}

/// A group of benchmark results.
#[derive(Debug)]
pub struct Grp<L> {
    /// Labels of the group, ascending and each once.
    pub lbls: Vec<L>,
    /// Its results.
    pub dats: Vec<Dat<L>>,
}

impl<L: Label> Grp<L> {
    /// Returns a group with the canonical form of `lbls` and the results `dats`.
    pub fn new(lbls: &[L], dats: Vec<Dat<L>>) -> (r: Self)
        ensures
            canonical_of(r.lbls@, lbls@),
            r.dats == dats,
    {
        Grp { lbls: unq_srt(lbls), dats }
    }
}

/// A list of groups of benchmark results.
#[derive(Debug)]
pub struct Grps<L>(pub Vec<Grp<L>>);

/// Whether `tags` holds `l`.
fn has_label<L: Label>(tags: &Vec<L>, l: &L) -> (r: bool)
    ensures
        r == tags@.contains(*l),
{
    let mut i: usize = 0;
    while i < tags.len()
        invariant
            i <= tags@.len(),
            forall|j: int| 0 <= j < i ==> tags@[j] != *l,
        decreases tags@.len() - i,
    {
        if same(&tags[i], l) {
            return true;
        }
        i += 1;
    }
    false
}

/// Whether `tags` holds every label of `q`.
pub fn holds_every<L: Label>(tags: &Vec<L>, q: &Vec<L>) -> (r: bool)
    ensures
        r == holds_all(tags@, q@),
{
    let mut j: usize = 0;
    while j < q.len()
        invariant
            j <= q@.len(),
            forall|i: int| 0 <= i < j ==> tags@.contains(q@[i]),
        decreases q@.len() - j,
    {
        if !has_label(tags, &q[j]) {
            return false;
        }
        j += 1;
    }
    true
}

/// Returns a copy of a result.
pub fn copy_dat<L: Label>(d: &Dat<L>) -> (r: Dat<L>)
    ensures
        r.lbls@ == d.lbls@,
        r.vals@ == d.vals@,
{
    Dat { lbls: copy_labels(d.lbls.as_slice()), vals: copy_vals(&d.vals) }
}

impl<L: Label> Run<L> {
    /// The results of the run whose labels hold every label of `g`, in order.
    fn select(&self, g: &Vec<L>) -> (r: Vec<Dat<L>>)
        ensures
            dat_views(r@) == group_of(dat_views(self.res@), g@),
    {
        let ghost all = dat_views(self.res@);
        let mut r: Vec<Dat<L>> = Vec::new();
        let mut i: usize = 0;
        assert(all.subrange(0, 0) =~= Seq::<(Seq<L>, Seq<u64>)>::empty());
        assert(dat_views(r@) =~= Seq::<(Seq<L>, Seq<u64>)>::empty());
        while i < self.res.len()
            invariant
                all == dat_views(self.res@),
                i <= self.res@.len(),
                dat_views(r@) == group_of(all.subrange(0, i as int), g@),
            decreases self.res@.len() - i,
        {
            let ghost before = dat_views(r@);
            let keep = g.len() > 0 && holds_every(&self.res[i].lbls, g);
            if keep {
                r.push(copy_dat(&self.res[i]));
                assert(dat_views(r@) =~= before.push(all[i as int]));
            }
            i += 1;
            assert(all.subrange(0, i as int).drop_last() =~= all.subrange(0, i as int - 1));
        }
        assert(all.subrange(0, all.len() as int) =~= all);
        r
    }

    /// Groups the results: each list of `grp_lblss` is a conjunction of
    /// labels, and its group holds the results that carry them all, in run
    /// order, sorted stably by the label of the kind of `srt` if given. Fails
    /// with `EmptyGroup` on the first list that selects nothing.
    pub fn grp(&self, grp_lblss: &Vec<Vec<L>>, srt: &Option<L>) -> (r: Result<Grps<L>, BenError<L>>)
        ensures
            ({
                let all = dat_views(self.res@);
                let qs = views(grp_lblss@);
                &&& (r is Ok <==> forall|g: int| 0 <= g < qs.len() ==> group_of(all, #[trigger] qs[g]).len() > 0)
                &&& (r matches Err(e) ==> exists|g: int| {
                    &&& 0 <= g < qs.len()
                    &&& group_of(all, #[trigger] qs[g]).len() == 0
                    &&& forall|h: int| 0 <= h < g ==> group_of(all, #[trigger] qs[h]).len() > 0
                    &&& e matches BenError::EmptyGroup(v) && v@ == qs[g]
                })
                &&& (r matches Ok(grps) ==> grouped_all(grps.0@, self.res@, qs, *srt))
            }),
    {
        let ghost all = dat_views(self.res@);
        let ghost qs = views(grp_lblss@);
        let mut ret: Vec<Grp<L>> = Vec::with_capacity(grp_lblss.len());
        let mut gi: usize = 0;
        while gi < grp_lblss.len()
            invariant
                all == dat_views(self.res@),
                qs == views(grp_lblss@),
                gi <= qs.len(),
                ret@.len() == gi,
                forall|h: int| 0 <= h < gi ==> group_of(all, #[trigger] qs[h]).len() > 0,
                forall|g: int| 0 <= g < gi ==> grouped_as(#[trigger] ret@[g], all, qs[g], *srt),
            decreases qs.len() - gi,
        {
            let g = &grp_lblss[gi];
            let mut dats = self.select(g);
            assert(qs[gi as int] == g@);
            if dats.len() == 0 {
                assert(group_of(all, qs[gi as int]).len() == 0);
                return Err(BenError::EmptyGroup(copy_labels(g.as_slice())));
            }
            let ghost u = dats@;
            match srt {
                None => {},
                Some(l) => {
                    let lab: L = *l;
                    sort_dats(&mut dats, lab);
                },
            }
            let ghost sorted = dats@;
            let grp = Grp::new(g.as_slice(), dats);
            let ghost gv = grp;
            assert(gv.dats@ == sorted);
            assert(canonical_of(gv.lbls@, qs[gi as int]));
            proof {
                match *srt {
                    None => {
                        assert(dat_views(gv.dats@) == group_of(all, qs[gi as int]));
                    },
                    Some(l) => {
                        assert(dat_views(u) == group_of(all, qs[gi as int]) && dats_sorted_by(gv.dats@, u, l));
                    },
                }
                assert(grouped_as(gv, all, qs[gi as int], *srt));
            }
            let ghost r0 = ret@;
            ret.push(grp);
            proof {
                assert(ret@[gi as int] == gv);
                assert forall|g: int| 0 <= g < gi + 1 implies grouped_as(#[trigger] ret@[g], all, qs[g], *srt) by {
                    if g < gi {
                        assert(ret@[g] == r0[g]);
                    }
                }
            }
            gi += 1;
        }
        Ok(Grps(ret))
    }
}

/// A named series of values.
#[derive(Debug)]
pub struct Ser {
    /// Name of the series.
    pub name: String,
    /// Values of the series.
    pub vals: Vec<u64>,
}

impl Ser {
    /// Returns a series.
    pub fn new(name: String, vals: Vec<u64>) -> (r: Self)
        ensures
            r.name == name,
            r.vals == vals,
    {
        Ser { name, vals }
    }
}

/// Series: the first is the axis, the others are data series.
#[derive(Debug)]
pub struct Sers(pub Vec<Ser>);

/// A result lacks a label of the kind of `trn`, or that label has no payload.
pub open spec fn axis_bad<L: Label>(d: Dat<L>, trn: L) -> bool {
    match first_of_kind(d.lbls@, trn.kind()) {
        None => true,
        Some(x) => x.payload() is None,
    }
}

/// The payload of a result's label of the kind of `trn`.
pub open spec fn axis_val<L: Label>(d: Dat<L>, trn: L) -> u64 {
    match first_of_kind(d.lbls@, trn.kind()) {
        Some(x) => match x.payload() {
            Some(v) => v as u64,
            None => 0,
        },
        None => 0,
    }
}

/// `e` reports that the result `d` of the group labelled `grp_lbls` gives
/// no axis value for `trn`.
pub open spec fn axis_error<L: Label>(d: Dat<L>, trn: L, grp_lbls: Seq<L>, e: BenError<L>) -> bool {
    match first_of_kind(d.lbls@, trn.kind()) {
        None => e matches BenError::MissingTransposeLabel(v) && v@ == grp_lbls,
        Some(_) => e matches BenError::UnknownLabelKind(t) && t == trn,
    }
}

/// A result holds other than one value.
pub open spec fn row_bad<L>(d: Dat<L>) -> bool {
    d.vals@.len() != 1
}

/// `e` reports the number of values of `d`.
pub open spec fn row_error<L>(d: Dat<L>, e: BenError<L>) -> bool {
    e matches BenError::WrongRowCount { expected, actual } && expected == 1 && actual == d.vals@.len()
}

/// The name of a group's data series: the group's labels without the
/// label of the kind of `trn`, joined by commas.
pub open spec fn series_name<L: Label>(grp: Grp<L>, trn: L) -> Seq<char> {
    joined(without_kind(grp.lbls@, trn.kind()), ',')
}

/// Returns the axis values of a group's results for `trn`.
fn axis<L: Label>(grp: &Grp<L>, trn: L) -> (r: Result<Vec<u64>, BenError<L>>)
    ensures
        r is Ok <==> forall|i: int| 0 <= i < grp.dats@.len() ==> !axis_bad(#[trigger] grp.dats@[i], trn),
        r matches Ok(v) ==> v@.len() == grp.dats@.len() && forall|i: int| 0 <= i < v@.len() ==> v@[i] == axis_val(#[trigger] grp.dats@[i], trn),
        r matches Err(e) ==> exists|i: int| {
            &&& 0 <= i < grp.dats@.len()
            &&& axis_bad(#[trigger] grp.dats@[i], trn)
            &&& forall|j: int| 0 <= j < i ==> !axis_bad(#[trigger] grp.dats@[j], trn)
            &&& axis_error(grp.dats@[i], trn, grp.lbls@, e)
        },
{
    let mut v: Vec<u64> = Vec::with_capacity(grp.dats.len());
    let mut i: usize = 0;
    while i < grp.dats.len()
        invariant
            i <= grp.dats@.len(),
            v@.len() == i,
            forall|j: int| 0 <= j < i ==> !axis_bad(#[trigger] grp.dats@[j], trn),
            forall|j: int| 0 <= j < i ==> v@[j] == axis_val(#[trigger] grp.dats@[j], trn),
        decreases grp.dats@.len() - i,
    {
        let d = &grp.dats[i];
        match find(d.lbls.as_slice(), trn) {
            None => {
                let e = BenError::MissingTransposeLabel(copy_labels(grp.lbls.as_slice()));
                assert(axis_error(grp.dats@[i as int], trn, grp.lbls@, e));
                return Err(e);
            },
            Some(lbl) => match lbl.val() {
                None => {
                    let e = BenError::UnknownLabelKind(trn);
                    assert(axis_error(grp.dats@[i as int], trn, grp.lbls@, e));
                    return Err(e);
                },
                Some(x) => {
                    v.push(x as u64);
                },
            },
        }
        i += 1;
    }
    Ok(v)
}

/// Returns the one value of each result, in order.
fn column<L: Label>(dats: &Vec<Dat<L>>) -> (r: Result<Vec<u64>, BenError<L>>)
    ensures
        r is Ok <==> forall|i: int| 0 <= i < dats@.len() ==> !row_bad(#[trigger] dats@[i]),
        r matches Ok(v) ==> v@.len() == dats@.len() && forall|i: int| 0 <= i < v@.len() ==> v@[i] == (#[trigger] dats@[i]).vals@[0],
        r matches Err(e) ==> exists|i: int| {
            &&& 0 <= i < dats@.len()
            &&& row_bad(#[trigger] dats@[i])
            &&& forall|j: int| 0 <= j < i ==> !row_bad(#[trigger] dats@[j])
            &&& row_error(dats@[i], e)
        },
{
    let mut v: Vec<u64> = Vec::with_capacity(dats.len());
    let mut i: usize = 0;
    while i < dats.len()
        invariant
            i <= dats@.len(),
            v@.len() == i,
            forall|j: int| 0 <= j < i ==> !row_bad(#[trigger] dats@[j]),
            forall|j: int| 0 <= j < i ==> v@[j] == (#[trigger] dats@[j]).vals@[0],
        decreases dats@.len() - i,
    {
        let n = dats[i].vals.len();
        if n != 1 {
            let e = BenError::WrongRowCount { expected: 1, actual: n };
            assert(row_error(dats@[i as int], e));
            return Err(e);
        }
        v.push(dats[i].vals[0]);
        i += 1;
    }
    Ok(v)
}

/// `sers` is the transpose of the groups `grps` by `trn`: an axis series of
/// the payloads in the first group, then one series per group.
pub open spec fn transposed<L: Label>(sers: Seq<Ser>, grps: Seq<Grp<L>>, trn: L) -> bool {
    &&& grps.len() == 0 ==> sers.len() == 0
    &&& grps.len() > 0 ==> {
        &&& sers.len() == 1 + grps.len()
        &&& sers[0].name@ == trn.kind_text()
        &&& sers[0].vals@.len() == grps[0].dats@.len()
        &&& forall|i: int| 0 <= i < sers[0].vals@.len() ==> sers[0].vals@[i] == axis_val(#[trigger] grps[0].dats@[i], trn)
        &&& forall|g: int| 0 <= g < grps.len() ==> column_of(#[trigger] sers[g + 1], grps[g], trn)
    }
}

/// `s` is the data series of the group `grp`.
pub open spec fn column_of<L: Label>(s: Ser, grp: Grp<L>, trn: L) -> bool {
    &&& s.name@ == series_name(grp, trn)
    &&& s.vals@.len() == grp.dats@.len()
    &&& forall|i: int| 0 <= i < s.vals@.len() ==> s.vals@[i] == (#[trigger] grp.dats@[i]).vals@[0]
}

impl<L: Label> Grps<L> {
    /// Transposes the groups to series by the transpose label `trn`.
    ///
    /// Fails on the first result of the first group without an axis value
    /// (`MissingTransposeLabel`, `UnknownLabelKind`); else on the first
    /// result, group by group, that holds other than one value
    /// (`WrongRowCount`).
    pub fn ser(&self, trn: L) -> (r: Result<Sers, BenError<L>>)
        ensures
            ({
                let gs = self.0@;
                let axis_fails = gs.len() > 0 && exists|i: int| 0 <= i < gs[0].dats@.len() && axis_bad(#[trigger] gs[0].dats@[i], trn);
                let row_fails = exists|g: int, i: int| 0 <= g < gs.len() && 0 <= i < gs[g].dats@.len() && row_bad(#[trigger] gs[g].dats@[i]);
                &&& (r is Ok <==> !axis_fails && !row_fails)
                &&& (r matches Err(e) ==> axis_fails ==> exists|i: int| {
                    &&& 0 <= i < gs[0].dats@.len()
                    &&& axis_bad(#[trigger] gs[0].dats@[i], trn)
                    &&& forall|j: int| 0 <= j < i ==> !axis_bad(#[trigger] gs[0].dats@[j], trn)
                    &&& axis_error(gs[0].dats@[i], trn, gs[0].lbls@, e)
                })
                &&& (r matches Err(e) ==> !axis_fails ==> exists|g: int, i: int| {
                    &&& 0 <= g < gs.len()
                    &&& 0 <= i < gs[g].dats@.len()
                    &&& row_bad(#[trigger] gs[g].dats@[i])
                    &&& forall|h: int, j: int| 0 <= h < gs.len() && 0 <= j < gs[h].dats@.len() && (h < g || (h == g && j < i)) ==> !row_bad(#[trigger] gs[h].dats@[j])
                    &&& row_error(gs[g].dats@[i], e)
                })
                &&& (r matches Ok(sers) ==> transposed(sers.0@, gs, trn))
            }),
    {
        let ghost gs = self.0@;
        let mut sers: Vec<Ser> = Vec::with_capacity(self.0.len());
        let mut g: usize = 0;
        while g < self.0.len()
            invariant
                gs == self.0@,
                g <= gs.len(),
                g > 0 ==> forall|i: int| 0 <= i < gs[0].dats@.len() ==> !axis_bad(#[trigger] gs[0].dats@[i], trn),
                forall|h: int, j: int| 0 <= h < g && 0 <= j < gs[h].dats@.len() ==> !row_bad(#[trigger] gs[h].dats@[j]),
                g == 0 ==> sers@.len() == 0,
                g > 0 ==> {
                    &&& sers@.len() == 1 + g
                    &&& sers@[0].name@ == trn.kind_text()
                    &&& sers@[0].vals@.len() == gs[0].dats@.len()
                    &&& forall|i: int| 0 <= i < sers@[0].vals@.len() ==> sers@[0].vals@[i] == axis_val(#[trigger] gs[0].dats@[i], trn)
                    &&& forall|h: int| 0 <= h < g ==> column_of(#[trigger] sers@[h + 1], gs[h], trn)
                },
            decreases gs.len() - g,
        {
            let grp = &self.0[g];
            if g == 0 {
                let a = axis(grp, trn);
                match a {
                    Err(e) => {
                        return Err(e);
                    },
                    Ok(v) => {
                        let name = trn.to_kind_text();
                        sers.push(Ser::new(name, v));
                    },
                }
            }
            let c = column(&grp.dats);
            match c {
                Err(e) => {
                    proof {
                        let i = choose|i: int| {
                            &&& 0 <= i < grp.dats@.len()
                            &&& row_bad(#[trigger] grp.dats@[i])
                            &&& forall|j: int| 0 <= j < i ==> !row_bad(#[trigger] grp.dats@[j])
                            &&& row_error(grp.dats@[i], e)
                        };
                        assert(row_bad(gs[g as int].dats@[i]));
                        assert forall|h: int, j: int| 0 <= h < gs.len() && 0 <= j < gs[h].dats@.len() && (h < g || (h == g && j < i)) implies !row_bad(#[trigger] gs[h].dats@[j]) by {
                            if h == g {
                                assert(!row_bad(grp.dats@[j]));
                            }
                        }
                    }
                    return Err(e);
                },
                Ok(v) => {
                    let rest = clone_except(grp.lbls.as_slice(), trn);
                    let name = join(&rest, None);
                    let ghost s0 = sers@;
                    let s = Ser::new(name, v);
                    assert(column_of(s, gs[g as int], trn));
                    sers.push(s);
                    proof {
                        assert forall|h: int| 0 <= h < g + 1 implies column_of(#[trigger] sers@[h + 1], gs[h], trn) by {
                            if h < g {
                                assert(sers@[h + 1] == s0[h + 1]);
                            }
                        }
                    }
                },
            }
            g += 1;
        }
        proof {
            let r = sers@;
            assert(transposed(r, gs, trn));
        }
        Ok(Sers(sers))
    }
}

} // verus!
