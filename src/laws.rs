//! Properties that relate several operations of the engine.

use vstd::prelude::*;
use crate::label::{Label, canonical_of, first_of_kind, lemma_sorted_unique};
use crate::run::{Dat, dats_sorted_by, key_codes, sort_key};
use crate::set::{BenSet, frm_ids, lemma_match_ids, match_ids};

verus! {

broadcast use vstd::seq_lib::group_to_multiset_ensures;

/// After an insert, filtering by any one of the inserted labels selects the
/// inserted id.
pub proof fn law_insert_then_filter<L: Label, F: Fn() -> u64>(
    before: BenSet<L, F>,
    after: BenSet<L, F>,
    lbls: Seq<L>,
    t: L,
)
    requires
        before.wf(),
        after.wf(),
        after.ops@.len() == before.ops@.len() + 1,
        canonical_of(after.ops@.last().lbls@, lbls),
        lbls.contains(t),
    ensures
        frm_ids(after.tags(), seq![seq![t]]).contains(before.id),
{
    let tags = after.tags();
    let q = seq![t];
    let qs = seq![q];
    assert(qs.drop_last() =~= Seq::<Seq<L>>::empty());
    assert(frm_ids(tags, qs.drop_last()) =~= Seq::<u16>::empty());
    assert(qs.last() == q);
    assert(frm_ids(tags, qs) =~= match_ids(tags, q, tags.len()));
    lemma_match_ids(tags, q, tags.len());
    assert(tags[before.id as int] == after.ops@.last().lbls@);
    assert(tags[before.id as int].contains(q[0]));
}

/// Filtering by a label that no op carries selects nothing.
pub proof fn law_filter_absent<L: Label, F: Fn() -> u64>(s: BenSet<L, F>, t: L)
    requires
        s.wf(),
        forall|i: int| 0 <= i < s.tags().len() ==> !(#[trigger] s.tags()[i]).contains(t),
    ensures
        frm_ids(s.tags(), seq![seq![t]]).len() == 0,
{
    let tags = s.tags();
    let q = seq![t];
    let qs = seq![q];
    assert(qs.drop_last() =~= Seq::<Seq<L>>::empty());
    assert(frm_ids(tags, qs.drop_last()) =~= Seq::<u16>::empty());
    assert(qs.last() == q);
    assert(frm_ids(tags, qs) =~= match_ids(tags, q, tags.len()));
    lemma_match_ids(tags, q, tags.len());
    let m = match_ids(tags, q, tags.len());
    if m.len() > 0 {
        assert(m.contains(m[0]));
        assert(tags[m[0] as int].contains(q[0]));
    }
}

/// Label lists that are permutations of each other have one canonical form.
pub proof fn law_permuted_labels<L: Label>(a: Seq<L>, b: Seq<L>, ra: Seq<L>, rb: Seq<L>)
    requires
        a.to_multiset() == b.to_multiset(),
        canonical_of(ra, a),
        canonical_of(rb, b),
    ensures
        ra == rb,
{
    assert forall|x: L| ra.contains(x) <==> rb.contains(x) by {
        assert(a.contains(x) <==> a.to_multiset().count(x) > 0);
        assert(b.contains(x) <==> b.to_multiset().count(x) > 0);
    }
    lemma_sorted_unique(ra, rb);
}

/// Canonicalizing a canonical form changes nothing.
pub proof fn law_canonical_idempotent<L: Label>(s: Seq<L>, once: Seq<L>, twice: Seq<L>)
    requires
        canonical_of(once, s),
        canonical_of(twice, once),
    ensures
        twice == once,
{
    lemma_sorted_unique(twice, once);
}

/// Filtering by two lists of label lists in turn selects what filtering by
/// the two lists appended selects.
pub proof fn law_filter_append<L: Label>(tags: Seq<Seq<L>>, ts: Seq<Seq<L>>, us: Seq<Seq<L>>)
    ensures
        frm_ids(tags, ts + us) == frm_ids(tags, ts) + frm_ids(tags, us),
    decreases us.len(),
{
    if us.len() == 0 {
        assert(ts + us =~= ts);
        assert(frm_ids(tags, ts) + frm_ids(tags, us) =~= frm_ids(tags, ts));
    } else {
        law_filter_append(tags, ts, us.drop_last());
        assert((ts + us).drop_last() =~= ts + us.drop_last());
        assert((ts + us).last() == us.last());
        assert(frm_ids(tags, ts + us) =~= frm_ids(tags, ts) + frm_ids(tags, us));
    }
}

/// Results sorted by a label's kind, where every result carries a label of
/// that kind, are in ascending order of those labels.
pub proof fn law_sorted_by_label<L: Label>(r: Seq<Dat<L>>, u: Seq<Dat<L>>, l: L)
    requires
        dats_sorted_by(r, u, l),
        forall|i: int| 0 <= i < r.len() ==> (#[trigger] first_of_kind(r[i].lbls@, l.kind())) is Some,
    ensures
        forall|i: int, j: int|
            0 <= i < j < r.len() ==> (#[trigger] first_of_kind(r[i].lbls@, l.kind()))->0.code()
                <= (#[trigger] first_of_kind(r[j].lbls@, l.kind()))->0.code(),
{
    assert forall|i: int, j: int|
        0 <= i < j < r.len() implies (#[trigger] first_of_kind(r[i].lbls@, l.kind()))->0.code()
            <= (#[trigger] first_of_kind(r[j].lbls@, l.kind()))->0.code() by {
        let a = sort_key(r[i].lbls@, l);
        let b = sort_key(r[j].lbls@, l);
        L::lemma_code_fits(a);
        L::lemma_code_fits(b);
        assert(key_codes(r, l)[i] <= key_codes(r, l)[j]);
    }
}

} // verus!
