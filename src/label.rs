//! Labels: the traits a label type meets, and canonical label lists.

use vstd::prelude::*;

verus! {

/// A label's optional integer payload, as in `Len(16)`.
pub trait EnumStructVal {
    /// The payload, `None` for a plain label.
    spec fn payload(&self) -> Option<u32>;

    /// Returns the payload of the label.
    fn val(&self) -> (r: Option<u32>)
        ensures
            r == self.payload(),
    ;
}

/// A tag that classifies a benchmark along one axis.
///
/// A label is identified by its `code`: two labels with one code are one
/// label, and labels are ordered by code. Labels of one `kind` (one variant
/// of an enumeration) differ at most in their payload.
pub trait Label: EnumStructVal + Copy + Sized {
    /// The total order key of the label.
    spec fn code(&self) -> int;

    /// The variant discriminant of the label.
    spec fn kind(&self) -> u32;

    /// The label's display text, such as `len(16)`.
    spec fn text(&self) -> Seq<char>;

    /// The display text of the label's kind, such as `len`.
    spec fn kind_text(&self) -> Seq<char>;

    /// The label used as a sort key where a tag set lacks the sort kind.
    spec fn fallback() -> Self;

    /// Equal codes mean equal labels.
    proof fn lemma_code_injective(a: Self, b: Self)
        ensures
            a.code() == b.code() ==> a == b,
    ;

    /// Codes fit in a `u64`.
    proof fn lemma_code_fits(a: Self)
        ensures
            0 <= a.code() <= u64::MAX,
    ;

    /// Returns the order key.
    fn key(&self) -> (r: u64)
        ensures
            r as int == self.code(),
    ;

    /// Returns the variant discriminant.
    fn discriminant(&self) -> (r: u32)
        ensures
            r == self.kind(),
    ;

    /// Returns the display text.
    fn to_text(&self) -> (r: String)
        ensures
            r@ == self.text(),
    ;

    /// Returns the display text of the kind.
    fn to_kind_text(&self) -> (r: String)
        ensures
            r@ == self.kind_text(),
    ;

    /// Returns the fallback sort label.
    fn fallback_label() -> (r: Self)
        ensures
            r == Self::fallback(),
    ;
}

/// Whether two labels are one label, decided by their codes.
pub fn same<L: Label>(a: &L, b: &L) -> (r: bool)
    ensures
        r == (*a == *b),
{
    proof {
        L::lemma_code_injective(*a, *b);
    }
    a.key() == b.key()
}


/// Codes strictly ascend along `s`: no label repeats.
pub open spec fn sorted_strict<L: Label>(s: Seq<L>) -> bool {
    forall|i: int, j: int| 0 <= i < j < s.len() ==> s[i].code() < s[j].code()
}

/// `r` is the canonical form of `s`: the labels of `s`, each once, by code.
pub open spec fn canonical_of<L: Label>(r: Seq<L>, s: Seq<L>) -> bool {
    &&& sorted_strict(r)
    &&& forall|x: L| r.contains(x) <==> s.contains(x)
}

/// The first label of `s` of kind `k`.
pub open spec fn first_of_kind<L: Label>(s: Seq<L>, k: u32) -> Option<L>
    decreases s.len(),
{
    if s.len() == 0 {
        None
    } else if s[0].kind() == k {
        Some(s[0])
    } else {
        first_of_kind(s.drop_first(), k)
    }
}

/// `s` without its first label of kind `k`.
pub open spec fn without_kind<L: Label>(s: Seq<L>, k: u32) -> Seq<L>
    decreases s.len(),
{
    if s.len() == 0 {
        s
    } else if s[0].kind() == k {
        s.drop_first()
    } else {
        seq![s[0]] + without_kind(s.drop_first(), k)
    }
}

/// Two strictly ascending sequences that hold the same labels are equal.
pub proof fn lemma_sorted_unique<L: Label>(a: Seq<L>, b: Seq<L>)
    requires
        sorted_strict(a),
        sorted_strict(b),
        forall|x: L| a.contains(x) <==> b.contains(x),
    ensures
        a == b,
    decreases a.len() + b.len(),
{
    if a.len() == 0 || b.len() == 0 {
        if a.len() > 0 {
            assert(a.contains(a[0]));
        }
        if b.len() > 0 {
            assert(b.contains(b[0]));
        }
        assert(a =~= b);
    } else {
        // The least labels agree.
        assert(a.contains(a[0]));
        assert(b.contains(b[0]));
        let ia = choose|i: int| 0 <= i < a.len() && a[i] == b[0];
        let ib = choose|i: int| 0 <= i < b.len() && b[i] == a[0];
        if a[0].code() < b[0].code() {
            if ib > 0 {
                assert(b[0].code() < b[ib].code());
            }
        } else if b[0].code() < a[0].code() {
            if ia > 0 {
                assert(a[0].code() < a[ia].code());
            }
        }
        L::lemma_code_injective(a[0], b[0]);
        let ta = a.drop_first();
        let tb = b.drop_first();
        assert forall|x: L| ta.contains(x) <==> tb.contains(x) by {
            if ta.contains(x) {
                let i = choose|i: int| 0 <= i < ta.len() && ta[i] == x;
                assert(a[i + 1] == x);
                assert(a[0].code() < x.code());
                assert(a.contains(x));
                let j = choose|j: int| 0 <= j < b.len() && b[j] == x;
                assert(j != 0);
                assert(tb[j - 1] == x);
            }
            if tb.contains(x) {
                let i = choose|i: int| 0 <= i < tb.len() && tb[i] == x;
                assert(b[i + 1] == x);
                assert(b[0].code() < x.code());
                assert(b.contains(x));
                let j = choose|j: int| 0 <= j < a.len() && a[j] == x;
                assert(j != 0);
                assert(ta[j - 1] == x);
            }
        }
        lemma_sorted_unique(ta, tb);
        assert(a =~= seq![a[0]] + ta);
        assert(b =~= seq![b[0]] + tb);
    }
}

/// Copies a slice of labels into a new vector.
pub fn copy_labels<L: Label>(lbls: &[L]) -> (r: Vec<L>)
    ensures
        r@ == lbls@,
{
    let mut r: Vec<L> = Vec::with_capacity(lbls.len());
    let mut i: usize = 0;
    while i < lbls.len()
        invariant
            i <= lbls@.len(),
            r@ == lbls@.subrange(0, i as int),
        decreases lbls@.len() - i,
    {
        r.push(lbls[i]);
        i += 1;
        assert(r@ =~= lbls@.subrange(0, i as int));
    }
    assert(r@ =~= lbls@);
    r
}

/// Inserts `l` at its place in the strictly ascending `v`, unless `v` holds it.
pub(crate) fn insert_sorted<L: Label>(v: &mut Vec<L>, l: L)
    requires
        sorted_strict(old(v)@),
    ensures
        sorted_strict(final(v)@),
        forall|x: L| final(v)@.contains(x) <==> (old(v)@.contains(x) || x == l),
{
    let ghost l0 = l;
    let k = l.key();
    let mut p: usize = 0;
    let ghost v0 = v@;
    while p < v.len() && v[p].key() < k
        invariant
            v@ == v0,
            sorted_strict(v@),
            p <= v@.len(),
            k == l.code(),
            forall|j: int| 0 <= j < p ==> v@[j].code() < l.code(),
        decreases v@.len() - p,
    {
        p += 1;
    }
    if p < v.len() && v[p].key() == k {
        proof {
            L::lemma_code_injective(v@[p as int], l);
            assert(v@[p as int] == l);
            assert(v@.contains(l));
            assert(v@ == old(v)@);
            assert forall|x: L| v@.contains(x) <==> (old(v)@.contains(x) || x == l) by {}
        }
    } else {
        let ghost before = v@;
        v.insert(p, l);
        assert(v@[p as int] == l0);
        assert(v@ =~= before.insert(p as int, l));
        assert forall|i: int, j: int| 0 <= i < j < v@.len() implies v@[i].code() < v@[j].code() by {
            if j < p {
            } else if j == p {
            } else if i < p {
                assert(before[j - 1].code() >= l.code());
            } else if i == p {
                assert(before[p as int].code() > l.code());
                if j - 1 > p {
                    assert(before[p as int].code() < before[j - 1].code());
                }
            } else {
            }
        }
        assert forall|x: L| v@.contains(x) <==> (before.contains(x) || x == l) by {
            if v@.contains(x) {
                let i = choose|i: int| 0 <= i < v@.len() && v@[i] == x;
                if i < p {
                    assert(before[i] == x);
                } else if i > p {
                    assert(before[i - 1] == x);
                }
            }
            if before.contains(x) {
                let i = choose|i: int| 0 <= i < before.len() && before[i] == x;
                if i < p {
                    assert(v@[i] == x);
                } else {
                    assert(v@[i + 1] == x);
                }
            }
            if x == l {
                assert(v@[p as int] == x);
            }
        }
        assert(before == old(v)@);
    }
}

/// Adds each label of `lbls` at its place in the strictly ascending `v`.
fn insert_all_sorted<L: Label>(v: &mut Vec<L>, lbls: &[L])
    requires
        sorted_strict(old(v)@),
    ensures
        sorted_strict(final(v)@),
        forall|x: L| final(v)@.contains(x) <==> (old(v)@.contains(x) || lbls@.contains(x)),
{
    let ghost start = v@;
    let mut i: usize = 0;
    assert(lbls@.subrange(0, 0) =~= Seq::<L>::empty());
    while i < lbls.len()
        invariant
            i <= lbls@.len(),
            sorted_strict(v@),
            forall|x: L| v@.contains(x) <==> (start.contains(x) || lbls@.subrange(0, i as int).contains(x)),
        decreases lbls@.len() - i,
    {
        let ghost pre = lbls@.subrange(0, i as int);
        insert_sorted(v, lbls[i]);
        i += 1;
        let ghost s = lbls@.subrange(0, i as int);
        assert(s.len() == i && pre.len() == i - 1);
        assert forall|x: L| s.contains(x) <==> (pre.contains(x) || x == lbls@[i - 1]) by {
            if s.contains(x) {
                let j = choose|j: int| 0 <= j < s.len() && s[j] == x;
                if j < i - 1 {
                    assert(pre[j] == x);
                }
            }
            if pre.contains(x) {
                let j = choose|j: int| 0 <= j < pre.len() && pre[j] == x;
                assert(s[j] == x);
            }
            if x == lbls@[i - 1] {
                assert(s[i - 1] == x);
            }
        }
    }
    assert(lbls@.subrange(0, lbls@.len() as int) =~= lbls@);
}

/// Returns the labels of `lbls`, each once, in ascending order.
pub fn unq_srt<L: Label>(lbls: &[L]) -> (r: Vec<L>)
    ensures
        canonical_of(r@, lbls@),
{
    let mut r: Vec<L> = Vec::new();
    insert_all_sorted(&mut r, lbls);
    r
}

/// Returns the labels of `a` and `b`, each once, in ascending order.
pub fn mrg_unq_srt<L: Label>(a: &[L], b: &[L]) -> (r: Vec<L>)
    ensures
        canonical_of(r@, a@ + b@),
{
    let mut r: Vec<L> = Vec::new();
    insert_all_sorted(&mut r, a);
    insert_all_sorted(&mut r, b);
    assert forall|x: L| r@.contains(x) <==> (a@ + b@).contains(x) by {
        if a@.contains(x) {
            let i = choose|i: int| 0 <= i < a@.len() && a@[i] == x;
            assert((a@ + b@)[i] == x);
        }
        if b@.contains(x) {
            let i = choose|i: int| 0 <= i < b@.len() && b@[i] == x;
            assert((a@ + b@)[a@.len() + i] == x);
        }
        if (a@ + b@).contains(x) {
            let i = choose|i: int| 0 <= i < (a@ + b@).len() && (a@ + b@)[i] == x;
            if i < a@.len() {
                assert(a@[i] == x);
            } else {
                assert(b@[i - a@.len()] == x);
            }
        }
    }
    r
}

/// Returns the first label of `lbls` of the same kind as `l`.
pub fn find<L: Label>(lbls: &[L], l: L) -> (r: Option<L>)
    ensures
        r == first_of_kind(lbls@, l.kind()),
{
    let k = l.discriminant();
    let mut i: usize = 0;
    assert(lbls@.subrange(0, lbls@.len() as int) =~= lbls@);
    while i < lbls.len()
        invariant
            i <= lbls@.len(),
            k == l.kind(),
            first_of_kind(lbls@, k) == first_of_kind(lbls@.subrange(i as int, lbls@.len() as int), k),
        decreases lbls@.len() - i,
    {
        let ghost rest = lbls@.subrange(i as int, lbls@.len() as int);
        assert(rest[0] == lbls@[i as int]);
        if lbls[i].discriminant() == k {
            return Some(lbls[i]);
        }
        assert(rest.drop_first() =~= lbls@.subrange(i + 1, lbls@.len() as int));
        i += 1;
    }
    None
}

/// Returns a copy of `lbls` without its first label of the same kind as `l`.
pub fn clone_except<L: Label>(lbls: &[L], l: L) -> (r: Vec<L>)
    ensures
        r@ == without_kind(lbls@, l.kind()),
{
    let k = l.discriminant();
    let mut r: Vec<L> = Vec::with_capacity(lbls.len());
    let mut i: usize = 0;
    assert(lbls@.subrange(0, lbls@.len() as int) =~= lbls@);
    assert(r@ + without_kind(lbls@, k) =~= without_kind(lbls@, k));
    while i < lbls.len()
        invariant
            i <= lbls@.len(),
            k == l.kind(),
            r@ + without_kind(lbls@.subrange(i as int, lbls@.len() as int), k) == without_kind(lbls@, k),
        decreases lbls@.len() - i,
    {
        let ghost rest = lbls@.subrange(i as int, lbls@.len() as int);
        assert(rest[0] == lbls@[i as int]);
        assert(rest.drop_first() =~= lbls@.subrange(i + 1, lbls@.len() as int));
        if lbls[i].discriminant() == k {
            i += 1;
            while i < lbls.len()
                invariant
                    i <= lbls@.len(),
                    r@ + lbls@.subrange(i as int, lbls@.len() as int) == without_kind(lbls@, k),
                decreases lbls@.len() - i,
            {
                let ghost tail = lbls@.subrange(i as int, lbls@.len() as int);
                r.push(lbls[i]);
                i += 1;
                assert(tail =~= seq![tail[0]] + lbls@.subrange(i as int, lbls@.len() as int));
                assert(r@ + lbls@.subrange(i as int, lbls@.len() as int) =~= r@.drop_last() + tail);
            }
            assert(lbls@.subrange(i as int, lbls@.len() as int) =~= Seq::<L>::empty());
            assert(r@ =~= r@ + Seq::<L>::empty());
            return r;
        }
        let ghost r0 = r@;
        r.push(lbls[i]);
        i += 1;
        assert(r0 + (seq![lbls@[i - 1]] + without_kind(lbls@.subrange(i as int, lbls@.len() as int), k))
            =~= r@ + without_kind(lbls@.subrange(i as int, lbls@.len() as int), k));
    }
    assert(lbls@.subrange(i as int, lbls@.len() as int) =~= Seq::<L>::empty());
    assert(r@ =~= r@ + Seq::<L>::empty());
    r
}

} // verus!
