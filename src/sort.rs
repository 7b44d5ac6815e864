//! A stable sort by integer keys.

use vstd::prelude::*;

verus! {

broadcast use vstd::seq_lib::group_to_multiset_ensures;

/// `p` is a permutation of `0..n`.
pub open spec fn is_perm(p: Seq<int>, n: nat) -> bool {
    &&& p.len() == n
    &&& forall|a: int| 0 <= a < n ==> 0 <= #[trigger] p[a] < n
    &&& forall|a: int, b: int| 0 <= a < n && 0 <= b < n && a != b ==> p[a] != p[b]
}

/// Position `a` goes before position `b`: a smaller key, or an equal key
/// that came first.
pub open spec fn before(keys: Seq<u64>, p: Seq<int>, a: int, b: int) -> bool {
    keys[a] < keys[b] || (keys[a] == keys[b] && p[a] < p[b])
}

/// `r`, with keys `rk`, is `s`, with keys `sk`, ordered by key; items of
/// equal key keep their order.
pub open spec fn stable_sort_of<T>(r: Seq<T>, rk: Seq<u64>, s: Seq<T>, sk: Seq<u64>) -> bool {
    &&& r.len() == s.len()
    &&& rk.len() == r.len()
    &&& r.to_multiset() == s.to_multiset()
    &&& forall|a: int, b: int| 0 <= a < b < rk.len() ==> rk[a] <= rk[b]
    &&& exists|p: Seq<int>| {
        &&& is_perm(p, s.len())
        &&& forall|a: int| 0 <= a < r.len() ==> r[a] == s[#[trigger] p[a]] && rk[a] == sk[p[a]]
        &&& forall|a: int, b: int| 0 <= a < b < r.len() && rk[a] == rk[b] ==> p[a] < p[b]
    }
}

/// Sorts `v` by `keys`, which move with it; items of equal key keep their
/// order.
pub fn sort_by_keys<T>(v: &mut Vec<T>, keys: &mut Vec<u64>)
    requires
        old(v)@.len() == old(keys)@.len(),
    ensures
        stable_sort_of(final(v)@, final(keys)@, old(v)@, old(keys)@),
{
    let ghost v0 = v@;
    let ghost k0 = keys@;
    let n = v.len();
    let ghost mut p: Seq<int> = Seq::new(n as nat, |a: int| a);
    let mut i: usize = 0;
    while i < n
        invariant
            n == v@.len(),
            n == keys@.len(),
            v0.len() == n,
            k0.len() == n,
            i <= n,
            is_perm(p, n as nat),
            forall|a: int| 0 <= a < n ==> v@[a] == v0[#[trigger] p[a]] && keys@[a] == k0[p[a]],
            v@.to_multiset() == v0.to_multiset(),
            forall|a: int, b: int| 0 <= a < b < i ==> #[trigger] before(keys@, p, a, b),
            forall|a: int| i <= a < n ==> #[trigger] p[a] == a,
            forall|a: int| 0 <= a < i ==> #[trigger] p[a] < i,
        decreases n - i,
    {
        let mut j = i;
        while j > 0 && keys[j - 1] > keys[j]
            invariant
                n == v@.len(),
                n == keys@.len(),
                v0.len() == n,
                k0.len() == n,
                i < n,
                j <= i,
                is_perm(p, n as nat),
                forall|a: int| 0 <= a < n ==> v@[a] == v0[#[trigger] p[a]] && keys@[a] == k0[p[a]],
                v@.to_multiset() == v0.to_multiset(),
                p[j as int] == i,
                forall|a: int| 0 <= a <= i && a != j ==> #[trigger] p[a] < i,
                forall|a: int, b: int| 0 <= a < b <= i && a != j && b != j ==> #[trigger] before(keys@, p, a, b),
                forall|b: int| j < b <= i ==> #[trigger] before(keys@, p, j as int, b),
                forall|a: int| i < a < n ==> #[trigger] p[a] == a,
            decreases j,
        {
            let ghost kb = keys@;
            let ghost vb = v@;
            let ghost pb = p;
            let kv = keys.remove(j);
            keys.insert(j - 1, kv);
            let x = v.remove(j);
            v.insert(j - 1, x);
            proof {
                p = pb.update(j - 1, pb[j as int]).update(j as int, pb[j - 1]);
                assert(keys@ =~= kb.update(j - 1, kb[j as int]).update(j as int, kb[j - 1]));
                assert(v@ =~= vb.update(j - 1, vb[j as int]).update(j as int, vb[j - 1]));
                assert forall|a: int| 0 <= a < n implies v@[a] == v0[#[trigger] p[a]] && keys@[a] == k0[p[a]] by {
                    if a == j - 1 {
                        assert(v@[a] == vb[j as int]);
                    } else if a == j {
                        assert(v@[a] == vb[j - 1]);
                    } else {
                        assert(v@[a] == vb[a]);
                    }
                }
                assert forall|a: int, b: int| 0 <= a < n && 0 <= b < n && a != b implies p[a] != p[b] by {
                    let fa = if a == j - 1 { j as int } else if a == j { j - 1 } else { a };
                    let fb = if b == j - 1 { j as int } else if b == j { j - 1 } else { b };
                    assert(p[a] == pb[fa]);
                    assert(p[b] == pb[fb]);
                }
                assert forall|a: int| 0 <= a < n implies 0 <= #[trigger] p[a] < n by {
                    let fa = if a == j - 1 { j as int } else if a == j { j - 1 } else { a };
                    assert(p[a] == pb[fa]);
                }
                let jj = (j - 1) as int;
                assert forall|a: int, b: int| 0 <= a < b <= i && a != jj && b != jj implies #[trigger] before(keys@, p, a, b) by {
                    let fa = if a == j { jj } else { a };
                    let fb = if b == j { jj } else { b };
                    assert(p[a] == pb[fa] && keys@[a] == kb[fa]);
                    assert(p[b] == pb[fb] && keys@[b] == kb[fb]);
                    assert(before(kb, pb, fa, fb));
                }
                assert forall|b: int| jj < b <= i implies #[trigger] before(keys@, p, jj, b) by {
                    if b == j {
                    } else {
                        assert(before(kb, pb, j as int, b));
                    }
                }
                assert forall|a: int| 0 <= a <= i && a != jj implies #[trigger] p[a] < i by {
                    if a == j {
                        assert(p[a] == pb[jj]);
                    } else {
                        assert(p[a] == pb[a]);
                    }
                }
                assert forall|a: int| i < a < n implies #[trigger] p[a] == a by {
                    assert(p[a] == pb[a]);
                }
            }
            j -= 1;
        }
        proof {
            let jj = j as int;
            assert forall|a: int, b: int| 0 <= a < b <= i implies #[trigger] before(keys@, p, a, b) by {
                if a == jj {
                } else if b == jj {
                    assert(before(keys@, p, jj - 1, jj));
                    if a < jj - 1 {
                        assert(before(keys@, p, a, jj - 1));
                    }
                }
            }
            assert forall|a: int| 0 <= a < i + 1 implies #[trigger] p[a] < i + 1 by {
                if a != jj {
                    assert(p[a] < i);
                }
            }
        }
        i += 1;
    }
    proof {
        assert forall|a: int, b: int| 0 <= a < b < n implies keys@[a] <= keys@[b] by {
            assert(before(keys@, p, a, b));
        }
        assert forall|a: int, b: int| 0 <= a < b < n && keys@[a] == keys@[b] implies p[a] < p[b] by {
            assert(before(keys@, p, a, b));
        }
        assert forall|a: int| 0 <= a < v@.len() implies v@[a] == v0[#[trigger] p[a]] && keys@[a] == k0[p[a]] by {}
    }
}

} // verus!
