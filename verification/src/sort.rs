//! Merge sort on integer triples in lexicographic order, whose order std documents.
use vstd::prelude::*;
use vstd::multiset::Multiset;

verus! {

pub type Key = (usize, usize, usize);

/// Lexicographic `<=` on triples.
pub open spec fn key_le(a: Key, b: Key) -> bool {
    a.0 < b.0 || (a.0 == b.0 && (a.1 < b.1 || (a.1 == b.1 && a.2 <= b.2)))
}

pub open spec fn sorted_keys(s: Seq<Key>) -> bool {
    forall|i: int, j: int| 0 <= i < j < s.len() ==> key_le(s[i], s[j])
}

fn le(a: Key, b: Key) -> (r: bool)
    ensures
        r == key_le(a, b),
{
    a.0 < b.0 || (a.0 == b.0 && (a.1 < b.1 || (a.1 == b.1 && a.2 <= b.2)))
}

fn merge(a: Vec<Key>, b: Vec<Key>) -> (r: Vec<Key>)
    requires
        sorted_keys(a@),
        sorted_keys(b@),
    ensures
        sorted_keys(r@),
        r@.to_multiset() == a@.to_multiset().add(b@.to_multiset()),
        r@.len() == a@.len() + b@.len(),
{
    broadcast use vstd::seq_lib::group_to_multiset_ensures;

    let mut r: Vec<Key> = Vec::new();
    let mut i: usize = 0;
    let mut j: usize = 0;
    while i < a.len() || j < b.len()
        invariant
            0 <= i <= a.len(),
            0 <= j <= b.len(),
            sorted_keys(a@),
            sorted_keys(b@),
            sorted_keys(r@),
            r@.len() == i + j,
            r@.len() > 0 && i < a.len() ==> key_le(r@.last(), a@[i as int]),
            r@.len() > 0 && j < b.len() ==> key_le(r@.last(), b@[j as int]),
            r@.to_multiset() == a@.subrange(0, i as int).to_multiset().add(
                b@.subrange(0, j as int).to_multiset(),
            ),
        decreases a.len() + b.len() - i - j,
    {
        let take_a = if i < a.len() && j < b.len() {
            le(a[i], b[j])
        } else {
            i < a.len()
        };
        if take_a {
            let x = a[i];
            let ghost old_r = r@;
            proof {
                assert(a@.subrange(0, i + 1) == a@.subrange(0, i as int).push(x));
                vstd::seq_lib::to_multiset_build(a@.subrange(0, i as int), x);
            }
            r.push(x);
            proof {
                assert(r@ == old_r.push(x));
                vstd::seq_lib::to_multiset_build(old_r, x);
                assert(r@.to_multiset() =~= a@.subrange(0, i + 1).to_multiset().add(
                    b@.subrange(0, j as int).to_multiset()));
                assert forall|p: int, q: int| 0 <= p < q < r@.len() implies key_le(r@[p], r@[q]) by {
                    if q == r@.len() - 1 && p < q {
                        assert(key_le(old_r[p], old_r.last()));
                    }
                }
            }
            i = i + 1;
        } else {
            let x = b[j];
            let ghost old_r = r@;
            proof {
                assert(b@.subrange(0, j + 1) == b@.subrange(0, j as int).push(x));
                vstd::seq_lib::to_multiset_build(b@.subrange(0, j as int), x);
            }
            r.push(x);
            proof {
                assert(r@ == old_r.push(x));
                vstd::seq_lib::to_multiset_build(old_r, x);
                assert(r@.to_multiset() =~= a@.subrange(0, i as int).to_multiset().add(
                    b@.subrange(0, j + 1).to_multiset()));
                assert forall|p: int, q: int| 0 <= p < q < r@.len() implies key_le(r@[p], r@[q]) by {
                    if q == r@.len() - 1 && p < q {
                        assert(key_le(old_r[p], old_r.last()));
                    }
                }
            }
            j = j + 1;
        }
    }
    proof {
        assert(a@.subrange(0, a@.len() as int) == a@);
        assert(b@.subrange(0, b@.len() as int) == b@);
    }
    r
}

/// Sorts triples lexicographically; the result is a permutation of the input.
pub fn sort_keys(v: Vec<Key>) -> (r: Vec<Key>)
    ensures
        sorted_keys(r@),
        r@.to_multiset() == v@.to_multiset(),
        r@.len() == v@.len(),
    decreases v@.len(),
{
    broadcast use vstd::seq_lib::group_to_multiset_ensures;

    let n = v.len();
    if n <= 1 {
        return v;
    }
    let mid = n / 2;
    let mut left: Vec<Key> = Vec::new();
    let mut right: Vec<Key> = Vec::new();
    let mut k: usize = 0;
    while k < n
        invariant
            n == v@.len(),
            0 <= k <= n,
            mid == n / 2,
            k <= mid ==> left@ == v@.subrange(0, k as int) && right@.len() == 0,
            k > mid ==> left@ == v@.subrange(0, mid as int) && right@ == v@.subrange(
                mid as int,
                k as int,
            ),
        decreases n - k,
    {
        if k < mid {
            left.push(v[k]);
        } else {
            right.push(v[k]);
        }
        k = k + 1;
    }
    proof {
        assert(v@ == v@.subrange(0, mid as int) + v@.subrange(mid as int, n as int));
        vstd::seq_lib::lemma_multiset_commutative(
            v@.subrange(0, mid as int),
            v@.subrange(mid as int, n as int),
        );
    }
    let a = sort_keys(left);
    let b = sort_keys(right);
    merge(a, b)
}

/// Rearranging a sequence rearranges its image.
pub proof fn lemma_map_multiset<A, B>(a: Seq<A>, b: Seq<A>, f: spec_fn(A) -> B)
    requires
        a.to_multiset() == b.to_multiset(),
    ensures
        a.map_values(f).to_multiset() == b.map_values(f).to_multiset(),
    decreases a.len(),
{
    broadcast use vstd::seq_lib::group_to_multiset_ensures;

    if a.len() == 0 {
        assert(b.to_multiset().len() == 0);
        assert(b.len() == 0);
        assert(a.map_values(f) =~= b.map_values(f));
    } else {
        let x = a.last();
        assert(a.to_multiset().count(x) > 0) by {
            assert(a.drop_last().push(x) =~= a);
        }
        assert(b.contains(x));
        let j = choose|j: int| 0 <= j < b.len() && b[j] == x;
        let a1 = a.drop_last();
        let b1 = b.remove(j);
        assert(a1.push(x) =~= a);
        assert(a1.to_multiset() == a.to_multiset().remove(x));
        assert(b1.to_multiset() == b.to_multiset().remove(x));
        lemma_map_multiset(a1, b1, f);
        assert(a.map_values(f) =~= a1.map_values(f).push(f(x)));
        assert(b.map_values(f).remove(j) =~= b1.map_values(f));
        assert(b.map_values(f)[j] == f(x));
        assert(b.map_values(f).to_multiset() == b1.map_values(f).to_multiset().insert(f(x))) by {
            assert(b.map_values(f).to_multiset().remove(f(x)) == b1.map_values(f).to_multiset());
            assert(b.map_values(f).contains(f(x)));
            assert(b.map_values(f).to_multiset().count(f(x)) > 0);
            assert(b.map_values(f).to_multiset() =~= b.map_values(f).to_multiset().remove(f(x)).insert(f(x)));
        }
    }
}

} // verus!
