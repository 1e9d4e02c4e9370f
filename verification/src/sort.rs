//! Stable sorting in natural order, as a permutation of positions.

use crate::natural::{
    natural_order_is_antisymmetric, natural_order_is_transitive, natural_rank, rank_chars, Rank,
};
use vstd::prelude::*;

verus! {

/// Whether position `a` comes before position `b` once `keys` are sorted:
/// by natural order, and among equal keys by where they stood.
pub open spec fn goes_before(keys: Seq<Seq<char>>, a: int, b: int) -> bool {
    natural_rank(keys[a], keys[b]) == Rank::Before || (natural_rank(keys[a], keys[b]) == Rank::Same
        && a < b)
}

/// Whether `p` lists positions of `keys` in sorted order, none of them twice.
pub open spec fn is_ordered(keys: Seq<Seq<char>>, p: Seq<int>) -> bool {
    forall|i: int, j: int|
        0 <= i < j < p.len() ==> goes_before(keys, #[trigger] p[i], #[trigger] p[j])
}

/// Whether `p` lists all positions of `keys` in sorted order.
pub open spec fn is_natural_order(keys: Seq<Seq<char>>, p: Seq<int>) -> bool {
    &&& p.len() == keys.len()
    &&& forall|i: int| 0 <= i < p.len() ==> 0 <= #[trigger] p[i] < keys.len()
    &&& is_ordered(keys, p)
}

pub open spec fn index_ints(p: Seq<usize>) -> Seq<int> {
    p.map_values(|i: usize| i as int)
}

pub open spec fn key_texts(keys: Seq<Vec<char>>) -> Seq<Seq<char>> {
    keys.map_values(|k: Vec<char>| k@)
}

proof fn before_is_strict(keys: Seq<Seq<char>>, a: int, b: int)
    ensures
        !goes_before(keys, a, a),
        goes_before(keys, a, b) ==> !goes_before(keys, b, a),
        a != b ==> goes_before(keys, a, b) || goes_before(keys, b, a),
{
    natural_order_is_antisymmetric(keys[a], keys[b]);
    natural_order_is_antisymmetric(keys[a], keys[a]);
}

proof fn before_chains(keys: Seq<Seq<char>>, a: int, b: int, c: int)
    requires
        goes_before(keys, a, b),
        goes_before(keys, b, c),
    ensures
        goes_before(keys, a, c),
{
    natural_order_is_transitive(keys[a], keys[b], keys[c]);
    natural_order_is_antisymmetric(keys[a], keys[b]);
    natural_order_is_antisymmetric(keys[b], keys[c]);
    natural_order_is_antisymmetric(keys[a], keys[c]);
}

/// A sorted order is a permutation: every position occurs in it, and only once.
pub proof fn natural_order_is_permutation(keys: Seq<Seq<char>>, p: Seq<int>)
    requires
        is_natural_order(keys, p),
    ensures
        p.no_duplicates(),
        forall|k: int| 0 <= k < keys.len() ==> #[trigger] p.contains(k),
{
    assert forall|i: int, j: int| 0 <= i < p.len() && 0 <= j < p.len() && i != j implies p[i]
        != p[j] by {
        before_is_strict(keys, p[i], p[j]);
        if i < j {
            assert(goes_before(keys, p[i], p[j]));
        } else {
            assert(goes_before(keys, p[j], p[i]));
        }
    }
    p.unique_seq_to_set();
    let all = vstd::set_lib::set_int_range(0, keys.len() as int);
    vstd::set_lib::lemma_int_range(0, keys.len() as int);
    assert(p.to_set().subset_of(all)) by {
        assert forall|k: int| p.to_set().contains(k) implies all.contains(k) by {
            assert(p.contains(k));
            let i = choose|i: int| 0 <= i < p.len() && p[i] == k;
            assert(0 <= p[i] < keys.len());
        }
    }
    vstd::set_lib::lemma_subset_equality(p.to_set(), all);
    assert forall|k: int| 0 <= k < keys.len() implies #[trigger] p.contains(k) by {
        assert(all.contains(k));
        assert(p.to_set().contains(k));
    }
}

/// There is one sorted order only.
pub proof fn natural_order_is_unique(keys: Seq<Seq<char>>, p: Seq<int>, q: Seq<int>)
    requires
        is_natural_order(keys, p),
        is_natural_order(keys, q),
    ensures
        p == q,
{
    natural_order_is_permutation(keys, p);
    natural_order_is_permutation(keys, q);
    assert forall|i: int| 0 <= i < p.len() implies p[i] == q[i] by {
        same_prefix(keys, p, q, i + 1);
    }
    assert(p =~= q);
}

/// How many of the ordered positions `p` come before position `m`.
spec fn rank_among(keys: Seq<Seq<char>>, p: Seq<int>, m: int) -> int
    decreases p.len(),
{
    if p.len() == 0 {
        0
    } else if goes_before(keys, p.last(), m) {
        p.len() as int
    } else {
        rank_among(keys, p.drop_last(), m)
    }
}

proof fn rank_among_splits(keys: Seq<Seq<char>>, p: Seq<int>, m: int)
    requires
        is_ordered(keys, p),
        forall|i: int| 0 <= i < p.len() ==> #[trigger] p[i] != m,
    ensures
        0 <= rank_among(keys, p, m) <= p.len(),
        forall|i: int| 0 <= i < rank_among(keys, p, m) ==> goes_before(keys, #[trigger] p[i], m),
        forall|i: int|
            rank_among(keys, p, m) <= i < p.len() ==> goes_before(keys, m, #[trigger] p[i]),
    decreases p.len(),
{
    if p.len() > 0 {
        let last = p.last();
        before_is_strict(keys, last, m);
        assert(last == p[p.len() - 1]);
        if goes_before(keys, last, m) {
            assert forall|i: int| 0 <= i < p.len() implies goes_before(keys, #[trigger] p[i], m) by {
                if i < p.len() - 1 {
                    assert(goes_before(keys, p[i], p[p.len() - 1]));
                    before_chains(keys, p[i], last, m);
                }
            }
        } else {
            let init = p.drop_last();
            assert forall|i: int, j: int| 0 <= i < j < init.len() implies goes_before(
                keys,
                #[trigger] init[i],
                #[trigger] init[j],
            ) by {
                assert(goes_before(keys, p[i], p[j]));
            }
            assert forall|i: int| 0 <= i < init.len() implies #[trigger] init[i] != m by {
                assert(p[i] != m);
            }
            rank_among_splits(keys, init, m);
            let k = rank_among(keys, p, m);
            assert forall|i: int| 0 <= i < k implies goes_before(keys, #[trigger] p[i], m) by {
                assert(goes_before(keys, init[i], m));
            }
            assert forall|i: int| k <= i < p.len() implies goes_before(keys, m, #[trigger] p[i]) by {
                if i < init.len() {
                    assert(goes_before(keys, m, init[i]));
                }
            }
        }
    }
}

/// Every list has a sorted order.
pub proof fn natural_order_exists(keys: Seq<Seq<char>>)
    ensures
        exists|p: Seq<int>| is_natural_order(keys, p),
    decreases keys.len(),
{
    if keys.len() == 0 {
        assert(is_natural_order(keys, Seq::empty()));
    } else {
        let init = keys.drop_last();
        let m = keys.len() - 1;
        natural_order_exists(init);
        let q = choose|q: Seq<int>| is_natural_order(init, q);
        assert forall|i: int| 0 <= i < q.len() implies 0 <= #[trigger] q[i] < m by {
            assert(0 <= q[i] < init.len());
        }
        assert forall|i: int, j: int| 0 <= i < j < q.len() implies goes_before(
            keys,
            #[trigger] q[i],
            #[trigger] q[j],
        ) by {
            assert(goes_before(init, q[i], q[j]));
            assert(init[q[i]] == keys[q[i]] && init[q[j]] == keys[q[j]]);
        }
        rank_among_splits(keys, q, m);
        let k = rank_among(keys, q, m);
        let p = q.insert(k, m);
        assert forall|i: int| 0 <= i < p.len() implies 0 <= #[trigger] p[i] < keys.len() by {
            if i < k {
                assert(p[i] == q[i]);
            } else if i > k {
                assert(p[i] == q[i - 1]);
            }
        }
        assert forall|i: int, j: int| 0 <= i < j < p.len() implies goes_before(
            keys,
            #[trigger] p[i],
            #[trigger] p[j],
        ) by {
            let a = if i <= k {
                i
            } else {
                i - 1
            };
            let b = if j <= k {
                j
            } else {
                j - 1
            };
            if i != k {
                assert(p[i] == q[a]);
            }
            if j != k {
                assert(p[j] == q[b]);
            }
        }
        assert(is_natural_order(keys, p));
    }
}

/// The one sorted order of the positions of `keys`.
pub open spec fn sorted_order(keys: Seq<Seq<char>>) -> Seq<int> {
    choose|p: Seq<int>| is_natural_order(keys, p)
}

/// Any sorted order is the sorted order.
pub proof fn sorted_order_is(keys: Seq<Seq<char>>, p: Seq<int>)
    requires
        is_natural_order(keys, p),
    ensures
        sorted_order(keys) == p,
{
    natural_order_is_unique(keys, sorted_order(keys), p);
}

proof fn same_prefix(keys: Seq<Seq<char>>, p: Seq<int>, q: Seq<int>, n: int)
    requires
        is_natural_order(keys, p),
        is_natural_order(keys, q),
        p.no_duplicates(),
        q.no_duplicates(),
        forall|k: int| 0 <= k < keys.len() ==> #[trigger] p.contains(k),
        forall|k: int| 0 <= k < keys.len() ==> #[trigger] q.contains(k),
        0 <= n <= p.len(),
    ensures
        forall|i: int| 0 <= i < n ==> p[i] == q[i],
    decreases n,
{
    if n > 0 {
        same_prefix(keys, p, q, n - 1);
        let (a, b) = (p[n - 1], q[n - 1]);
        if a != b {
            assert(0 <= a < keys.len() && 0 <= b < keys.len());
            assert(q.contains(a) && p.contains(b));
            let j = choose|j: int| 0 <= j < q.len() && q[j] == a;
            let i = choose|i: int| 0 <= i < p.len() && p[i] == b;
            if j < n - 1 {
                assert(p[j] == q[j]);
                assert(p[j] == p[n - 1]);
            }
            if i < n - 1 {
                assert(p[i] == q[i]);
                assert(q[i] == q[n - 1]);
            }
            assert(goes_before(keys, q[n - 1], q[j]));
            assert(goes_before(keys, p[n - 1], p[i]));
            before_is_strict(keys, a, b);
        }
    }
}

/// Merge two sorted lists of positions, the positions of `left` all being
/// smaller than those of `right`.
fn merge(keys: &Vec<Vec<char>>, left: &Vec<usize>, right: &Vec<usize>) -> (out: Vec<usize>)
    requires
        is_ordered(key_texts(keys@), index_ints(left@)),
        is_ordered(key_texts(keys@), index_ints(right@)),
        forall|i: int| 0 <= i < left@.len() ==> #[trigger] left@[i] < keys@.len(),
        forall|i: int| 0 <= i < right@.len() ==> #[trigger] right@[i] < keys@.len(),
        forall|i: int, j: int|
            0 <= i < left@.len() && 0 <= j < right@.len() ==> #[trigger] left@[i]
                < #[trigger] right@[j],
    ensures
        is_ordered(key_texts(keys@), index_ints(out@)),
        out@.len() == left@.len() + right@.len(),
        forall|i: int|
            0 <= i < out@.len() ==> left@.contains(#[trigger] out@[i]) || right@.contains(out@[i]),
{
    let ghost texts = key_texts(keys@);
    let ghost ls = index_ints(left@);
    let ghost rs = index_ints(right@);
    let mut out: Vec<usize> = Vec::new();
    let mut i: usize = 0;
    let mut j: usize = 0;
    while i < left.len() || j < right.len()
        invariant
            i <= left@.len(),
            j <= right@.len(),
            texts == key_texts(keys@),
            ls == index_ints(left@),
            rs == index_ints(right@),
            is_ordered(texts, ls),
            is_ordered(texts, rs),
            is_ordered(texts, index_ints(out@)),
            forall|k: int| 0 <= k < left@.len() ==> #[trigger] left@[k] < keys@.len(),
            forall|k: int| 0 <= k < right@.len() ==> #[trigger] right@[k] < keys@.len(),
            forall|k: int, l: int|
                0 <= k < left@.len() && 0 <= l < right@.len() ==> #[trigger] left@[k]
                    < #[trigger] right@[l],
            out@.len() == i + j,
            forall|k: int|
                0 <= k < out@.len() ==> left@.contains(#[trigger] out@[k]) || right@.contains(
                    out@[k],
                ),
            forall|k: int, l: int|
                0 <= k < out@.len() && i <= l < ls.len() ==> goes_before(
                    texts,
                    #[trigger] out@[k] as int,
                    #[trigger] ls[l],
                ),
            forall|k: int, l: int|
                0 <= k < out@.len() && j <= l < rs.len() ==> goes_before(
                    texts,
                    #[trigger] out@[k] as int,
                    #[trigger] rs[l],
                ),
        decreases left@.len() - i + right@.len() - j,
    {
        let ghost before = out@;
        let take_left: bool = if i >= left.len() {
            false
        } else if j >= right.len() {
            true
        } else {
            match rank_chars(&keys[left[i]], &keys[right[j]]) {
                Rank::After => false,
                _ => true,
            }
        };
        proof {
            if i < ls.len() && j < rs.len() {
                assert(ls[i as int] == left@[i as int] as int);
                assert(rs[j as int] == right@[j as int] as int);
                assert(texts[ls[i as int]] == keys@[left@[i as int] as int]@);
                assert(texts[rs[j as int]] == keys@[right@[j as int] as int]@);
                natural_order_is_antisymmetric(texts[ls[i as int]], texts[rs[j as int]]);
            }
        }
        if take_left {
            proof {
                assert forall|l: int| j <= l < rs.len() implies goes_before(
                    texts,
                    left@[i as int] as int,
                    #[trigger] rs[l],
                ) by {
                    assert(goes_before(texts, ls[i as int], rs[j as int]));
                    if l > j {
                        before_chains(texts, ls[i as int], rs[j as int], rs[l]);
                    }
                }
                assert forall|l: int| i + 1 <= l < ls.len() implies goes_before(
                    texts,
                    left@[i as int] as int,
                    #[trigger] ls[l],
                ) by {
                    assert(goes_before(texts, ls[i as int], ls[l]));
                }
                assert forall|k: int| 0 <= k < before.len() implies goes_before(
                    texts,
                    #[trigger] before[k] as int,
                    left@[i as int] as int,
                ) by {
                    assert(goes_before(texts, before[k] as int, ls[i as int]));
                }
            }
            out.push(left[i]);
            assert(left@.contains(left@[i as int]));
            i = i + 1;
        } else {
            proof {
                assert forall|l: int| i <= l < ls.len() implies goes_before(
                    texts,
                    right@[j as int] as int,
                    #[trigger] ls[l],
                ) by {
                    assert(goes_before(texts, rs[j as int], ls[i as int]));
                    if l > i {
                        before_chains(texts, rs[j as int], ls[i as int], ls[l]);
                    }
                }
                assert forall|l: int| j + 1 <= l < rs.len() implies goes_before(
                    texts,
                    right@[j as int] as int,
                    #[trigger] rs[l],
                ) by {
                    assert(goes_before(texts, rs[j as int], rs[l]));
                }
                assert forall|k: int| 0 <= k < before.len() implies goes_before(
                    texts,
                    #[trigger] before[k] as int,
                    right@[j as int] as int,
                ) by {
                    assert(goes_before(texts, before[k] as int, rs[j as int]));
                }
            }
            out.push(right[j]);
            assert(right@.contains(right@[j as int]));
            j = j + 1;
        }
        proof {
            let now = index_ints(out@);
            assert forall|k: int, l: int| 0 <= k < l < now.len() implies goes_before(
                texts,
                #[trigger] now[k],
                #[trigger] now[l],
            ) by {
                if l < before.len() {
                    assert(now[k] == index_ints(before)[k] && now[l] == index_ints(before)[l]);
                } else {
                    assert(now[k] == before[k] as int);
                }
            }
            assert forall|k: int| 0 <= k < out@.len() implies left@.contains(#[trigger] out@[k])
                || right@.contains(out@[k]) by {
                if k < before.len() {
                    assert(out@[k] == before[k]);
                }
            }
        }
    }
    out
}

/// The positions `lo..hi` in sorted order.
fn sort_range(keys: &Vec<Vec<char>>, lo: usize, hi: usize) -> (out: Vec<usize>)
    requires
        lo <= hi <= keys@.len(),
    ensures
        is_ordered(key_texts(keys@), index_ints(out@)),
        out@.len() == hi - lo,
        forall|i: int| 0 <= i < out@.len() ==> lo <= #[trigger] out@[i] < hi,
    decreases hi - lo,
{
    let mut out: Vec<usize> = Vec::new();
    if hi - lo == 0 {
        return out;
    }
    if hi - lo == 1 {
        out.push(lo);
        return out;
    }
    let mid: usize = lo + (hi - lo) / 2;
    let left = sort_range(keys, lo, mid);
    let right = sort_range(keys, mid, hi);
    let out = merge(keys, &left, &right);
    assert forall|i: int| 0 <= i < out@.len() implies lo <= #[trigger] out@[i] < hi by {
        if left@.contains(out@[i]) {
            let k = choose|k: int| 0 <= k < left@.len() && left@[k] == out@[i];
            assert(lo <= left@[k] < mid);
        } else {
            let k = choose|k: int| 0 <= k < right@.len() && right@[k] == out@[i];
            assert(mid <= right@[k] < hi);
        }
    }
    out
}

/// The positions of `keys` in natural order; equal keys keep their order.
pub fn natural_order(keys: &Vec<Vec<char>>) -> (out: Vec<usize>)
    ensures
        is_natural_order(key_texts(keys@), index_ints(out@)),
        index_ints(out@) == sorted_order(key_texts(keys@)),
        forall|i: int| 0 <= i < out@.len() ==> #[trigger] out@[i] < keys@.len(),
        out@.len() == keys@.len(),
{
    let out = sort_range(keys, 0, keys.len());
    proof {
        sorted_order_is(key_texts(keys@), index_ints(out@));
    }
    out
}

} // verus!
