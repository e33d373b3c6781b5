//! Stable ascending order of records by an `i64` key (their timestamps).

use vstd::prelude::*;
use crate::reporter::{
    count_false, is_permutation, lemma_count_false_all_true, lemma_count_false_update,
};
use crate::collector::{
    after, lemma_bytes_after_irreflexive, lemma_bytes_after_transitive, text_after,
};
use vstd::utf8::encode_utf8;

verus! {

/// `x` sorts no later than `y`: by key, then by index.
pub open spec fn key_le(x: (i64, usize), y: (i64, usize)) -> bool {
    x.0 < y.0 || (x.0 == y.0 && x.1 <= y.1)
}

pub open spec fn keys_sorted(s: Seq<(i64, usize)>) -> bool {
    forall|i: int, j: int| 0 <= i <= j < s.len() ==> key_le(s[i], s[j])
}

/// Calls `slice::sort` on (key, index) pairs. Claimed, as its documentation
/// says (tuples compare lexicographically): afterwards the vector holds the
/// same pairs, in ascending order.
#[verifier::external_body]
fn sort_keyed(v: &mut Vec<(i64, usize)>)
    ensures
        final(v)@.to_multiset() == old(v)@.to_multiset(),
        keys_sorted(final(v)@),
{
    v.sort();
}

/// `ord` visits the keys from smallest to largest, equal keys in index order.
pub open spec fn stable_asc(keys: Seq<i64>, ord: Seq<usize>) -> bool {
    forall|a: int, b: int|
        0 <= a < b < ord.len() ==> keys[ord[a] as int] < keys[ord[b] as int] || (keys[ord[a] as int]
            == keys[ord[b] as int] && ord[a] < ord[b])
}

/// Index `i` occurs in `ord`.
pub open spec fn listed(ord: Seq<usize>, i: int) -> bool {
    exists|a: int| 0 <= a < ord.len() && ord[a] == i
}

/// The pairs `(keys[i], i)`, in index order.
spec fn keyed(keys: Seq<i64>) -> Seq<(i64, usize)> {
    Seq::new(keys.len(), |i: int| (keys[i], i as usize))
}

/// No pair occurs twice among the keyed pairs: their indices differ.
proof fn lemma_keyed_once(keys: Seq<i64>, x: (i64, usize))
    requires
        keys.len() <= usize::MAX,
    ensures
        keyed(keys).to_multiset().count(x) <= 1,
        keyed(keys).to_multiset().count(x) == 1 ==> x.1 < keys.len() && x.0 == keys[x.1 as int],
    decreases keys.len(),
{
    broadcast use vstd::multiset::group_multiset_axioms;
    broadcast use vstd::seq_lib::to_multiset_build;

    if keys.len() == 0 {
        assert(keyed(keys) =~= Seq::<(i64, usize)>::empty());
        assert(keyed(keys).to_multiset() =~= vstd::multiset::Multiset::<(i64, usize)>::empty()) by {
            broadcast use vstd::seq_lib::to_multiset_len;
            broadcast use vstd::seq_lib::to_multiset_contains;

            assert forall|y: (i64, usize)| keyed(keys).to_multiset().count(y) == 0 by {
                assert(!keyed(keys).contains(y));
            }
        }
    } else {
        let d = keys.drop_last();
        let last = (keys.last(), (keys.len() - 1) as usize);
        lemma_keyed_once(d, x);
        assert(keyed(keys) =~= keyed(d).push(last));
        if x == last {
            broadcast use vstd::seq_lib::to_multiset_contains;

            assert(!keyed(d).contains(x)) by {
                if keyed(d).contains(x) {
                    let i = choose|i: int| 0 <= i < keyed(d).len() && keyed(d)[i] == x;
                    assert(keyed(d)[i].1 == i);
                }
            }
        }
    }
}

/// Two positions holding the same value make it occur at least twice.
proof fn lemma_twice<A>(s: Seq<A>, a: int, b: int)
    requires
        0 <= a < s.len(),
        0 <= b < s.len(),
        a != b,
        s[a] == s[b],
    ensures
        s.to_multiset().count(s[a]) >= 2,
{
    broadcast use vstd::multiset::group_multiset_axioms;
    broadcast use vstd::seq_lib::to_multiset_remove;
    broadcast use vstd::seq_lib::to_multiset_contains;

    let r = s.remove(a);
    let j = if b < a {
        b
    } else {
        b - 1
    };
    assert(r[j] == s[b]);
    assert(r.contains(s[a]));
    assert(r.to_multiset().count(s[a]) > 0);
    assert(r.to_multiset() == s.to_multiset().remove(s[a]));
}

/// The stable order of indices by ascending key: the order a stable sort by
/// key would put the records in.
pub fn stable_order_asc(keys: &Vec<i64>) -> (ord: Vec<usize>)
    ensures
        is_permutation(ord@, keys@.len()),
        stable_asc(keys@, ord@),
        forall|i: int| 0 <= i < keys@.len() ==> #[trigger] listed(ord@, i),
{
    let n = keys.len();
    let mut pairs: Vec<(i64, usize)> = Vec::new();
    let mut i: usize = 0;
    while i < n
        invariant
            n == keys@.len(),
            i <= n,
            pairs@ =~= keyed(keys@).take(i as int),
        decreases n - i,
    {
        pairs.push((keys[i], i));
        i = i + 1;
    }
    assert(pairs@ =~= keyed(keys@));
    let ghost before = pairs@;
    sort_keyed(&mut pairs);
    let ghost q = pairs@;
    proof {
        broadcast use vstd::seq_lib::to_multiset_len;

        assert(q.to_multiset().len() == before.to_multiset().len());
        assert(q.len() == before.len());
    }
    // each sorted pair is some `(keys[i], i)`
    assert forall|a: int| 0 <= a < q.len() implies (#[trigger] q[a]).1 < n && q[a].0
        == keys@[q[a].1 as int] by {
        broadcast use vstd::seq_lib::to_multiset_contains;

        assert(q.contains(q[a]));
        assert(q.to_multiset().count(q[a]) > 0);
        lemma_keyed_once(keys@, q[a]);
    }
    // no pair twice
    assert forall|a: int, b: int| 0 <= a < b < q.len() implies #[trigger] q[a] != #[trigger] q[b] by {
        if q[a] == q[b] {
            lemma_twice(q, a, b);
            lemma_keyed_once(keys@, q[a]);
        }
    }
    let mut ord: Vec<usize> = Vec::new();
    let mut k: usize = 0;
    while k < n
        invariant
            n == keys@.len(),
            q == pairs@,
            q.len() == n,
            k <= n,
            ord@.len() == k,
            forall|a: int| 0 <= a < k ==> #[trigger] ord@[a] == q[a].1,
        decreases n - k,
    {
        ord.push(pairs[k].1);
        k = k + 1;
    }
    // every `(keys[i], i)` is among the sorted pairs
    assert forall|i: int| 0 <= i < n implies #[trigger] listed(ord@, i) by {
        broadcast use vstd::seq_lib::to_multiset_contains;

        let x = keyed(keys@)[i];
        assert(keyed(keys@).contains(x));
        assert(keyed(keys@).to_multiset().count(x) > 0);
        assert(q.to_multiset().count(x) > 0);
        assert(q.contains(x));
        let a = choose|a: int| 0 <= a < q.len() && q[a] == x;
        assert(ord@[a] == i);
    }
    assert forall|a: int, b: int| 0 <= a < b < ord@.len() implies ord@[a] != ord@[b] && (keys@[ord@[a] as int]
        < keys@[ord@[b] as int] || (keys@[ord@[a] as int] == keys@[ord@[b] as int] && ord@[a] < ord@[b])) by {
        assert(q[a] != q[b]);
        assert(key_le(q[a], q[b]));
        assert(q[a].0 == keys@[q[a].1 as int]);
        assert(q[b].0 == keys@[q[b].1 as int]);
    }
    ord
}

/// `ord` visits the names in ascending (byte-wise) order, equal names in
/// index order.
pub open spec fn names_ascending(names: Seq<Seq<char>>, ord: Seq<usize>) -> bool {
    forall|a: int, b: int|
        0 <= a < b < ord.len() ==> !text_after(names[ord[a] as int], names[ord[b] as int]) && (
        names[ord[a] as int] == names[ord[b] as int] ==> ord[a] < ord[b])
}

/// The stable order of indices by ascending name, names compared as `String`s
/// are (by their UTF-8 bytes).
pub fn stable_name_order(names: &Vec<String>) -> (ord: Vec<usize>)
    ensures
        is_permutation(ord@, names@.len()),
        names_ascending(names.deep_view(), ord@),
{
    let ghost nv = names.deep_view();
    let m = names.len();
    let mut picked: Vec<bool> = Vec::new();
    let mut z: usize = 0;
    while z < m
        invariant
            z <= m,
            picked@.len() == z,
            count_false(picked@) == z,
            forall|k: int| 0 <= k < z ==> !#[trigger] picked@[k],
        decreases m - z,
    {
        let ghost before = picked@;
        picked.push(false);
        assert(picked@.drop_last() =~= before);
        z = z + 1;
    }
    let mut ord: Vec<usize> = Vec::new();
    loop
        invariant
            nv == names.deep_view(),
            m == nv.len(),
            picked@.len() == m,
            ord@.len() + count_false(picked@) == m,
            forall|a: int| 0 <= a < ord@.len() ==> #[trigger] ord@[a] < m,
            forall|a: int, b: int| 0 <= a < b < ord@.len() ==> ord@[a] != ord@[b],
            forall|a: int| 0 <= a < ord@.len() ==> picked@[#[trigger] ord@[a] as int],
            names_ascending(nv, ord@),
            forall|a: int, k: int|
                0 <= a < ord@.len() && 0 <= k < m && !#[trigger] picked@[k] ==> !text_after(
                    nv[#[trigger] ord@[a] as int],
                    nv[k],
                ) && (nv[ord@[a] as int] == nv[k] ==> ord@[a] < k),
        decreases count_false(picked@),
    {
        // the first unpicked index with the smallest name
        let mut best: usize = m;
        let mut k: usize = 0;
        while k < m
            invariant
                nv == names.deep_view(),
                m == nv.len(),
                picked@.len() == m,
                k <= m,
                best == m || (best < k && !picked@[best as int]),
                best == m ==> forall|t: int| 0 <= t < k ==> picked@[t],
                best < m ==> forall|t: int|
                    0 <= t < k && !picked@[t] ==> !text_after(nv[best as int], nv[t]) && (nv[best as int]
                        == nv[t] ==> best <= t),
            decreases m - k,
        {
            proof {
                lemma_bytes_after_irreflexive(encode_utf8(nv[k as int]));
            }
            if !picked[k] {
                if best == m {
                    best = k;
                } else {
                    let x = names[best].as_str().as_bytes();
                    let y = names[k].as_str().as_bytes();
                    if after(x, y) {
                        proof {
                            assert forall|t: int| 0 <= t < k && !picked@[t] implies !text_after(
                                nv[k as int],
                                nv[t],
                            ) && (nv[k as int] == nv[t] ==> k <= t) by {
                                if text_after(nv[k as int], nv[t]) {
                                    lemma_bytes_after_transitive(
                                        encode_utf8(nv[best as int]),
                                        encode_utf8(nv[k as int]),
                                        encode_utf8(nv[t]),
                                    );
                                }
                            }
                        }
                        best = k;
                    }
                }
            }
            k = k + 1;
        }
        if best == m {
            proof {
                lemma_count_false_all_true(picked@);
            }
            return ord;
        }
        let ghost old_ord = ord@;
        proof {
            lemma_count_false_update(picked@, best as int);
        }
        picked.set(best, true);
        ord.push(best);
        assert(ord@[old_ord.len() as int] == best);
    }
}

} // verus!
