//! Stable ranking by a 64-bit key, largest first.
use vstd::prelude::*;

verus! {

broadcast use vstd::seq_lib::group_to_multiset_ensures;

/// Where an item with `key` goes among `s`: just after the last entry whose
/// key is at least `key` (scanning from the end past smaller keys).
pub open spec fn rank_pos<A>(s: Seq<(A, u64)>, key: u64) -> int
    decreases s.len(),
{
    if s.len() == 0 {
        0
    } else if s.last().1 >= key {
        s.len() as int
    } else {
        rank_pos(s.drop_last(), key)
    }
}

/// `s` with `x` placed after every entry whose key is at least its own.
pub open spec fn insert_ranked<A>(s: Seq<(A, u64)>, x: (A, u64)) -> Seq<(A, u64)> {
    s.insert(rank_pos(s, x.1), x)
}

/// The entries of `s` ordered by key, largest first; entries with equal
/// keys keep their order in `s` (a stable sort, descending).
pub open spec fn rank_desc<A>(s: Seq<(A, u64)>) -> Seq<(A, u64)>
    decreases s.len(),
{
    if s.len() == 0 {
        seq![]
    } else {
        insert_ranked(rank_desc(s.drop_last()), s.last())
    }
}

/// Keys never increase along `s`.
pub open spec fn is_desc<A>(s: Seq<(A, u64)>) -> bool {
    forall|i: int, j: int| 0 <= i < j < s.len() ==> s[i].1 >= s[j].1
}

pub proof fn lemma_rank_pos<A>(s: Seq<(A, u64)>, key: u64)
    requires
        is_desc(s),
    ensures
        0 <= rank_pos(s, key) <= s.len(),
        forall|i: int| 0 <= i < rank_pos(s, key) ==> s[i].1 >= key,
        forall|i: int| rank_pos(s, key) <= i < s.len() ==> s[i].1 < key,
    decreases s.len(),
{
    if s.len() > 0 {
        if s.last().1 >= key {
            assert forall|i: int| 0 <= i < s.len() implies s[i].1 >= key by {
                if i < s.len() - 1 {
                    assert(s[i].1 >= s[s.len() - 1].1);
                }
            }
        } else {
            let t = s.drop_last();
            assert(is_desc(t));
            lemma_rank_pos(t, key);
            assert forall|i: int| 0 <= i < rank_pos(s, key) implies s[i].1 >= key by {
                assert(s[i] == t[i]);
            }
            assert forall|i: int| rank_pos(s, key) <= i < s.len() implies s[i].1 < key by {
                if i < s.len() - 1 {
                    assert(s[i] == t[i]);
                }
            }
        }
    }
}

/// Placing an entry by its key keeps a descending sequence descending and
/// adds exactly that entry.
pub proof fn lemma_insert_ranked<A>(s: Seq<(A, u64)>, x: (A, u64))
    requires
        is_desc(s),
    ensures
        is_desc(insert_ranked(s, x)),
        insert_ranked(s, x).len() == s.len() + 1,
        insert_ranked(s, x).to_multiset() =~= s.to_multiset().insert(x),
{
    lemma_rank_pos(s, x.1);
    let p = rank_pos(s, x.1);
    let t = insert_ranked(s, x);
    assert forall|i: int, j: int| 0 <= i < j < t.len() implies t[i].1 >= t[j].1 by {
        if j < p {
            assert(t[i] == s[i] && t[j] == s[j]);
        } else if j == p {
            assert(t[i] == s[i]);
        } else if i < p {
            assert(t[i] == s[i] && t[j] == s[j - 1]);
        } else if i == p {
            assert(t[j] == s[j - 1]);
        } else {
            assert(t[i] == s[i - 1] && t[j] == s[j - 1]);
        }
    }
    assert(t.remove(p) =~= s);
    assert(t[p] == x);
    assert(t.to_multiset().count(x) > 0);
}

/// Ranking orders by key, largest first, and keeps every entry: the result
/// is a descending permutation of its input.
pub proof fn lemma_rank_desc<A>(s: Seq<(A, u64)>)
    ensures
        is_desc(rank_desc(s)),
        rank_desc(s).len() == s.len(),
        rank_desc(s).to_multiset() =~= s.to_multiset(),
    decreases s.len(),
{
    if s.len() > 0 {
        lemma_rank_desc(s.drop_last());
        lemma_insert_ranked(rank_desc(s.drop_last()), s.last());
        assert(s.drop_last().push(s.last()) =~= s);
    }
}

/// `p` lists every position of `keys` once, ordered by key, largest first,
/// with equal keys in the order of their positions: the stable descending
/// order of `keys` (there is exactly one such list).
pub open spec fn stable_order(keys: Seq<u64>, p: Seq<int>) -> bool {
    &&& p.len() == keys.len()
    &&& forall|i: int| 0 <= i < p.len() ==> 0 <= #[trigger] p[i] < keys.len()
    &&& forall|i: int, j: int| 0 <= i < j < p.len() ==> #[trigger] p[i] != #[trigger] p[j]
    &&& forall|i: int, j: int|
        0 <= i < j < p.len() ==> keys[#[trigger] p[i]] >= keys[#[trigger] p[j]]
    &&& forall|i: int, j: int|
        0 <= i < j < p.len() && keys[#[trigger] p[i]] == keys[#[trigger] p[j]] ==> p[i] < p[j]
}

/// The keys of `s`, in order.
pub open spec fn keys_of<A>(s: Seq<(A, u64)>) -> Seq<u64> {
    s.map_values(|x: (A, u64)| x.1)
}

/// Ranking is the stable descending sort: it lists the entries of `s` in the
/// stable descending order of their keys.
pub proof fn lemma_rank_desc_stable<A>(s: Seq<(A, u64)>) -> (p: Seq<int>)
    ensures
        stable_order(keys_of(s), p),
        rank_desc(s) == p.map_values(|k: int| s[k]),
    decreases s.len(),
{
    if s.len() == 0 {
        let p = Seq::<int>::empty();
        assert(rank_desc(s) =~= p.map_values(|k: int| s[k]));
        p
    } else {
        let t = s.drop_last();
        let pt = lemma_rank_desc_stable(t);
        lemma_rank_desc(t);
        lemma_rank_desc(s);
        let rt = rank_desc(t);
        let x = s.last();
        lemma_rank_pos(rt, x.1);
        let q = rank_pos(rt, x.1);
        let n1 = t.len() as int;
        let p = pt.insert(q, n1);
        let r = rank_desc(s);
        let ks = keys_of(s);
        let kt = keys_of(t);
        assert(r == rt.insert(q, x));
        assert forall|k: int| 0 <= k < n1 implies #[trigger] t[k] == s[k] && kt[k] == ks[k] by {}
        assert forall|i: int| 0 <= i < p.len() implies #[trigger] r[i] == s[p[i]] && 0 <= p[i]
            < s.len() by {
            if i < q {
                assert(p[i] == pt[i] && r[i] == rt[i]);
                assert(rt[i] == t[pt[i]]);
            } else if i > q {
                assert(p[i] == pt[i - 1] && r[i] == rt[i - 1]);
                assert(rt[i - 1] == t[pt[i - 1]]);
            }
        }
        assert(r =~= p.map_values(|k: int| s[k]));
        assert forall|i: int, j: int| 0 <= i < j < p.len() implies #[trigger] p[i] != #[trigger] p[j]
            && ks[p[i]] >= ks[p[j]] && (ks[p[i]] == ks[p[j]] ==> p[i] < p[j]) by {
            assert(r[i] == s[p[i]] && r[j] == s[p[j]]);
            assert(r[i].1 >= r[j].1);
            if i < q && j < q {
                assert(p[i] == pt[i] && p[j] == pt[j]);
                assert(kt[pt[i]] == ks[pt[i]] && kt[pt[j]] == ks[pt[j]]);
            } else if i < q && j == q {
                assert(p[i] == pt[i]);
            } else if i < q {
                assert(p[i] == pt[i] && p[j] == pt[j - 1]);
                assert(kt[pt[i]] == ks[pt[i]] && kt[pt[j - 1]] == ks[pt[j - 1]]);
            } else if i == q {
                assert(p[j] == pt[j - 1] && r[j] == rt[j - 1]);
                assert(rt[j - 1].1 < x.1);
            } else {
                assert(p[i] == pt[i - 1] && p[j] == pt[j - 1]);
                assert(kt[pt[i - 1]] == ks[pt[i - 1]] && kt[pt[j - 1]] == ks[pt[j - 1]]);
            }
        }
        p
    }
}

} // verus!
