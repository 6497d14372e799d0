//! Putting indices in order of a score, and picking the best of a list.

use vstd::prelude::*;

verus! {

/// `s`, known to be ranked, with `v` put behind every index whose key is at
/// least the key of `v`.
pub open spec fn insert_ranked(s: Seq<usize>, keys: Seq<u64>, v: usize) -> Seq<usize>
    decreases s.len(),
{
    if s.len() == 0 || keys[s.last() as int] >= keys[v as int] {
        s.push(v)
    } else {
        insert_ranked(s.drop_last(), keys, v).push(s.last())
    }
}

/// The indices of `order` by falling key; indices with equal keys keep the
/// order they had.
pub open spec fn ranked(order: Seq<usize>, keys: Seq<u64>) -> Seq<usize>
    decreases order.len(),
{
    if order.len() == 0 {
        order
    } else {
        insert_ranked(ranked(order.drop_last(), keys), keys, order.last())
    }
}

/// Every index stands for one of the keys.
pub open spec fn in_range(order: Seq<usize>, n: nat) -> bool {
    forall|i: int| 0 <= i < order.len() ==> #[trigger] order[i] < n
}

/// Whether `v` has the greatest key in `order`, and stands behind every other
/// index with that key.
pub open spec fn is_last_best(order: Seq<usize>, keys: Seq<u64>, v: usize) -> bool {
    exists|p: int|
        {
            &&& 0 <= p < order.len()
            &&& #[trigger] order[p] == v
            &&& forall|i: int|
                0 <= i < order.len() ==> keys[#[trigger] order[i] as int] <= keys[v as int]
            &&& forall|i: int|
                p < i < order.len() ==> keys[#[trigger] order[i] as int] < keys[v as int]
        }
}

proof fn insert_ranked_at(s: Seq<usize>, keys: Seq<u64>, v: usize, pos: int)
    requires
        0 <= pos <= s.len(),
        forall|j: int| pos <= j < s.len() ==> keys[#[trigger] s[j] as int] < keys[v as int],
        pos > 0 ==> keys[s[pos - 1] as int] >= keys[v as int],
    ensures
        insert_ranked(s, keys, v) == s.insert(pos, v),
    decreases s.len(),
{
    if pos == s.len() {
        assert(s.insert(pos, v) =~= s.push(v));
    } else {
        assert(s.last() == s[s.len() - 1]);
        assert forall|j: int| pos <= j < s.drop_last().len() implies keys[#[trigger] s.drop_last()[j] as int] < keys[v as int] by {
            assert(s.drop_last()[j] == s[j]);
        }
        insert_ranked_at(s.drop_last(), keys, v, pos);
        assert(s.drop_last().insert(pos, v).push(s.last()) =~= s.insert(pos, v));
    }
}

proof fn insert_ranked_keeps(s: Seq<usize>, keys: Seq<u64>, v: usize)
    ensures
        insert_ranked(s, keys, v).to_multiset() == s.to_multiset().insert(v),
        insert_ranked(s, keys, v).len() == s.len() + 1,
    decreases s.len(),
{
    broadcast use vstd::seq_lib::group_to_multiset_ensures;

    if s.len() == 0 || keys[s.last() as int] >= keys[v as int] {
    } else {
        insert_ranked_keeps(s.drop_last(), keys, v);
        assert(s.drop_last().push(s.last()) =~= s);
        assert(s.to_multiset() =~= s.drop_last().to_multiset().insert(s.last()));
        assert(insert_ranked(s, keys, v).to_multiset() =~= s.to_multiset().insert(v));
    }
}

/// Ranking loses no index, adds none, and repeats none.
pub proof fn ranking_is_a_rearrangement(order: Seq<usize>, keys: Seq<u64>)
    ensures
        ranked(order, keys).to_multiset() == order.to_multiset(),
        ranked(order, keys).len() == order.len(),
    decreases order.len(),
{
    broadcast use vstd::seq_lib::group_to_multiset_ensures;

    if order.len() > 0 {
        let t = order.drop_last();
        ranking_is_a_rearrangement(t, keys);
        insert_ranked_keeps(ranked(t, keys), keys, order.last());
        assert(t.push(order.last()) =~= order);
    }
}

/// Ranking keeps the members: an index is ranked exactly if it was listed.
pub proof fn ranking_keeps_members(order: Seq<usize>, keys: Seq<u64>)
    ensures
        forall|v: usize| ranked(order, keys).contains(v) <==> order.contains(v),
        forall|n: nat| in_range(order, n) ==> #[trigger] in_range(ranked(order, keys), n),
{
    broadcast use vstd::seq_lib::group_to_multiset_ensures;

    ranking_is_a_rearrangement(order, keys);
    let r = ranked(order, keys);
    assert forall|v: usize| r.contains(v) <==> order.contains(v) by {
        assert(r.to_multiset().count(v) > 0 <==> r.contains(v));
        assert(order.to_multiset().count(v) > 0 <==> order.contains(v));
    }
    assert forall|n: nat| in_range(order, n) implies #[trigger] in_range(r, n) by {
        assert forall|i: int| 0 <= i < r.len() implies #[trigger] r[i] < n by {
            assert(r.contains(r[i]));
            assert(order.contains(r[i]));
        }
    }
}

/// A ranking runs from the greatest key to the least.
pub proof fn ranking_falls(order: Seq<usize>, keys: Seq<u64>)
    ensures
        forall|i: int, j: int|
            0 <= i <= j < ranked(order, keys).len() ==> keys[#[trigger] ranked(order, keys)[i] as int]
                >= keys[#[trigger] ranked(order, keys)[j] as int],
    decreases order.len(),
{
    if order.len() > 0 {
        let t = ranked(order.drop_last(), keys);
        ranking_falls(order.drop_last(), keys);
        insert_falls(t, keys, order.last());
    }
}

proof fn insert_falls(s: Seq<usize>, keys: Seq<u64>, v: usize)
    requires
        forall|i: int, j: int|
            0 <= i <= j < s.len() ==> keys[#[trigger] s[i] as int] >= keys[#[trigger] s[j] as int],
    ensures
        forall|i: int, j: int|
            0 <= i <= j < insert_ranked(s, keys, v).len() ==> keys[#[trigger] insert_ranked(
                s,
                keys,
                v,
            )[i] as int] >= keys[#[trigger] insert_ranked(s, keys, v)[j] as int],
        forall|i: int|
            0 <= i < insert_ranked(s, keys, v).len() ==> {
                ||| #[trigger] insert_ranked(s, keys, v)[i] == v
                ||| s.contains(insert_ranked(s, keys, v)[i])
            },
    decreases s.len(),
{
    let r = insert_ranked(s, keys, v);
    if s.len() == 0 || keys[s.last() as int] >= keys[v as int] {
        assert forall|i: int| 0 <= i < r.len() implies #[trigger] r[i] == v || s.contains(r[i]) by {
            if i < s.len() {
                assert(r[i] == s[i]);
            }
        }
    } else {
        let t = s.drop_last();
        insert_falls(t, keys, v);
        let u = insert_ranked(t, keys, v);
        assert forall|i: int| 0 <= i < r.len() implies #[trigger] r[i] == v || s.contains(r[i]) by {
            if i < u.len() {
                assert(r[i] == u[i]);
                if u[i] != v {
                    assert(t.contains(u[i]));
                    let k = choose|k: int| 0 <= k < t.len() && t[k] == u[i];
                    assert(s[k] == u[i]);
                }
            } else {
                assert(r[i] == s[s.len() - 1]);
            }
        }
        assert forall|i: int, j: int| 0 <= i <= j < r.len() implies keys[#[trigger] r[i] as int]
            >= keys[#[trigger] r[j] as int] by {
            if j < u.len() {
                assert(r[i] == u[i] && r[j] == u[j]);
            } else if i < u.len() {
                assert(r[i] == u[i]);
                if u[i] != v {
                    assert(t.contains(u[i]));
                    let k = choose|k: int| 0 <= k < t.len() && t[k] == u[i];
                    assert(s[k] == u[i]);
                    assert(keys[s[k] as int] >= keys[s[s.len() - 1] as int]);
                }
            }
        }
    }
}

/// The indices of `order` by falling key, ties in the order they had.
pub fn rank(order: &Vec<usize>, keys: &Vec<u64>) -> (r: Vec<usize>)
    requires
        in_range(order@, keys@.len()),
    ensures
        r@ == ranked(order@, keys@),
        in_range(r@, keys@.len()),
        r@.len() == order@.len(),
{
    let mut out: Vec<usize> = Vec::new();
    let n: usize = order.len();
    for i in 0..n
        invariant
            n == order@.len(),
            in_range(order@, keys@.len()),
            in_range(out@, keys@.len()),
            out@ == ranked(order@.take(i as int), keys@),
            out@.len() == i,
    {
        let v: usize = order[i];
        let mut pos: usize = 0;
        let mut end: usize = out.len();
        proof {
            ranking_falls(order@.take(i as int), keys@);
        }
        while pos < end
            invariant
                pos <= end <= out@.len(),
                v < keys@.len(),
                in_range(out@, keys@.len()),
                forall|a: int, b: int|
                    0 <= a <= b < out@.len() ==> keys@[#[trigger] out@[a] as int]
                        >= keys@[#[trigger] out@[b] as int],
                forall|j: int|
                    0 <= j < pos ==> keys@[#[trigger] out@[j] as int] >= keys@[v as int],
                forall|j: int|
                    end <= j < out@.len() ==> keys@[#[trigger] out@[j] as int] < keys@[v as int],
            decreases end - pos,
        {
            let middle: usize = pos + (end - pos) / 2;
            if keys[out[middle]] < keys[v] {
                end = middle;
            } else {
                pos = middle + 1;
            }
        }
        proof {
            insert_ranked_at(out@, keys@, v, pos as int);
            assert(order@.take(i + 1).drop_last() =~= order@.take(i as int));
        }
        out.insert(pos, v);
    }
    assert(order@.take(n as int) =~= order@);
    out
}

/// The index with the greatest key, the last one listed if several share it;
/// none if the list is empty.
pub fn last_best(order: &Vec<usize>, keys: &Vec<u64>) -> (r: Option<usize>)
    requires
        in_range(order@, keys@.len()),
    ensures
        r is None <==> order@.len() == 0,
        r matches Some(v) ==> is_last_best(order@, keys@, v) && v < keys@.len(),
{
    if order.len() == 0 {
        return None;
    }
    let mut best: usize = 0;
    let n: usize = order.len();
    for i in 1..n
        invariant
            n == order@.len(),
            best < i,
            best < n,
            in_range(order@, keys@.len()),
            forall|j: int|
                0 <= j < i ==> keys@[#[trigger] order@[j] as int] <= keys@[order@[best as int] as int],
            forall|j: int|
                best < j < i ==> keys@[#[trigger] order@[j] as int] < keys@[order@[best as int] as int],
    {
        if keys[order[i]] >= keys[order[best]] {
            best = i;
        }
    }
    proof {
        let v = order@[best as int];
        assert(is_last_best(order@, keys@, v));
    }
    Some(order[best])
}

/// A list that is not empty has a last best index.
pub proof fn last_best_exists(order: Seq<usize>, keys: Seq<u64>) -> (v: usize)
    requires
        order.len() > 0,
    ensures
        is_last_best(order, keys, v),
        order.contains(v),
    decreases order.len(),
{
    let t = order.drop_last();
    let last = order.last();
    assert(order[order.len() - 1] == last);
    if t.len() == 0 {
        return last;
    }
    let b = last_best_exists(t, keys);
    let p = choose|p: int|
        0 <= p < t.len() && #[trigger] t[p] == b && (forall|i: int|
            0 <= i < t.len() ==> keys[#[trigger] t[i] as int] <= keys[b as int]) && (forall|
            i: int,
        |
            p < i < t.len() ==> keys[#[trigger] t[i] as int] < keys[b as int]);
    assert(order[p] == b);
    if keys[last as int] >= keys[b as int] {
        assert forall|i: int| 0 <= i < order.len() implies keys[#[trigger] order[i] as int]
            <= keys[last as int] by {
            if i < t.len() {
                assert(t[i] == order[i]);
            }
        }
        last
    } else {
        assert forall|i: int| 0 <= i < order.len() implies keys[#[trigger] order[i] as int]
            <= keys[b as int] by {
            if i < t.len() {
                assert(t[i] == order[i]);
            }
        }
        assert forall|i: int| p < i < order.len() implies keys[#[trigger] order[i] as int]
            < keys[b as int] by {
            if i < t.len() {
                assert(t[i] == order[i]);
            }
        }
        b
    }
}

/// A list has at most one last best index.
pub proof fn last_best_is_unique(order: Seq<usize>, keys: Seq<u64>, a: usize, b: usize)
    requires
        is_last_best(order, keys, a),
        is_last_best(order, keys, b),
    ensures
        a == b,
{
    let p = choose|p: int|
        0 <= p < order.len() && #[trigger] order[p] == a && (forall|i: int|
            0 <= i < order.len() ==> keys[#[trigger] order[i] as int] <= keys[a as int]) && (forall|
            i: int,
        |
            p < i < order.len() ==> keys[#[trigger] order[i] as int] < keys[a as int]);
    let q = choose|q: int|
        0 <= q < order.len() && #[trigger] order[q] == b && (forall|i: int|
            0 <= i < order.len() ==> keys[#[trigger] order[i] as int] <= keys[b as int]) && (forall|
            i: int,
        |
            q < i < order.len() ==> keys[#[trigger] order[i] as int] < keys[b as int]);
    assert(keys[order[p] as int] <= keys[b as int]);
    assert(keys[order[q] as int] <= keys[a as int]);
}

proof fn insert_position(s: Seq<usize>, keys: Seq<u64>, v: usize) -> (pos: int)
    ensures
        0 <= pos <= s.len(),
        forall|j: int| pos <= j < s.len() ==> keys[#[trigger] s[j] as int] < keys[v as int],
        pos > 0 ==> keys[s[pos - 1] as int] >= keys[v as int],
    decreases s.len(),
{
    if s.len() == 0 || keys[s.last() as int] >= keys[v as int] {
        s.len() as int
    } else {
        let t = s.drop_last();
        let pos = insert_position(t, keys, v);
        assert forall|j: int| pos <= j < s.len() implies keys[#[trigger] s[j] as int]
            < keys[v as int] by {
            if j < t.len() {
                assert(t[j] == s[j]);
            }
        }
        pos
    }
}

/// Ranking is stable: of two indices with equal keys, the one that was listed
/// first is ranked first.
pub proof fn ranking_is_stable(order: Seq<usize>, keys: Seq<u64>, i: int, j: int)
    requires
        0 <= i < j < ranked(order, keys).len(),
        keys[ranked(order, keys)[i] as int] == keys[ranked(order, keys)[j] as int],
    ensures
        exists|a: int, b: int|
            0 <= a < b < order.len() && #[trigger] order[a] == ranked(order, keys)[i]
                && #[trigger] order[b] == ranked(order, keys)[j],
    decreases order.len(),
{
    let t = order.drop_last();
    let v = order.last();
    let s = ranked(t, keys);
    let r = ranked(order, keys);
    let pos = insert_position(s, keys, v);
    insert_ranked_at(s, keys, v, pos);
    assert(r == s.insert(pos, v));
    assert(order[order.len() - 1] == v);
    if i == pos {
        assert(r[j] == s[j - 1]);
    } else if j == pos {
        assert(r[i] == s[i]);
        ranking_keeps_members(t, keys);
        assert(s.contains(s[i]));
        assert(t.contains(s[i]));
        let a = choose|a: int| 0 <= a < t.len() && t[a] == s[i];
        assert(order[a] == r[i] && order[order.len() - 1] == r[j]);
    } else {
        let k = if i < pos {
            i
        } else {
            i - 1
        };
        let l = if j < pos {
            j
        } else {
            j - 1
        };
        assert(r[i] == s[k] && r[j] == s[l]);
        ranking_is_stable(t, keys, k, l);
        let (a, b) = choose|a: int, b: int|
            0 <= a < b < t.len() && #[trigger] t[a] == s[k] && #[trigger] t[b] == s[l];
        assert(order[a] == r[i] && order[b] == r[j]);
    }
}

} // verus!
