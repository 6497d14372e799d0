//! The ranking funnel: drop disqualified photos, keep the best of each group of
//! duplicates, rank the rest by Overall, and keep the top of the list.

use vstd::prelude::*;
use vstd::set_lib::lemma_len_subset;

use crate::dedupe::{
    distance, duplicate_groups, group_indices, groups_are_sound, groups_do_not_overlap, linked,
    linked_photos_share_a_group, members_have_a_close_member, near_is_linked,
};
use crate::rank::{
    in_range, is_last_best, last_best, last_best_exists, last_best_is_unique, rank, ranked, ranking_falls,
    ranking_is_a_rearrangement, ranking_keeps_members,
};
use crate::select::{selected, selection_depends_on_the_condition, selection_is_exact};

verus! {

/// Result of running the full funnel down to a shortlist.
pub struct PipelineResult {
    pub total: usize,
    pub after_technical: usize,
    pub after_dedupe: usize,
    /// Entry indices, ranked by Overall score (best first), truncated to the
    /// requested shortlist size.
    pub shortlist: Vec<usize>,
}

/// What a run of the funnel found.
#[verifier::ext_equal]
pub struct Funnel {
    pub total: nat,
    pub after_technical: nat,
    pub after_dedupe: nat,
    pub shortlist: Seq<usize>,
}

impl View for PipelineResult {
    type V = Funnel;

    open spec fn view(&self) -> Funnel {
        Funnel {
            total: self.total as nat,
            after_technical: self.after_technical as nat,
            after_dedupe: self.after_dedupe as nat,
            shortlist: self.shortlist@,
        }
    }
}

/// The photos that were not dropped, in order.
pub open spec fn survivors_of(dropped: Seq<bool>) -> Seq<usize> {
    selected(dropped.len(), |i: int| !dropped[i])
}

/// What `values` holds at each of the places.
pub open spec fn values_at(values: Seq<u64>, at: Seq<usize>) -> Seq<u64> {
    Seq::new(at.len(), |i: int| values[at[i] as int])
}

/// The entries that stand at the given places of `list`.
pub open spec fn entries_at(list: Seq<usize>, at: Seq<usize>) -> Seq<usize> {
    Seq::new(at.len(), |i: int| list[at[i] as int])
}

/// The last of the entries with the greatest key.
pub open spec fn best_of(members: Seq<usize>, keys: Seq<u64>) -> usize {
    choose|v: usize| is_last_best(members, keys, v)
}

/// The best entry of each group.
pub open spec fn best_of_groups(
    groups: Seq<Seq<usize>>,
    list: Seq<usize>,
    keys: Seq<u64>,
) -> Seq<usize> {
    Seq::new(groups.len(), |g: int| best_of(entries_at(list, groups[g]), keys))
}

/// Whether place `p` belongs to a group.
pub open spec fn is_grouped(groups: Seq<Seq<usize>>, p: int) -> bool {
    exists|g: int| 0 <= g < groups.len() && (#[trigger] groups[g]).contains(p as usize)
}

/// The places below `n` that belong to no group.
pub open spec fn loners(groups: Seq<Seq<usize>>, n: nat) -> Seq<usize> {
    selected(n, |p: int| !is_grouped(groups, p))
}

/// The entries that are left once each group is down to its best: the best of
/// each group, then the photos without a group.
pub open spec fn keepers_of(
    survivors: Seq<usize>,
    hashes: Seq<u64>,
    keys: Seq<u64>,
    max_distance: u32,
) -> Seq<usize> {
    let groups = duplicate_groups(values_at(hashes, survivors), max_distance);
    best_of_groups(groups, survivors, keys) + entries_at(
        survivors,
        loners(groups, survivors.len()),
    )
}

/// The first `n` of a list, or all if there are fewer.
pub open spec fn top(list: Seq<usize>, n: int) -> Seq<usize> {
    if n < list.len() {
        list.take(n)
    } else {
        list
    }
}

/// The funnel over photos with the given Overall scores and hashes, some of
/// them disqualified.
pub open spec fn funnel_of(
    dropped: Seq<bool>,
    hashes: Seq<u64>,
    keys: Seq<u64>,
    max_distance: u32,
    top_n: int,
) -> Funnel {
    let survivors = survivors_of(dropped);
    let keepers = keepers_of(survivors, hashes, keys, max_distance);
    Funnel {
        total: dropped.len(),
        after_technical: survivors.len(),
        after_dedupe: keepers.len(),
        shortlist: top(ranked(keepers, keys), top_n),
    }
}

/// The photos that were not dropped.
fn surviving(dropped: &Vec<bool>) -> (r: Vec<usize>)
    ensures
        r@ == survivors_of(dropped@),
{
    let n: usize = dropped.len();
    let ghost keep = |i: int| !dropped@[i];
    let mut out: Vec<usize> = Vec::new();
    for i in 0..n
        invariant
            n == dropped@.len(),
            keep == (|i: int| !dropped@[i]),
            out@ == selected(i as nat, keep),
    {
        if !dropped[i] {
            out.push(i);
        }
    }
    out
}

/// Whether place `p` belongs to one of the first `g` groups, or to the first
/// `k` members of group `g`.
spec fn is_grouped_before(groups: Seq<Seq<usize>>, g: int, k: int, p: int) -> bool {
    ||| exists|h: int| 0 <= h < g && (#[trigger] groups[h]).contains(p as usize)
    ||| exists|j: int| 0 <= j < k && #[trigger] groups[g][j] == p as usize
}

/// Marks the places below `n` that belong to a group.
fn grouped_marks(
    groups: &Vec<Vec<usize>>,
    n: usize,
    Ghost(all): Ghost<Seq<Seq<usize>>>,
) -> (r: Vec<bool>)
    requires
        groups@.len() == all.len(),
        forall|g: int| 0 <= g < groups@.len() ==> (#[trigger] groups@[g])@ == all[g],
        forall|g: int| 0 <= g < all.len() ==> in_range(#[trigger] all[g], n as nat),
    ensures
        r@.len() == n,
        forall|p: int| 0 <= p < n ==> #[trigger] r@[p] == is_grouped(all, p),
{
    let mut marks: Vec<bool> = Vec::new();
    for i in 0..n
        invariant
            marks@.len() == i,
            forall|p: int| 0 <= p < i ==> !#[trigger] marks@[p],
    {
        marks.push(false);
    }
    let total: usize = groups.len();
    for g in 0..total
        invariant
            total == groups@.len(),
            total == all.len(),
            forall|g: int| 0 <= g < groups@.len() ==> (#[trigger] groups@[g])@ == all[g],
            forall|g: int| 0 <= g < all.len() ==> in_range(#[trigger] all[g], n as nat),
            marks@.len() == n,
            forall|p: int| 0 <= p < n ==> #[trigger] marks@[p] == is_grouped_before(all, g as int, 0, p),
    {
        let count: usize = groups[g].len();
        for k in 0..count
            invariant
                g < total == groups@.len(),
                total == all.len(),
                groups@[g as int]@ == all[g as int],
                in_range(all[g as int], n as nat),
                count == all[g as int].len(),
                marks@.len() == n,
                forall|p: int|
                    0 <= p < n ==> #[trigger] marks@[p] == is_grouped_before(
                        all,
                        g as int,
                        k as int,
                        p,
                    ),
        {
            let member: usize = groups[g][k];
            assert(member == all[g as int][k as int]);
            let ghost before = marks@;
            marks.set(member, true);
            assert forall|p: int| 0 <= p < n implies #[trigger] marks@[p] == is_grouped_before(
                all,
                g as int,
                k + 1,
                p,
            ) by {
                if p == member {
                    assert(all[g as int][k as int] == p as usize);
                } else {
                    assert(marks@[p] == before[p]);
                }
            }
        }
        assert forall|p: int| 0 <= p < n implies #[trigger] marks@[p] == is_grouped_before(
            all,
            g + 1,
            0,
            p,
        ) by {
            if exists|j: int| 0 <= j < count && #[trigger] all[g as int][j] == p as usize {
                assert(all[g as int].contains(p as usize));
            }
            if all[g as int].contains(p as usize) {
                let j = choose|j: int| 0 <= j < count && all[g as int][j] == p as usize;
                assert(all[g as int][j] == p as usize);
            }
        }
    }
    marks
}

/// The best entry of each group.
fn bests(
    groups: &Vec<Vec<usize>>,
    list: &Vec<usize>,
    keys: &Vec<u64>,
    Ghost(all): Ghost<Seq<Seq<usize>>>,
) -> (r: Vec<usize>)
    requires
        groups@.len() == all.len(),
        forall|g: int| 0 <= g < groups@.len() ==> (#[trigger] groups@[g])@ == all[g],
        forall|g: int|
            0 <= g < all.len() ==> in_range(#[trigger] all[g], list@.len()) && all[g].len() > 0,
        in_range(list@, keys@.len()),
    ensures
        r@ == best_of_groups(all, list@, keys@),
        in_range(r@, keys@.len()),
{
    let mut out: Vec<usize> = Vec::new();
    let total: usize = groups.len();
    for g in 0..total
        invariant
            total == groups@.len(),
            total == all.len(),
            forall|g: int| 0 <= g < groups@.len() ==> (#[trigger] groups@[g])@ == all[g],
            forall|g: int|
                0 <= g < all.len() ==> in_range(#[trigger] all[g], list@.len()) && all[g].len() > 0,
            in_range(list@, keys@.len()),
            in_range(out@, keys@.len()),
            out@ =~= best_of_groups(all, list@, keys@).take(g as int),
    {
        let members = entries(list, &groups[g]);
        assert(members@ == entries_at(list@, all[g as int]));
        assert(in_range(members@, keys@.len()));
        let best = last_best(&members, keys);
        if let Some(v) = best {
            proof {
                last_best_is_unique(members@, keys@, v, best_of(members@, keys@));
            }
            out.push(v);
        }
    }
    assert(best_of_groups(all, list@, keys@).take(total as int) =~= best_of_groups(
        all,
        list@,
        keys@,
    ));
    out
}

/// The entries that stand at the given places of `list`.
fn entries(list: &Vec<usize>, at: &Vec<usize>) -> (r: Vec<usize>)
    requires
        in_range(at@, list@.len()),
    ensures
        r@ == entries_at(list@, at@),
{
    let mut out: Vec<usize> = Vec::new();
    let n: usize = at.len();
    for i in 0..n
        invariant
            n == at@.len(),
            in_range(at@, list@.len()),
            out@ =~= entries_at(list@, at@).take(i as int),
    {
        out.push(list[at[i]]);
    }
    assert(entries_at(list@, at@).take(n as int) =~= entries_at(list@, at@));
    out
}

proof fn groups_in_range(hashes: Seq<u64>, max: u32)
    requires
        hashes.len() <= usize::MAX,
    ensures
        forall|g: int|
            0 <= g < duplicate_groups(hashes, max).len() ==> in_range(
                #[trigger] duplicate_groups(hashes, max)[g],
                hashes.len(),
            ) && duplicate_groups(hashes, max)[g].len() > 0,
{
    groups_are_sound(hashes, max);
}

/// The full funnel: drop disqualified photos, cluster survivors into groups of
/// duplicates and keep only the highest-Overall member of each (plus any
/// ungrouped photos), then rank the rest by Overall and keep the top.
pub fn funnel(
    dropped: &Vec<bool>,
    hashes: &Vec<u64>,
    keys: &Vec<u64>,
    max_distance: u32,
    top_n: usize,
) -> (r: PipelineResult)
    requires
        hashes@.len() == dropped@.len(),
        keys@.len() == dropped@.len(),
    ensures
        r@ == funnel_of(dropped@, hashes@, keys@, max_distance, top_n as int),
        in_range(r.shortlist@, keys@.len()),
{
    let total: usize = dropped.len();
    let survivors = surviving(dropped);
    proof {
        selection_is_exact(dropped@.len(), |i: int| !dropped@[i]);
    }
    assert(in_range(survivors@, total as nat));
    let after_technical: usize = survivors.len();
    let mut own: Vec<u64> = Vec::new();
    for i in 0..after_technical
        invariant
            after_technical == survivors@.len(),
            in_range(survivors@, hashes@.len()),
            own@ =~= values_at(hashes@, survivors@).take(i as int),
    {
        own.push(hashes[survivors[i]]);
    }
    assert(own@ =~= values_at(hashes@, survivors@));
    let groups = group_indices(&own, max_distance);
    let ghost all = duplicate_groups(own@, max_distance);
    proof {
        groups_in_range(own@, max_distance);
    }
    let mut keepers = bests(&groups, &survivors, keys, Ghost(all));
    let marks = grouped_marks(&groups, after_technical, Ghost(all));
    let ghost firsts = keepers@;
    let ghost alone = |p: int| !is_grouped(all, p);
    for p in 0..after_technical
        invariant
            after_technical == survivors@.len(),
            marks@.len() == after_technical,
            forall|p: int| 0 <= p < after_technical ==> #[trigger] marks@[p] == is_grouped(all, p),
            in_range(survivors@, keys@.len()),
            in_range(keepers@, keys@.len()),
            alone == (|p: int| !is_grouped(all, p)),
            keepers@ =~= firsts + entries_at(survivors@, selected(p as nat, alone)),
    {
        if !marks[p] {
            keepers.push(survivors[p]);
        }
    }
    assert(keepers@ == keepers_of(survivors@, hashes@, keys@, max_distance));
    let after_dedupe: usize = keepers.len();
    let mut shortlist = rank(&keepers, keys);
    if top_n < shortlist.len() {
        shortlist.truncate(top_n);
    }
    PipelineResult { total, after_technical, after_dedupe, shortlist }
}

/// The place among the survivors of keeper `k`: in its group if it is the best
/// of one, and without a group otherwise.
proof fn place_of_keeper(
    survivors: Seq<usize>,
    hashes: Seq<u64>,
    keys: Seq<u64>,
    max: u32,
    k: int,
) -> (p: usize)
    requires
        survivors.len() <= usize::MAX,
        0 <= k < keepers_of(survivors, hashes, keys, max).len(),
    ensures
        p < survivors.len(),
        survivors[p as int] == keepers_of(survivors, hashes, keys, max)[k],
        ({
            let groups = duplicate_groups(values_at(hashes, survivors), max);
            if k < groups.len() {
                &&& groups[k].contains(p)
                &&& forall|j: int|
                    0 <= j < groups[k].len() ==> keys[survivors[(
                    #[trigger] groups[k][j]) as int] as int] <= keys[survivors[p as int] as int]
            } else {
                &&& !is_grouped(groups, p as int)
                &&& k - groups.len() < loners(groups, survivors.len()).len()
                &&& p == loners(groups, survivors.len())[k - groups.len()]
            }
        }),
{
    let own = values_at(hashes, survivors);
    let groups = duplicate_groups(own, max);
    groups_in_range(own, max);
    let alone = |p: int| !is_grouped(groups, p);
    selection_is_exact(survivors.len(), alone);
    let rest = loners(groups, survivors.len());
    if k < groups.len() {
        let members = entries_at(survivors, groups[k]);
        let v = last_best_exists(members, keys);
        last_best_is_unique(members, keys, v, best_of(members, keys));
        let i = choose|i: int|
            0 <= i < members.len() && #[trigger] members[i] == v && (forall|j: int|
                0 <= j < members.len() ==> keys[#[trigger] members[j] as int] <= keys[v as int])
                && (forall|j: int|
                i < j < members.len() ==> keys[#[trigger] members[j] as int] < keys[v as int]);
        let p = groups[k][i];
        assert(groups[k].contains(p));
        assert forall|j: int| 0 <= j < groups[k].len() implies keys[survivors[(
        #[trigger] groups[k][j]) as int] as int] <= keys[survivors[p as int] as int] by {
            assert(members[j] == survivors[groups[k][j] as int]);
        }
        p
    } else {
        let p = rest[k - groups.len()];
        assert(alone(p as int));
        p
    }
}

/// Two keepers stand at different places, and those are not linked.
proof fn keepers_apart(
    survivors: Seq<usize>,
    hashes: Seq<u64>,
    keys: Seq<u64>,
    max: u32,
    k: int,
    l: int,
    p: usize,
    q: usize,
)
    requires
        survivors.len() <= usize::MAX,
        0 <= k < keepers_of(survivors, hashes, keys, max).len(),
        0 <= l < keepers_of(survivors, hashes, keys, max).len(),
        k != l,
        p < survivors.len(),
        q < survivors.len(),
        survivors.no_duplicates(),
        survivors[p as int] == keepers_of(survivors, hashes, keys, max)[k],
        survivors[q as int] == keepers_of(survivors, hashes, keys, max)[l],
    ensures
        p != q,
        !linked(values_at(hashes, survivors), max, p as int, q as int),
{
    let own = values_at(hashes, survivors);
    let groups = duplicate_groups(own, max);
    let a = place_of_keeper(survivors, hashes, keys, max, k);
    let b = place_of_keeper(survivors, hashes, keys, max, l);
    assert(a == p && b == q);
    let rest = loners(groups, survivors.len());
    let alone = |p: int| !is_grouped(groups, p);
    selection_is_exact(survivors.len(), alone);
    if p == q {
        if k < groups.len() && l < groups.len() {
            groups_do_not_overlap(own, max, k, l, p);
        } else if k >= groups.len() && l >= groups.len() {
            if k < l {
                assert(rest[k - groups.len()] < rest[l - groups.len()]);
            } else {
                assert(rest[l - groups.len()] < rest[k - groups.len()]);
            }
        }
    } else if linked(own, max, p as int, q as int) {
        linked_photos_share_a_group(own, max, p, q);
        let g = choose|g: int|
            0 <= g < groups.len() && (#[trigger] groups[g]).contains(p) && groups[g].contains(q);
        if k < groups.len() {
            groups_do_not_overlap(own, max, k, g, p);
        }
        if l < groups.len() {
            groups_do_not_overlap(own, max, l, g, q);
        }
    }
}

proof fn survivors_are_distinct(dropped: Seq<bool>)
    requires
        dropped.len() <= usize::MAX,
    ensures
        survivors_of(dropped).no_duplicates(),
        in_range(survivors_of(dropped), dropped.len()),
        survivors_of(dropped).len() <= dropped.len(),
        forall|i: int|
            0 <= i < survivors_of(dropped).len() ==> !dropped[#[trigger] survivors_of(
                dropped,
            )[i] as int],
{
    let s = survivors_of(dropped);
    selection_is_exact(dropped.len(), |i: int| !dropped[i]);
    assert forall|i: int, j: int| 0 <= i < s.len() && 0 <= j < s.len() && i != j implies s[i]
        != s[j] by {
        if i < j {
            assert(s[i] < s[j]);
        } else {
            assert(s[j] < s[i]);
        }
    }
}

proof fn keepers_are_distinct(
    survivors: Seq<usize>,
    hashes: Seq<u64>,
    keys: Seq<u64>,
    max: u32,
)
    requires
        survivors.len() <= usize::MAX,
        survivors.no_duplicates(),
    ensures
        keepers_of(survivors, hashes, keys, max).no_duplicates(),
        keepers_of(survivors, hashes, keys, max).len() <= survivors.len(),
        forall|k: int|
            0 <= k < keepers_of(survivors, hashes, keys, max).len() ==> survivors.contains(
                #[trigger] keepers_of(survivors, hashes, keys, max)[k],
            ),
{
    let kept = keepers_of(survivors, hashes, keys, max);
    assert forall|k: int| 0 <= k < kept.len() implies survivors.contains(#[trigger] kept[k]) by {
        let p = place_of_keeper(survivors, hashes, keys, max, k);
    }
    assert forall|k: int, l: int| 0 <= k < kept.len() && 0 <= l < kept.len() && k
        != l implies kept[k] != kept[l] by {
        let p = place_of_keeper(survivors, hashes, keys, max, k);
        let q = place_of_keeper(survivors, hashes, keys, max, l);
        keepers_apart(survivors, hashes, keys, max, k, l, p, q);
    }
    kept.unique_seq_to_set();
    survivors.unique_seq_to_set();
    assert(kept.to_set().subset_of(survivors.to_set()));
    lemma_len_subset(kept.to_set(), survivors.to_set());
}

/// The funnel only narrows: no stage passes on more photos than it got, and
/// the shortlist is no longer than asked for.
pub proof fn funnel_narrows(
    dropped: Seq<bool>,
    hashes: Seq<u64>,
    keys: Seq<u64>,
    max: u32,
    top_n: int,
)
    requires
        dropped.len() <= usize::MAX,
        0 <= top_n,
    ensures
        ({
            let f = funnel_of(dropped, hashes, keys, max, top_n);
            &&& f.after_technical <= f.total
            &&& f.after_dedupe <= f.after_technical
            &&& f.shortlist.len() == if top_n < f.after_dedupe {
                top_n
            } else {
                f.after_dedupe as int
            }
        }),
{
    let survivors = survivors_of(dropped);
    survivors_are_distinct(dropped);
    keepers_are_distinct(survivors, hashes, keys, max);
    ranking_is_a_rearrangement(keepers_of(survivors, hashes, keys, max), keys);
}

/// The shortlist runs from the highest Overall score to the lowest.
pub proof fn shortlist_is_ranked(
    dropped: Seq<bool>,
    hashes: Seq<u64>,
    keys: Seq<u64>,
    max: u32,
    top_n: int,
    i: int,
    j: int,
)
    requires
        0 <= top_n,
        0 <= i <= j < funnel_of(dropped, hashes, keys, max, top_n).shortlist.len(),
    ensures
        keys[funnel_of(dropped, hashes, keys, max, top_n).shortlist[i] as int]
            >= keys[funnel_of(dropped, hashes, keys, max, top_n).shortlist[j] as int],
{
    let kept = keepers_of(survivors_of(dropped), hashes, keys, max);
    ranking_falls(kept, keys);
    let order = ranked(kept, keys);
    assert(keys[order[i] as int] >= keys[order[j] as int]);
}

/// What is left off the shortlist for want of room is no better than anything
/// on it.
pub proof fn shortlist_holds_the_best(
    dropped: Seq<bool>,
    hashes: Seq<u64>,
    keys: Seq<u64>,
    max: u32,
    top_n: int,
    i: int,
    v: usize,
)
    requires
        0 <= top_n,
        0 <= i < funnel_of(dropped, hashes, keys, max, top_n).shortlist.len(),
        keepers_of(survivors_of(dropped), hashes, keys, max).contains(v),
        !funnel_of(dropped, hashes, keys, max, top_n).shortlist.contains(v),
    ensures
        keys[funnel_of(dropped, hashes, keys, max, top_n).shortlist[i] as int] >= keys[v as int],
{
    let kept = keepers_of(survivors_of(dropped), hashes, keys, max);
    let list = funnel_of(dropped, hashes, keys, max, top_n).shortlist;
    ranking_falls(kept, keys);
    ranking_keeps_members(kept, keys);
    let order = ranked(kept, keys);
    assert(order.contains(v));
    let j = choose|j: int| 0 <= j < order.len() && order[j] == v;
    if j < list.len() {
        assert(list[j] == v);
    }
    assert(keys[order[i] as int] >= keys[order[j] as int]);
}

/// No disqualified photo gets on the shortlist.
pub proof fn shortlist_has_no_rejects(
    dropped: Seq<bool>,
    hashes: Seq<u64>,
    keys: Seq<u64>,
    max: u32,
    top_n: int,
    i: int,
)
    requires
        dropped.len() <= usize::MAX,
        0 <= top_n,
        0 <= i < funnel_of(dropped, hashes, keys, max, top_n).shortlist.len(),
    ensures
        funnel_of(dropped, hashes, keys, max, top_n).shortlist[i] < dropped.len(),
        !dropped[funnel_of(dropped, hashes, keys, max, top_n).shortlist[i] as int],
{
    let survivors = survivors_of(dropped);
    let kept = keepers_of(survivors, hashes, keys, max);
    survivors_are_distinct(dropped);
    keepers_are_distinct(survivors, hashes, keys, max);
    ranking_keeps_members(kept, keys);
    let order = ranked(kept, keys);
    let v = order[i];
    assert(order.contains(v));
    assert(kept.contains(v));
    let k = choose|k: int| 0 <= k < kept.len() && kept[k] == v;
    assert(survivors.contains(kept[k]));
    let p = choose|p: int| 0 <= p < survivors.len() && survivors[p] == v;
    assert(survivors[p] < dropped.len());
}

/// The shortlist shows no photo twice and no two photos of one group: of
/// photos that are duplicates of each other, at most one gets on it.
pub proof fn shortlist_has_no_duplicates(
    dropped: Seq<bool>,
    hashes: Seq<u64>,
    keys: Seq<u64>,
    max: u32,
    top_n: int,
    i: int,
    j: int,
    p: usize,
    q: usize,
)
    requires
        dropped.len() <= usize::MAX,
        0 <= top_n,
        0 <= i < funnel_of(dropped, hashes, keys, max, top_n).shortlist.len(),
        0 <= j < funnel_of(dropped, hashes, keys, max, top_n).shortlist.len(),
        i != j,
        p < survivors_of(dropped).len(),
        q < survivors_of(dropped).len(),
        survivors_of(dropped)[p as int] == funnel_of(
            dropped,
            hashes,
            keys,
            max,
            top_n,
        ).shortlist[i],
        survivors_of(dropped)[q as int] == funnel_of(
            dropped,
            hashes,
            keys,
            max,
            top_n,
        ).shortlist[j],
    ensures
        funnel_of(dropped, hashes, keys, max, top_n).shortlist[i] != funnel_of(
            dropped,
            hashes,
            keys,
            max,
            top_n,
        ).shortlist[j],
        !linked(values_at(hashes, survivors_of(dropped)), max, p as int, q as int),
{
    broadcast use vstd::seq_lib::group_to_multiset_ensures;

    let survivors = survivors_of(dropped);
    let kept = keepers_of(survivors, hashes, keys, max);
    let order = ranked(kept, keys);
    survivors_are_distinct(dropped);
    keepers_are_distinct(survivors, hashes, keys, max);
    ranking_keeps_members(kept, keys);
    ranking_is_a_rearrangement(kept, keys);
    kept.lemma_multiset_has_no_duplicates();
    order.lemma_multiset_has_no_duplicates_conv();
    assert(order[i] != order[j]);
    assert(order.contains(order[i]) && order.contains(order[j]));
    assert(kept.contains(order[i]) && kept.contains(order[j]));
    let k = choose|k: int| 0 <= k < kept.len() && kept[k] == order[i];
    let l = choose|l: int| 0 <= l < kept.len() && kept[l] == order[j];
    keepers_apart(survivors, hashes, keys, max, k, l, p, q);
}

/// Dropping duplicates loses no picture: every photo that survives the cull is
/// kept, or is linked to a photo that is kept and scores at least as high.
pub proof fn every_survivor_is_represented(
    survivors: Seq<usize>,
    hashes: Seq<u64>,
    keys: Seq<u64>,
    max: u32,
    p: usize,
)
    requires
        survivors.len() <= usize::MAX,
        p < survivors.len(),
    ensures
        exists|k: int, q: int|
            {
                &&& 0 <= k < keepers_of(survivors, hashes, keys, max).len()
                &&& 0 <= q < survivors.len()
                &&& #[trigger] keepers_of(survivors, hashes, keys, max)[k]
                    == #[trigger] survivors[q]
                &&& q == p || linked(values_at(hashes, survivors), max, p as int, q)
                &&& keys[survivors[q] as int] >= keys[survivors[p as int] as int]
            },
{
    let own = values_at(hashes, survivors);
    let groups = duplicate_groups(own, max);
    let kept = keepers_of(survivors, hashes, keys, max);
    let alone = |p: int| !is_grouped(groups, p);
    selection_is_exact(survivors.len(), alone);
    let rest = loners(groups, survivors.len());
    if is_grouped(groups, p as int) {
        let g = choose|g: int| 0 <= g < groups.len() && (#[trigger] groups[g]).contains(p);
        let q = place_of_keeper(survivors, hashes, keys, max, g);
        let a = choose|a: int| 0 <= a < groups[g].len() && groups[g][a] == p;
        let b = choose|b: int| 0 <= b < groups[g].len() && groups[g][b] == q;
        groups_are_sound(own, max);
        assert(linked(own, max, groups[g][a] as int, groups[g][b] as int));
        assert(kept[g] == survivors[q as int]);
    } else {
        assert(alone(p as int));
        assert(rest.contains(p));
        let i = choose|i: int| 0 <= i < rest.len() && rest[i] == p;
        assert(kept[groups.len() + i] == survivors[p as int]);
    }
}

/// The first stage keeps exactly the photos that are not disqualified, in
/// order, and each counts once.
pub proof fn first_stage_keeps_the_qualified(dropped: Seq<bool>, d: bool, i: usize)
    requires
        dropped.len() < usize::MAX,
    ensures
        survivors_of(dropped).contains(i) <==> i < dropped.len() && !dropped[i as int],
        survivors_of(Seq::empty()).len() == 0,
        survivors_of(dropped.push(d)) == if d {
            survivors_of(dropped)
        } else {
            survivors_of(dropped).push(dropped.len() as usize)
        },
{
    let n = dropped.len();
    let keep = |k: int| !dropped[k];
    let more = dropped.push(d);
    let keep_more = |k: int| !more[k];
    selection_is_exact(n, keep);
    assert(keep(i as int) == !dropped[i as int]);
    assert forall|k: int| 0 <= k < n implies #[trigger] keep(k) == keep_more(k) by {
        assert(more[k] == dropped[k]);
    }
    selection_depends_on_the_condition(n, keep, keep_more);
    assert(keep_more(n as int) == !d);
}

/// What the funnel counts: all photos, those that are not disqualified, and
/// those that are left when each group is down to its best. With room for all
/// of them, exactly these are listed.
pub proof fn funnel_counts_its_stages(
    dropped: Seq<bool>,
    hashes: Seq<u64>,
    keys: Seq<u64>,
    max: u32,
    top_n: int,
)
    requires
        dropped.len() <= usize::MAX,
        dropped.len() <= top_n,
    ensures
        ({
            let f = funnel_of(dropped, hashes, keys, max, top_n);
            let kept = keepers_of(survivors_of(dropped), hashes, keys, max);
            &&& f.total == dropped.len()
            &&& f.after_technical == survivors_of(dropped).len()
            &&& f.after_dedupe == kept.len()
            &&& f.shortlist.len() == kept.len()
            &&& forall|v: usize| f.shortlist.contains(v) <==> kept.contains(v)
        }),
{
    let survivors = survivors_of(dropped);
    let kept = keepers_of(survivors, hashes, keys, max);
    survivors_are_distinct(dropped);
    selection_is_exact(dropped.len(), |i: int| !dropped[i]);
    keepers_are_distinct(survivors, hashes, keys, max);
    ranking_is_a_rearrangement(kept, keys);
    ranking_keeps_members(kept, keys);
}

/// Two photos whose hashes differ in no more bits than the limit are never both
/// on the shortlist.
pub proof fn close_photos_are_not_both_listed(
    dropped: Seq<bool>,
    hashes: Seq<u64>,
    keys: Seq<u64>,
    max: u32,
    top_n: int,
    i: int,
    j: int,
)
    requires
        dropped.len() <= usize::MAX,
        0 <= top_n,
        0 <= i < funnel_of(dropped, hashes, keys, max, top_n).shortlist.len(),
        0 <= j < funnel_of(dropped, hashes, keys, max, top_n).shortlist.len(),
        i != j,
    ensures
        ({
            let list = funnel_of(dropped, hashes, keys, max, top_n).shortlist;
            distance(hashes[list[i] as int], hashes[list[j] as int]) > max
        }),
{
    let list = funnel_of(dropped, hashes, keys, max, top_n).shortlist;
    let survivors = survivors_of(dropped);
    shortlist_has_no_rejects(dropped, hashes, keys, max, top_n, i);
    shortlist_has_no_rejects(dropped, hashes, keys, max, top_n, j);
    let keep = |k: int| !dropped[k];
    selection_is_exact(dropped.len(), keep);
    assert(keep(list[i] as int) && keep(list[j] as int));
    assert(survivors.contains(list[i]) && survivors.contains(list[j]));
    let p = choose|p: int| 0 <= p < survivors.len() && survivors[p] == list[i];
    let q = choose|q: int| 0 <= q < survivors.len() && survivors[q] == list[j];
    shortlist_has_no_duplicates(
        dropped,
        hashes,
        keys,
        max,
        top_n,
        i,
        j,
        p as usize,
        q as usize,
    );
    if distance(hashes[list[i] as int], hashes[list[j] as int]) <= max {
        near_is_linked(values_at(hashes, survivors), max, p, q);
    }
}

/// A photo that is not disqualified and close to no other such photo is listed,
/// if there is room for all.
pub proof fn lone_photos_are_listed(
    dropped: Seq<bool>,
    hashes: Seq<u64>,
    keys: Seq<u64>,
    max: u32,
    top_n: int,
    i: usize,
)
    requires
        dropped.len() <= usize::MAX,
        dropped.len() <= top_n,
        i < dropped.len(),
        !dropped[i as int],
        forall|j: int|
            0 <= j < dropped.len() && j != i && !#[trigger] dropped[j] ==> distance(
                hashes[i as int],
                hashes[j],
            ) > max,
    ensures
        funnel_of(dropped, hashes, keys, max, top_n).shortlist.contains(i),
{
    let survivors = survivors_of(dropped);
    let own = values_at(hashes, survivors);
    let groups = duplicate_groups(own, max);
    let kept = keepers_of(survivors, hashes, keys, max);
    let keep = |k: int| !dropped[k];
    selection_is_exact(dropped.len(), keep);
    assert(keep(i as int));
    assert(survivors.contains(i));
    let p = choose|p: int| 0 <= p < survivors.len() && survivors[p] == i;
    if is_grouped(groups, p) {
        let g = choose|g: int| 0 <= g < groups.len() && (#[trigger] groups[g]).contains(p as usize);
        members_have_a_close_member(own, max, g, p as usize);
        let q = choose|q: usize|
            #[trigger] groups[g].contains(q) && q != p as usize && q < own.len() && distance(
                own[p],
                own[q as int],
            ) <= max;
        let v = survivors[q as int];
        assert(keep(v as int));
        assert(!dropped[v as int]);
        assert(v != i);
        assert(false);
    }
    let rest = loners(groups, survivors.len());
    let alone = |k: int| !is_grouped(groups, k);
    selection_is_exact(survivors.len(), alone);
    assert(alone(p));
    assert(rest.contains(p as usize));
    let k = choose|k: int| 0 <= k < rest.len() && rest[k] == p as usize;
    assert(kept[groups.len() + k] == i);
    assert(kept.contains(i));
    funnel_counts_its_stages(dropped, hashes, keys, max, top_n);
}

/// Of the members of a group that score highest, the last is the best.
pub proof fn ties_go_to_the_last(members: Seq<usize>, keys: Seq<u64>, i: int)
    requires
        0 <= i < members.len(),
    ensures
        members.contains(best_of(members, keys)),
        keys[members[i] as int] <= keys[best_of(members, keys) as int],
        (forall|k: int| 0 <= k < members.len() ==> keys[#[trigger] members[k] as int]
            <= keys[members.last() as int]) ==> best_of(members, keys) == members.last(),
{
    let v = last_best_exists(members, keys);
    let b = best_of(members, keys);
    assert(is_last_best(members, keys, b));
    if forall|k: int| 0 <= k < members.len() ==> keys[#[trigger] members[k] as int]
        <= keys[members.last() as int] {
        let last = members.last();
        assert(members[members.len() - 1] == last);
        assert(is_last_best(members, keys, last));
        last_best_is_unique(members, keys, b, last);
    }
}

/// What is left of the photos comes in this order before it is ranked: the best
/// of each group, in the order of the groups, and then the photos without a
/// group, in the order they came.
pub proof fn bests_come_before_loners(
    survivors: Seq<usize>,
    hashes: Seq<u64>,
    keys: Seq<u64>,
    max: u32,
    k: int,
    l: int,
)
    requires
        survivors.len() <= usize::MAX,
        0 <= k <= l < keepers_of(survivors, hashes, keys, max).len(),
        forall|a: int, b: int|
            0 <= a < b < survivors.len() ==> #[trigger] survivors[a] < #[trigger] survivors[b],
    ensures
        ({
            let own = Seq::new(survivors.len(), |i: int| hashes[survivors[i] as int]);
            let groups = duplicate_groups(own, max);
            let kept = keepers_of(survivors, hashes, keys, max);
            &&& groups.len() <= kept.len()
            &&& k < groups.len() ==> exists|p: usize|
                #[trigger] groups[k].contains(p) && p < survivors.len() && survivors[p as int]
                    == kept[k]
            &&& k >= groups.len() && k < l ==> kept[k] < kept[l]
        }),
{
    let own = Seq::new(survivors.len(), |i: int| hashes[survivors[i] as int]);
    assert(values_at(hashes, survivors) =~= own);
    let groups = duplicate_groups(own, max);
    let kept = keepers_of(survivors, hashes, keys, max);
    let alone = |p: int| !is_grouped(groups, p);
    selection_is_exact(survivors.len(), alone);
    let rest = loners(groups, survivors.len());
    if k < groups.len() {
        let p = place_of_keeper(survivors, hashes, keys, max, k);
        assert(groups[k].contains(p));
    } else if k < l {
        let (a, b) = (k - groups.len(), l - groups.len());
        assert(rest[a] < rest[b]);
        assert(survivors[rest[a] as int] < survivors[rest[b] as int]);
        assert(kept[k] == survivors[rest[a] as int] && kept[l] == survivors[rest[b] as int]);
    }
}

} // verus!
