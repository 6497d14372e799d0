//! What the window shows: the order of the grid, the groups, the counts, and
//! which buttons can be pressed.

use std::collections::HashMap;

use vstd::prelude::*;

use crate::app::{AppState, Entry, Photo2CullApp, SortBy};
use crate::culling::{is_rejected, overall_keys};
use crate::fixed::ONE;
use crate::pipeline::best_of;
use crate::rank::{
    in_range, last_best, last_best_is_unique, rank, ranked, ranking_falls,
    ranking_is_a_rearrangement, ranking_is_stable, ranking_keeps_members,
};
use crate::select::{first_indices, indices};
use crate::sharpness::PhotoMode;

verus! {

broadcast use vstd::std_specs::hash::group_hash_axioms;

/// How sharp a photo looks, by its raw sharpness score.
#[derive(Debug, Clone, Copy, PartialEq, Eq, Structural)]
pub enum Bucket {
    Blurry,
    Soft,
    Sharp,
}

/// The bucket of a raw sharpness score.
pub open spec fn bucket_of(raw: u64) -> Bucket {
    if raw <= 40 * ONE {
        Bucket::Blurry
    } else if raw <= 100 * ONE {
        Bucket::Soft
    } else {
        Bucket::Sharp
    }
}

/// A score of forty or less is blurry, one above a hundred is sharp, and what
/// lies between is soft.
pub proof fn buckets_rise_with_sharpness(raw: u64)
    ensures
        bucket_of(raw) == Bucket::Blurry <==> raw < 40_000_000_001,
        bucket_of(raw) == Bucket::Sharp <==> raw > 100_000_000_000,
{
}

/// The bucket of a raw sharpness score (in billionths): up to 40 is blurry, up
/// to 100 soft.
pub fn sharpness_bucket(raw: u64) -> (r: Bucket)
    ensures
        r == (if raw <= 40 * ONE {
            Bucket::Blurry
        } else if raw <= 100 * ONE {
            Bucket::Soft
        } else {
            Bucket::Sharp
        }),
        r == bucket_of(raw),
{
    if raw <= 40 * ONE {
        Bucket::Blurry
    } else if raw <= 100 * ONE {
        Bucket::Soft
    } else {
        Bucket::Sharp
    }
}

/// Keys that fall as the sharpness scores rise.
pub open spec fn blur_keys(entries: Seq<Entry>) -> Seq<u64> {
    entries.map_values(|e: Entry| (u64::MAX - e.score) as u64)
}

/// The state once the user has picked the type of a photo: if that changes it,
/// its scores are stale.
pub open spec fn retyped(s: AppState, idx: int, mode: PhotoMode) -> AppState {
    if s.entries[idx].mode == mode {
        s
    } else {
        AppState {
            entries: s.entries.update(idx, Entry { mode, dirty: true, ..s.entries[idx] }),
            ..s
        }
    }
}

/// A photo has the type that the user picks, and its scores are stale exactly
/// if they were or if that changed its type. They stay what they were until
/// they are recalculated, and so do the other photos.
pub proof fn picking_a_type_makes_scores_stale(s: AppState, idx: int, mode: PhotoMode, i: int)
    requires
        0 <= idx < s.entries.len(),
        0 <= i < s.entries.len(),
    ensures
        ({
            let r = retyped(s, idx, mode);
            let (e, f) = (s.entries[idx], r.entries[idx]);
            &&& r.entries.len() == s.entries.len()
            &&& f.mode == mode
            &&& f.dirty <==> e.dirty || e.mode != mode
            &&& f.score == e.score && f.metrics == e.metrics && f.manual_dq == e.manual_dq
            &&& f.id == e.id && f.path == e.path && f.phash == e.phash
            &&& i != idx ==> r.entries[i] == s.entries[i]
            &&& r == (AppState { entries: r.entries, ..s })
        }),
{
}

/// Whether a scan can be started.
pub open spec fn is_scannable(s: AppState) -> bool {
    s.roots.len() > 0 && !s.scanning
}

/// Whether a recalculation can be started.
pub open spec fn is_recomputable(s: AppState) -> bool {
    count_of(s.entries, |e: Entry| e.dirty) > 0 && !s.recomputing
}

/// Whether duplicates can be grouped, or photos ranked.
pub open spec fn is_groupable(s: AppState) -> bool {
    s.entries.len() > 0 && !s.scanning
}

/// Whether something is going on in the background.
pub open spec fn is_working(s: AppState) -> bool {
    s.scanning || s.recomputing || s.moving || (s.viewer matches Some(v) && !v.loaded)
}

/// Whether the results were scored by another method than the chosen one.
pub open spec fn is_method_stale(s: AppState) -> bool {
    s.sharpness_method != s.scanned_method && s.entries.len() > 0
}

/// What the user can do. A scan needs a folder and grouping a photo, and neither
/// starts while a scan runs; a recalculation needs a stale score and starts
/// only once at a time. A session that has just been opened, or in which a scan
/// has begun with nothing found yet, offers nothing to group, move or
/// recalculate, and no result is of another method.
pub proof fn buttons_follow_the_state(s: AppState)
    ensures
        s.scanning ==> !is_scannable(s) && !is_groupable(s) && !is_movable(s) && is_working(s),
        s.recomputing ==> !is_recomputable(s) && !is_movable(s) && is_working(s),
        s.moving ==> !is_movable(s) && is_working(s),
        !s.scanning && s.roots.len() > 0 ==> is_scannable(s),
        !s.scanning && s.entries.len() > 0 ==> is_groupable(s),
        !s.recomputing ==> (is_recomputable(s) <==> exists|i: int|
            0 <= i < s.entries.len() && (#[trigger] s.entries[i]).dirty),
        s.viewer is Some && !s.viewer->0.loaded ==> is_working(s),
        !s.scanning && !s.recomputing && !s.moving && (s.viewer is None || s.viewer->0.loaded)
            ==> !is_working(s),
        s.roots.len() == 0 ==> !is_scannable(s),
        s.entries.len() == 0 ==> !is_groupable(s) && !is_movable(s) && !is_recomputable(s)
            && !is_method_stale(s),
        s.entries.len() > 0 ==> (is_method_stale(s) <==> s.sharpness_method != s.scanned_method),
{
    let dirty = |e: Entry| e.dirty;
    something_counts(s.entries, dirty);
    something_counts(s.entries, |e: Entry| is_rejected(e, s.cull_threshold));
    if count_of(s.entries, dirty) > 0 {
        let i = choose|i: int| 0 <= i < s.entries.len() && dirty(#[trigger] s.entries[i]);
        assert(s.entries[i].dirty);
    }
    if exists|i: int| 0 <= i < s.entries.len() && (#[trigger] s.entries[i]).dirty {
        let i = choose|i: int| 0 <= i < s.entries.len() && (#[trigger] s.entries[i]).dirty;
        assert(dirty(s.entries[i]));
    }
}

/// Whether disqualified photos can be moved.
pub open spec fn is_movable(s: AppState) -> bool {
    &&& count_of(s.entries, |e: Entry| is_rejected(e, s.cull_threshold)) > 0
    &&& count_of(s.entries, |e: Entry| e.dirty) == 0
    &&& !s.moving
    &&& !s.scanning
    &&& !s.recomputing
}

/// Photos can be moved exactly if some photo is disqualified, no score is
/// stale, and no move, scan or recalculation is going on.
pub proof fn moves_wait_for_fresh_scores(s: AppState)
    ensures
        is_movable(s) <==> ({
            &&& exists|i: int|
                0 <= i < s.entries.len() && is_rejected(#[trigger] s.entries[i], s.cull_threshold)
            &&& forall|i: int| 0 <= i < s.entries.len() ==> !(#[trigger] s.entries[i]).dirty
            &&& !(s.moving || s.scanning || s.recomputing)
        }),
{
    let rejected = |e: Entry| is_rejected(e, s.cull_threshold);
    let dirty = |e: Entry| e.dirty;
    something_counts(s.entries, rejected);
    something_counts(s.entries, dirty);
    if count_of(s.entries, rejected) > 0 {
        let i = choose|i: int| 0 <= i < s.entries.len() && rejected(#[trigger] s.entries[i]);
        assert(is_rejected(s.entries[i], s.cull_threshold));
    }
    if exists|i: int|
        0 <= i < s.entries.len() && is_rejected(#[trigger] s.entries[i], s.cull_threshold) {
        let i = choose|i: int|
            0 <= i < s.entries.len() && is_rejected(#[trigger] s.entries[i], s.cull_threshold);
        assert(rejected(s.entries[i]));
    }
    if count_of(s.entries, dirty) > 0 {
        let i = choose|i: int| 0 <= i < s.entries.len() && dirty(#[trigger] s.entries[i]);
        assert(s.entries[i].dirty);
    }
    if exists|i: int| 0 <= i < s.entries.len() && (#[trigger] s.entries[i]).dirty {
        let i = choose|i: int| 0 <= i < s.entries.len() && (#[trigger] s.entries[i]).dirty;
        assert(dirty(s.entries[i]));
    }
}

/// The order of the flat grid: by sharpness the worst first (what should be
/// culled), by Overall the best first; ties as scanned.
pub open spec fn grid_order(s: AppState) -> Seq<usize> {
    ranked(
        first_indices(s.entries.len()),
        match s.sort_by {
            SortBy::Sharpness => blur_keys(s.entries),
            SortBy::Overall => overall_keys(s.entries, s.weights),
        },
    )
}

/// How many of the entries satisfy a condition.
pub open spec fn count_of(entries: Seq<Entry>, condition: spec_fn(Entry) -> bool) -> int
    decreases entries.len(),
{
    if entries.len() == 0 {
        0
    } else {
        count_of(entries.drop_last(), condition) + if condition(entries.last()) {
            1int
        } else {
            0int
        }
    }
}

/// The lowest score.
pub open spec fn lowest(entries: Seq<Entry>) -> u64
    decreases entries.len(),
{
    if entries.len() <= 1 {
        entries[0].score
    } else if lowest(entries.drop_last()) < entries.last().score {
        lowest(entries.drop_last())
    } else {
        entries.last().score
    }
}

/// The highest score.
pub open spec fn highest(entries: Seq<Entry>) -> u64
    decreases entries.len(),
{
    if entries.len() <= 1 {
        entries[0].score
    } else if highest(entries.drop_last()) > entries.last().score {
        highest(entries.drop_last())
    } else {
        entries.last().score
    }
}

/// The place of the last entry with a number, if there is one.
pub open spec fn last_with(entries: Seq<Entry>, id: u64) -> Option<usize>
    decreases entries.len(),
{
    if entries.len() == 0 {
        None
    } else if entries.last().id == id {
        Some((entries.len() - 1) as usize)
    } else {
        last_with(entries.drop_last(), id)
    }
}

/// The places of those of the photos that are still there.
pub open spec fn present_members(entries: Seq<Entry>, ids: Seq<u64>) -> Seq<usize>
    decreases ids.len(),
{
    if ids.len() == 0 {
        Seq::empty()
    } else {
        let before = present_members(entries, ids.drop_last());
        match last_with(entries, ids.last()) {
            Some(i) => before.push(i),
            None => before,
        }
    }
}

/// A group as it is shown: its number, its members and the best of them.
#[verifier::ext_equal]
pub struct GroupShown {
    pub number: int,
    pub members: Seq<usize>,
    pub best: usize,
}

/// A group as it is shown.
pub struct GroupView {
    /// Counted from one.
    pub number: usize,
    /// Entry indices.
    pub members: Vec<usize>,
    /// The member with the highest Overall score.
    pub best: usize,
}

impl View for GroupView {
    type V = GroupShown;

    open spec fn view(&self) -> GroupShown {
        GroupShown { number: self.number as int, members: self.members@, best: self.best }
    }
}

/// The groups as shown: those that have dissolved to fewer than two photos
/// still present are skipped.
pub open spec fn groups_shown(
    groups: Seq<Seq<u64>>,
    entries: Seq<Entry>,
    keys: Seq<u64>,
) -> Seq<GroupShown>
    decreases groups.len(),
{
    if groups.len() == 0 {
        Seq::empty()
    } else {
        let before = groups_shown(groups.drop_last(), entries, keys);
        let members = present_members(entries, groups.last());
        if members.len() < 2 {
            before
        } else {
            before.push(
                GroupShown { number: groups.len() as int, members, best: best_of(members, keys) },
            )
        }
    }
}

/// The number of photos in all groups.
pub open spec fn grouped_total(groups: Seq<Seq<u64>>) -> int
    decreases groups.len(),
{
    if groups.len() == 0 {
        0
    } else {
        grouped_total(groups.drop_last()) + groups.last().len()
    }
}

/// What a map holds for a number.
pub open spec fn place_of(map: Map<u64, usize>, id: u64) -> Option<usize> {
    if map.dom().contains(id) {
        Some(map[id])
    } else {
        None
    }
}

/// Whether a map holds the place of the last entry of each number.
pub open spec fn is_place_map(map: Map<u64, usize>, entries: Seq<Entry>) -> bool {
    forall|id: u64| #[trigger] place_of(map, id) == last_with(entries, id)
}

proof fn last_with_bounds(entries: Seq<Entry>, id: u64)
    ensures
        last_with(entries, id) matches Some(i) ==> entries.len() <= usize::MAX ==> i
            < entries.len() && entries[i as int].id == id,
    decreases entries.len(),
{
    if entries.len() > 0 {
        last_with_bounds(entries.drop_last(), id);
    }
}

impl Photo2CullApp {
    /// The order of the flat grid.
    pub fn flat_order(&self) -> (r: Vec<usize>)
        ensures
            r@ == grid_order(self@),
            in_range(r@, self@.entries.len()),
    {
        let n: usize = self.entries.len();
        let keys: Vec<u64> = match self.sort_by {
            SortBy::Sharpness => {
                let mut blur: Vec<u64> = Vec::new();
                for i in 0..n
                    invariant
                        n == self.entries@.len(),
                        blur@ =~= blur_keys(self@.entries).take(i as int),
                {
                    assert(self@.entries[i as int] == self.entries@[i as int]@);
                    blur.push(u64::MAX - self.entries[i].score);
                }
                assert(blur_keys(self@.entries).take(n as int) =~= blur_keys(self@.entries));
                blur
            },
            SortBy::Overall => self.overalls(),
        };
        rank(&indices(n), &keys)
    }

    /// The lowest and the highest score, if there are photos.
    pub fn score_range(&self) -> (r: Option<(u64, u64)>)
        ensures
            r == (if self@.entries.len() == 0 {
                None
            } else {
                Some((lowest(self@.entries), highest(self@.entries)))
            }),
    {
        let n: usize = self.entries.len();
        if n == 0 {
            return None;
        }
        assert(self@.entries[0] == self.entries@[0]@);
        let mut lo: u64 = self.entries[0].score;
        let mut hi: u64 = self.entries[0].score;
        for i in 1..n
            invariant
                n == self.entries@.len(),
                lo == lowest(self@.entries.take(i as int)),
                hi == highest(self@.entries.take(i as int)),
        {
            assert(self@.entries.take(i + 1).drop_last() =~= self@.entries.take(i as int));
            assert(self@.entries[i as int] == self.entries@[i as int]@);
            let s: u64 = self.entries[i].score;
            if !(lo < s) {
                lo = s;
            }
            if !(hi > s) {
                hi = s;
            }
        }
        assert(self@.entries.take(n as int) =~= self@.entries);
        Some((lo, hi))
    }

    /// How many photos are disqualified.
    pub fn flagged_count(&self) -> (r: usize)
        ensures
            r == count_of(
                self@.entries,
                |e: Entry| is_rejected(e, self@.cull_threshold),
            ),
    {
        let ghost condition = |e: Entry| is_rejected(e, self@.cull_threshold);
        let mut count: usize = 0;
        let n: usize = self.entries.len();
        for i in 0..n
            invariant
                n == self.entries@.len(),
                condition == (|e: Entry| is_rejected(e, self@.cull_threshold)),
                count == count_of(self@.entries.take(i as int), condition),
                count <= i,
        {
            assert(self@.entries.take(i + 1).drop_last() =~= self@.entries.take(i as int));
            assert(self@.entries[i as int] == self.entries@[i as int]@);
            if self.is_disqualified(&self.entries[i]) {
                count = count + 1;
            }
        }
        assert(self@.entries.take(n as int) =~= self@.entries);
        count
    }

    /// How many photos are marked or unmarked by hand.
    pub fn manual_count(&self) -> (r: usize)
        ensures
            r == count_of(self@.entries, |e: Entry| e.manual_dq is Some),
    {
        let ghost condition = |e: Entry| e.manual_dq is Some;
        let mut count: usize = 0;
        let n: usize = self.entries.len();
        for i in 0..n
            invariant
                n == self.entries@.len(),
                condition == (|e: Entry| e.manual_dq is Some),
                count == count_of(self@.entries.take(i as int), condition),
                count <= i,
        {
            assert(self@.entries.take(i + 1).drop_last() =~= self@.entries.take(i as int));
            assert(self@.entries[i as int] == self.entries@[i as int]@);
            if self.entries[i].manual_dq.is_some() {
                count = count + 1;
            }
        }
        assert(self@.entries.take(n as int) =~= self@.entries);
        count
    }

    /// How many photos have stale scores.
    pub fn dirty_count(&self) -> (r: usize)
        ensures
            r == count_of(self@.entries, |e: Entry| e.dirty),
    {
        let ghost condition = |e: Entry| e.dirty;
        let mut count: usize = 0;
        let n: usize = self.entries.len();
        for i in 0..n
            invariant
                n == self.entries@.len(),
                condition == (|e: Entry| e.dirty),
                count == count_of(self@.entries.take(i as int), condition),
                count <= i,
        {
            assert(self@.entries.take(i + 1).drop_last() =~= self@.entries.take(i as int));
            assert(self@.entries[i as int] == self.entries@[i as int]@);
            if self.entries[i].dirty {
                count = count + 1;
            }
        }
        assert(self@.entries.take(n as int) =~= self@.entries);
        count
    }

    /// Whether a scan can be started.
    pub fn can_scan(&self) -> (r: bool)
        ensures
            r == (self@.roots.len() > 0 && !self@.scanning),
            r == is_scannable(self@),
    {
        self.roots.len() > 0 && !self.scanning
    }

    /// Whether a recalculation can be started.
    pub fn can_recompute(&self) -> (r: bool)
        ensures
            r == (count_of(self@.entries, |e: Entry| e.dirty) > 0 && !self@.recomputing),
            r == is_recomputable(self@),
    {
        self.dirty_count() > 0 && !self.recomputing
    }

    /// Whether disqualified photos can be moved: there are some, no score is
    /// stale, and nothing is going on that could change them.
    pub fn can_move(&self) -> (r: bool)
        ensures
            r == ({
                &&& count_of(self@.entries, |e: Entry| is_rejected(e, self@.cull_threshold)) > 0
                &&& count_of(self@.entries, |e: Entry| e.dirty) == 0
                &&& !self@.moving
                &&& !self@.scanning
                &&& !self@.recomputing
            }),
            r == is_movable(self@),
    {
        self.flagged_count() > 0 && self.dirty_count() == 0 && !self.moving && !self.scanning
            && !self.recomputing
    }

    /// Whether duplicates can be grouped, or photos ranked.
    pub fn can_group(&self) -> (r: bool)
        ensures
            r == (self@.entries.len() > 0 && !self@.scanning),
            r == is_groupable(self@),
    {
        self.entries.len() > 0 && !self.scanning
    }

    /// Whether the window has to be drawn again without waiting for input.
    pub fn is_busy(&self) -> (r: bool)
        ensures
            r == (self@.scanning || self@.recomputing || self@.moving || (self@.viewer matches Some(
                v,
            ) && !v.loaded)),
            r == is_working(self@),
    {
        let loading: bool = match self.viewer {
            Some(v) => !v.loaded,
            None => false,
        };
        self.scanning || self.recomputing || self.moving || loading
    }

    /// Whether the chosen way to measure sharpness is not the one the results
    /// were scored with.
    pub fn method_pending(&self) -> (r: bool)
        ensures
            r == (self@.sharpness_method != self@.scanned_method && self@.entries.len() > 0),
            r == is_method_stale(self@),
    {
        self.sharpness_method != self.scanned_method && self.entries.len() > 0
    }

    /// The user picks the type of a photo: if that changes it, its scores are
    /// stale.
    pub fn set_mode(&mut self, idx: usize, mode: PhotoMode)
        requires
            old(self)@.wf(),
            idx < old(self)@.entries.len(),
        ensures
            final(self)@.wf(),
            final(self)@ == (if old(self)@.entries[idx as int].mode == mode {
                old(self)@
            } else {
                AppState {
                    entries: old(self)@.entries.update(
                        idx as int,
                        Entry { mode, dirty: true, ..old(self)@.entries[idx as int] },
                    ),
                    ..old(self)@
                }
            }),
            final(self)@ == retyped(old(self)@, idx as int, mode),
    {
        let ghost s = self@;
        assert(s.entries[idx as int] == self.entries@[idx as int]@);
        if self.entries[idx].mode != mode {
            self.entries[idx].mode = mode;
            self.entries[idx].dirty = true;
            assert(self@.entries =~= s.entries.update(
                idx as int,
                Entry { mode, dirty: true, ..s.entries[idx as int] },
            ));
            assert(self@ =~= (AppState { entries: self@.entries, ..s }));
        }
    }

    /// The number of photos in all groups.
    pub fn grouped_count(&self) -> (r: u128)
        ensures
            r == grouped_total(self@.groups),
    {
        let mut count: u128 = 0;
        let n: usize = self.groups.len();
        for g in 0..n
            invariant
                n == self.groups@.len(),
                count == grouped_total(self@.groups.take(g as int)),
                count <= g * 0xffff_ffff_ffff_ffff,
        {
            assert(self@.groups.take(g + 1).drop_last() =~= self@.groups.take(g as int));
            assert(self@.groups[g as int] == self.groups@[g as int]@);
            assert(g * 0xffff_ffff_ffff_ffff <= 0xffff_ffff_ffff_fffe * 0xffff_ffff_ffff_ffff);
            count = count + self.groups[g].len() as u128;
        }
        assert(self@.groups.take(n as int) =~= self@.groups);
        count
    }

    /// The place of the last entry of each number.
    fn places(&self) -> (r: HashMap<u64, usize>)
        ensures
            is_place_map(r@, self@.entries),
    {
        let mut map: HashMap<u64, usize> = HashMap::new();
        let n: usize = self.entries.len();
        assert(is_place_map(map@, self@.entries.take(0)));
        for i in 0..n
            invariant
                n == self.entries@.len(),
                is_place_map(map@, self@.entries.take(i as int)),
        {
            assert(self@.entries.take(i + 1).drop_last() =~= self@.entries.take(i as int));
            assert(self@.entries[i as int] == self.entries@[i as int]@);
            let ghost before = map@;
            map.insert(self.entries[i].id, i);
            assert forall|id: u64| #[trigger] place_of(map@, id) == last_with(
                self@.entries.take(i + 1),
                id,
            ) by {
                assert(place_of(before, id) == last_with(self@.entries.take(i as int), id));
            }
        }
        assert(self@.entries.take(n as int) =~= self@.entries);
        map
    }

    /// The groups as they are shown: each with its members that are still
    /// there, the highest-Overall pick marked. Groups that have dissolved to
    /// fewer than two members (e.g. after a move) are skipped.
    pub fn shown_groups(&self) -> (r: Vec<GroupView>)
        ensures
            r@.map_values(|g: GroupView| g@) == groups_shown(
                self@.groups,
                self@.entries,
                overall_keys(self@.entries, self@.weights),
            ),
            forall|g: int|
                0 <= g < r@.len() ==> in_range(
                    (#[trigger] r@[g]).members@,
                    self@.entries.len(),
                ),
    {
        let places = self.places();
        let keys = self.overalls();
        let mut out: Vec<GroupView> = Vec::new();
        let n: usize = self.groups.len();
        let total: usize = self.entries.len();
        for g in 0..n
            invariant
                n == self.groups@.len(),
                total == self.entries@.len(),
                keys@ == overall_keys(self@.entries, self@.weights),
                is_place_map(places@, self@.entries),
                out@.map_values(|g: GroupView| g@) =~= groups_shown(
                    self@.groups.take(g as int),
                    self@.entries,
                    keys@,
                ),
                forall|h: int|
                    0 <= h < out@.len() ==> in_range(
                        (#[trigger] out@[h]).members@,
                        self@.entries.len(),
                    ),
        {
            assert(self@.groups.take(g + 1).drop_last() =~= self@.groups.take(g as int));
            assert(self@.groups[g as int] == self.groups@[g as int]@);
            let ghost ids = self@.groups[g as int];
            let count: usize = self.groups[g].len();
            let mut members: Vec<usize> = Vec::new();
            for k in 0..count
                invariant
                    g < n == self.groups@.len(),
                    total == self.entries@.len(),
                    count == self.groups@[g as int]@.len(),
                    ids == self.groups@[g as int]@,
                    is_place_map(places@, self@.entries),
                    members@ =~= present_members(self@.entries, ids.take(k as int)),
                    in_range(members@, self@.entries.len()),
            {
                assert(ids.take(k + 1).drop_last() =~= ids.take(k as int));
                let id: u64 = self.groups[g][k];
                assert(ids[k as int] == id);
                proof {
                    last_with_bounds(self@.entries, id);
                    assert(place_of(places@, id) == last_with(self@.entries, id));
                }
                if let Some(i) = places.get(&id) {
                    members.push(*i);
                }
            }
            assert(ids.take(count as int) =~= ids);
            let ghost before = out@.map_values(|g: GroupView| g@);
            if members.len() >= 2 {
                let best = last_best(&members, &keys);
                if let Some(v) = best {
                    proof {
                        last_best_is_unique(members@, keys@, v, best_of(members@, keys@));
                    }
                    let shown = GroupView { number: g + 1, members, best: v };
                    out.push(shown);
                    assert(out@.map_values(|g: GroupView| g@) =~= before.push(shown@));
                }
            }
        }
        assert(self@.groups.take(n as int) =~= self@.groups);
        out
    }
}

/// By sharpness the grid runs from the blurriest photo to the sharpest, by
/// Overall from the best to the worst; every photo is in it once.
pub proof fn grid_runs_in_order(s: AppState, i: int, j: int)
    requires
        s.entries.len() <= usize::MAX,
        0 <= i <= j < grid_order(s).len(),
    ensures
        grid_order(s).to_multiset() == first_indices(s.entries.len()).to_multiset(),
        grid_order(s)[i] < s.entries.len(),
        grid_order(s)[j] < s.entries.len(),
        s.sort_by == SortBy::Sharpness ==> s.entries[grid_order(s)[i] as int].score
            <= s.entries[grid_order(s)[j] as int].score,
        s.sort_by == SortBy::Overall ==> overall_keys(s.entries, s.weights)[grid_order(
            s,
        )[i] as int] >= overall_keys(s.entries, s.weights)[grid_order(s)[j] as int],
{
    let all = first_indices(s.entries.len());
    let keys = match s.sort_by {
        SortBy::Sharpness => blur_keys(s.entries),
        SortBy::Overall => overall_keys(s.entries, s.weights),
    };
    let order = grid_order(s);
    ranking_is_a_rearrangement(all, keys);
    ranking_keeps_members(all, keys);
    ranking_falls(all, keys);
    assert(in_range(all, s.entries.len()));
    assert(in_range(order, s.entries.len()));
    assert(keys[order[i] as int] >= keys[order[j] as int]);
}

/// Every score lies in the range that is shown.
pub proof fn scores_lie_in_range(entries: Seq<Entry>, i: int)
    requires
        0 <= i < entries.len(),
    ensures
        lowest(entries) <= entries[i].score <= highest(entries),
    decreases entries.len(),
{
    if entries.len() > 1 {
        if i < entries.len() - 1 {
            scores_lie_in_range(entries.drop_last(), i);
        } else {
            scores_lie_in_range(entries.drop_last(), 0);
        }
    }
}

/// Counting counts each entry that satisfies the condition once.
pub proof fn entries_count_once(entries: Seq<Entry>, e: Entry, condition: spec_fn(Entry) -> bool)
    ensures
        count_of(Seq::empty(), condition) == 0,
        count_of(entries.push(e), condition) == count_of(entries, condition) + if condition(e) {
            1int
        } else {
            0int
        },
        0 <= count_of(entries, condition) <= entries.len(),
    decreases entries.len(),
{
    assert(entries.push(e).drop_last() =~= entries);
    if entries.len() > 0 {
        let t = entries.drop_last();
        entries_count_once(t, entries.last(), condition);
        assert(t.push(entries.last()) =~= entries);
    }
}

/// There is something to count exactly if some entry satisfies the condition.
pub proof fn something_counts(entries: Seq<Entry>, condition: spec_fn(Entry) -> bool)
    ensures
        count_of(entries, condition) > 0 <==> exists|i: int|
            0 <= i < entries.len() && condition(#[trigger] entries[i]),
        count_of(entries, condition) >= 0,
    decreases entries.len(),
{
    if entries.len() > 0 {
        let t = entries.drop_last();
        something_counts(t, condition);
        let last = entries.len() - 1;
        assert(entries[last] == entries.last());
        if count_of(t, condition) > 0 {
            let i = choose|i: int| 0 <= i < t.len() && condition(#[trigger] t[i]);
            assert(condition(entries[i]));
        }
        if exists|i: int| 0 <= i < entries.len() && condition(#[trigger] entries[i]) {
            let i = choose|i: int| 0 <= i < entries.len() && condition(#[trigger] entries[i]);
            if i < t.len() {
                assert(condition(t[i]));
            }
        }
    }
}

/// The ends of the range that is shown are scores of photos.
pub proof fn range_ends_are_scores(entries: Seq<Entry>)
    requires
        entries.len() > 0,
    ensures
        exists|i: int| 0 <= i < entries.len() && (#[trigger] entries[i]).score == lowest(entries),
        exists|i: int| 0 <= i < entries.len() && (#[trigger] entries[i]).score == highest(entries),
    decreases entries.len(),
{
    assert(entries[entries.len() - 1] == entries.last());
    if entries.len() > 1 {
        let t = entries.drop_last();
        range_ends_are_scores(t);
        let i = choose|i: int| 0 <= i < t.len() && (#[trigger] t[i]).score == lowest(t);
        let j = choose|j: int| 0 <= j < t.len() && (#[trigger] t[j]).score == highest(t);
        assert(entries[i] == t[i] && entries[j] == t[j]);
    } else {
        assert(entries[0].score == lowest(entries));
    }
}

/// A number stands for the last entry that has it, and for none if none has.
pub proof fn numbers_find_their_entries(entries: Seq<Entry>, id: u64)
    requires
        entries.len() <= usize::MAX,
    ensures
        match last_with(entries, id) {
            Some(i) => {
                &&& i < entries.len()
                &&& entries[i as int].id == id
                &&& forall|j: int| i < j < entries.len() ==> (#[trigger] entries[j]).id != id
            },
            None => forall|j: int| 0 <= j < entries.len() ==> (#[trigger] entries[j]).id != id,
        },
    decreases entries.len(),
{
    if entries.len() > 0 {
        let t = entries.drop_last();
        numbers_find_their_entries(t, id);
        assert forall|j: int| 0 <= j < t.len() implies #[trigger] entries[j] == t[j] by {}
    }
}

/// The members of a group that are still there are shown in the order of the
/// group. A group is shown if two or more of them are, under the number it has
/// among all groups, counted from one, with the best by Overall marked (the
/// last of them, if several score alike); and its photos count whether they
/// are still there or not.
pub proof fn groups_show_what_is_left(
    groups: Seq<Seq<u64>>,
    ids: Seq<u64>,
    id: u64,
    entries: Seq<Entry>,
    keys: Seq<u64>,
)
    ensures
        present_members(entries, Seq::empty()).len() == 0,
        present_members(entries, ids.push(id)) == match last_with(entries, id) {
            Some(i) => present_members(entries, ids).push(i),
            None => present_members(entries, ids),
        },
        groups_shown(Seq::empty(), entries, keys).len() == 0,
        groups_shown(groups.push(ids), entries, keys) == if present_members(entries, ids).len()
            >= 2 {
            groups_shown(groups, entries, keys).push(
                GroupShown {
                    number: groups.len() as int + 1,
                    members: present_members(entries, ids),
                    best: best_of(present_members(entries, ids), keys),
                },
            )
        } else {
            groups_shown(groups, entries, keys)
        },
        grouped_total(Seq::empty()) == 0,
        grouped_total(groups.push(ids)) == grouped_total(groups) + ids.len(),
{
    assert(ids.push(id).drop_last() =~= ids);
    assert(groups.push(ids).drop_last() =~= groups);
}

/// Photos that score alike stand in the grid in the order they were scanned.
pub proof fn equal_photos_keep_their_order(s: AppState, i: int, j: int)
    requires
        s.entries.len() <= usize::MAX,
        0 <= i < j < grid_order(s).len(),
        s.sort_by == SortBy::Sharpness ==> s.entries[grid_order(s)[i] as int].score
            == s.entries[grid_order(s)[j] as int].score,
        s.sort_by == SortBy::Overall ==> overall_keys(s.entries, s.weights)[grid_order(
            s,
        )[i] as int] == overall_keys(s.entries, s.weights)[grid_order(s)[j] as int],
    ensures
        grid_order(s)[i] < grid_order(s)[j],
{
    let all = first_indices(s.entries.len());
    let keys = match s.sort_by {
        SortBy::Sharpness => blur_keys(s.entries),
        SortBy::Overall => overall_keys(s.entries, s.weights),
    };
    let order = grid_order(s);
    ranking_keeps_members(all, keys);
    assert(in_range(all, s.entries.len()));
    assert(in_range(order, s.entries.len()));
    assert(order[i] < s.entries.len() && order[j] < s.entries.len());
    assert(keys[order[i] as int] == keys[order[j] as int]);
    ranking_is_stable(all, keys, i, j);
    let (a, b) = choose|a: int, b: int|
        0 <= a < b < all.len() && #[trigger] all[a] == order[i] && #[trigger] all[b] == order[j];
    assert(all[a] == a && all[b] == b);
}

} // verus!
