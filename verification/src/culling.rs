//! Which photos are disqualified, what moving them does, how duplicates are
//! grouped and how the shortlist is made.

use vstd::prelude::*;
use vstd::string::StringExecFns;

use crate::app::{
    group_views, AppState, Entry, MoveEvent, MoveStatus, Photo2CullApp, PhotoEntry, ViewMode,
};
use crate::dedupe::{
    close_photos_share_a_group, distance, duplicate_groups, group_indices, groups_are_sound,
    members_have_a_close_member,
};
use crate::metrics::{overall_of, overall_score, Weights};
use crate::path::PhotoPath;
use crate::pipeline::{funnel, funnel_of, survivors_of};
use crate::scan::{disqualified_path, disqualified_path_for, DISQUALIFIED_DIR};
use crate::select::selection_is_exact;

verus! {

broadcast use vstd::std_specs::hash::group_hash_axioms;

/// Whether an entry is disqualified: as the user marked or unmarked it, and
/// otherwise if its score is at or below the threshold.
pub open spec fn is_rejected(e: Entry, threshold: u64) -> bool {
    match e.manual_dq {
        Some(dq) => dq,
        None => e.score <= threshold,
    }
}

/// The entry once the user has marked (`true`) or unmarked (`false`) it. If
/// that is what the threshold gives anyway, it goes back to following the
/// threshold.
pub open spec fn marked(e: Entry, dq: bool, threshold: u64) -> Entry {
    Entry {
        manual_dq: if dq != (e.score <= threshold) {
            Some(dq)
        } else {
            None
        },
        ..e
    }
}

/// The entries once all selected ones have been marked or unmarked.
pub open spec fn selected_marked(s: AppState, dq: bool) -> Seq<Entry> {
    s.entries.map_values(
        |e: Entry|
            if s.selection.contains(e.id) {
                marked(e, dq, s.cull_threshold)
            } else {
                e
            },
    )
}

/// The entries once the user has clicked the checkbox of entry `idx`: acting on
/// one selected photo acts on the whole selection.
pub open spec fn checked(s: AppState, idx: int, dq: bool) -> Seq<Entry> {
    if s.selection.contains(s.entries[idx].id) {
        selected_marked(s, dq)
    } else {
        s.entries.update(idx, marked(s.entries[idx], dq, s.cull_threshold))
    }
}

/// The entries without any marks by hand.
pub open spec fn unmarked(entries: Seq<Entry>) -> Seq<Entry> {
    entries.map_values(|e: Entry| Entry { manual_dq: None, ..e })
}

/// Marking a photo makes it disqualified, unmarking it makes it qualified, and
/// either is remembered as a manual choice exactly if the threshold says
/// otherwise.
pub proof fn marks_take_effect(e: Entry, dq: bool, threshold: u64)
    ensures
        is_rejected(marked(e, dq, threshold), threshold) == dq,
        marked(e, dq, threshold).manual_dq is Some <==> (e.score <= threshold) != dq,
{
}

/// A manual choice survives changes of the threshold.
pub proof fn marks_survive_threshold_changes(e: Entry, a: u64, b: u64)
    requires
        e.manual_dq is Some,
    ensures
        is_rejected(e, a) == is_rejected(e, b),
{
}

/// Raising the threshold never qualifies a photo.
pub proof fn rejects_grow_with_the_threshold(e: Entry, a: u64, b: u64)
    requires
        a <= b,
        is_rejected(e, a),
    ensures
        is_rejected(e, b),
{
}

/// A photo to be moved.
pub struct MoveItem {
    pub id: u64,
    pub from: PhotoPath,
    pub to: PhotoPath,
}

/// What is to be moved where.
pub open spec fn item_views(items: Seq<MoveItem>) -> Seq<(u64, Seq<Seq<u8>>, Seq<Seq<u8>>)> {
    items.map_values(|m: MoveItem| (m.id, m.from@, m.to@))
}

/// The disqualified entries that lie in a scanned root, each with the place it
/// is to be moved to.
pub open spec fn moves_of(
    entries: Seq<Entry>,
    threshold: u64,
    roots: Seq<Seq<Seq<u8>>>,
) -> Seq<(u64, Seq<Seq<u8>>, Seq<Seq<u8>>)>
    decreases entries.len(),
{
    if entries.len() == 0 {
        Seq::empty()
    } else {
        let before = moves_of(entries.drop_last(), threshold, roots);
        let e = entries.last();
        match disqualified_path(roots, e.path) {
            Some(to) if is_rejected(e, threshold) => before.push((e.id, e.path, to)),
            _ => before,
        }
    }
}

/// The state once a move has begun.
pub open spec fn move_begun(s: AppState) -> AppState {
    AppState { moving: true, move_moved: 0, move_failed: 0, move_status: None, ..s }
}

/// The entries without those of one number.
pub open spec fn without(entries: Seq<Entry>, id: u64) -> Seq<Entry>
    decreases entries.len(),
{
    if entries.len() == 0 {
        Seq::empty()
    } else if entries.last().id == id {
        without(entries.drop_last(), id)
    } else {
        without(entries.drop_last(), id).push(entries.last())
    }
}

/// The state once a move has reported `event`. When a photo is gone, the
/// indices of the others have shifted, so the order of the cards is forgotten:
/// a stale one would mis-select.
pub open spec fn after_move_event(s: AppState, event: MoveEvent) -> AppState {
    match event {
        MoveEvent::Moved(id) => AppState {
            entries: without(s.entries, id),
            selection: s.selection.remove(id),
            visible_order: Seq::empty(),
            visible_order_next: Seq::empty(),
            move_moved: s.move_moved + 1,
            ..s
        },
        MoveEvent::Failed(path, err) => AppState {
            errors: s.errors.push((path@, err@)),
            move_failed: s.move_failed + 1,
            ..s
        },
        MoveEvent::Done => AppState {
            moving: false,
            move_status: Some(
                MoveStatus { moved: s.move_moved as usize, failed: s.move_failed as usize },
            ),
            ..s
        },
    }
}

/// The Overall scores of the entries.
pub open spec fn overall_keys(entries: Seq<Entry>, weights: Weights) -> Seq<u64> {
    entries.map_values(|e: Entry| overall_of(e.metrics, weights) as u64)
}

/// The hashes of the entries.
pub open spec fn hash_keys(entries: Seq<Entry>) -> Seq<u64> {
    entries.map_values(|e: Entry| e.phash)
}

/// Which entries are disqualified.
pub open spec fn rejections(entries: Seq<Entry>, threshold: u64) -> Seq<bool> {
    entries.map_values(|e: Entry| is_rejected(e, threshold))
}

/// The groups of duplicates among the entries, by number.
pub open spec fn groups_of(entries: Seq<Entry>, max: u32) -> Seq<Seq<u64>> {
    duplicate_groups(hash_keys(entries), max).map_values(
        |g: Seq<usize>| g.map_values(|i: usize| entries[i as int].id),
    )
}

impl Photo2CullApp {
    /// Whether `entry` is currently disqualified: the user's manual mark or
    /// unmark if they made one, otherwise whether its score is at or below the
    /// cull threshold (so photos below the limit are marked automatically
    /// after a scan, and follow the threshold as it changes).
    pub fn is_disqualified(&self, entry: &PhotoEntry) -> (r: bool)
        ensures
            r == is_rejected(entry@, self.cull_threshold),
    {
        match entry.manual_dq {
            Some(dq) => dq,
            None => entry.score <= self.cull_threshold,
        }
    }

    /// Mark (`true`) or unmark (`false`) every selected photo as disqualified
    /// by hand. A photo whose new state matches what the score threshold gives
    /// goes back to following the threshold.
    pub fn set_selected_disqualified(&mut self, dq: bool)
        requires
            old(self)@.wf(),
        ensures
            final(self)@.wf(),
            final(self)@ == (AppState { entries: selected_marked(old(self)@, dq), ..old(self)@ }),
    {
        let n: usize = self.entries.len();
        let threshold: u64 = self.cull_threshold;
        let ghost all = selected_marked(self@, dq);
        for i in 0..n
            invariant
                n == self.entries@.len(),
                threshold == self.cull_threshold,
                old(self)@.wf(),
                old(self)@.entries.len() == n,
                all == selected_marked(old(self)@, dq),
                self@ == (AppState {
                    entries: all.take(i as int) + old(self)@.entries.skip(i as int),
                    ..old(self)@
                }),
        {
            let ghost before = self@.entries;
            assert(before[i as int] == old(self)@.entries[i as int]);
            assert(before[i as int] == self.entries@[i as int]@);
            if self.selection.contains(&self.entries[i].id) {
                self.entries[i].manual_dq = if dq != (self.entries[i].score <= threshold) {
                    Some(dq)
                } else {
                    None
                };
            }
            assert(self@.entries =~= before.update(i as int, all[i as int]));
            assert(self@.entries =~= all.take(i + 1) + old(self)@.entries.skip(i + 1));
            assert(self@ =~= (AppState {
                entries: all.take(i + 1) + old(self)@.entries.skip(i + 1),
                ..old(self)@
            }));
        }
        assert(all.take(n as int) + old(self)@.entries.skip(n as int) =~= all);
    }

    /// The user's click on the checkbox of one card. Acting on one selected
    /// photo acts on the whole selection.
    pub fn set_disqualified(&mut self, idx: usize, dq: bool)
        requires
            old(self)@.wf(),
            idx < old(self)@.entries.len(),
        ensures
            final(self)@.wf(),
            final(self)@ == (AppState {
                entries: if old(self)@.selection.contains(old(self)@.entries[idx as int].id) {
                    selected_marked(old(self)@, dq)
                } else {
                    old(self)@.entries.update(
                        idx as int,
                        marked(old(self)@.entries[idx as int], dq, old(self)@.cull_threshold),
                    )
                },
                ..old(self)@
            }),
            final(self)@.entries == checked(old(self)@, idx as int, dq),
    {
        assert(self@.entries[idx as int] == self.entries@[idx as int]@);
        if self.selection.contains(&self.entries[idx].id) {
            self.set_selected_disqualified(dq);
            return;
        }
        let ghost before = self@;
        self.entries[idx].manual_dq = if dq != (self.entries[idx].score <= self.cull_threshold) {
            Some(dq)
        } else {
            None
        };
        assert(self@.entries =~= before.entries.update(
            idx as int,
            marked(before.entries[idx as int], dq, before.cull_threshold),
        ));
        assert(self@ =~= (AppState { entries: self@.entries, ..before }));
    }

    /// Goes back to the score threshold for every photo.
    pub fn clear_manual_marks(&mut self)
        requires
            old(self)@.wf(),
        ensures
            final(self)@.wf(),
            final(self)@ == (AppState { entries: unmarked(old(self)@.entries), ..old(self)@ }),
    {
        let n: usize = self.entries.len();
        let ghost all = unmarked(self@.entries);
        for i in 0..n
            invariant
                n == self.entries@.len(),
                old(self)@.wf(),
                old(self)@.entries.len() == n,
                all == unmarked(old(self)@.entries),
                self@ == (AppState {
                    entries: all.take(i as int) + old(self)@.entries.skip(i as int),
                    ..old(self)@
                }),
        {
            let ghost before = self@.entries;
            assert(before[i as int] == old(self)@.entries[i as int]);
            self.entries[i].manual_dq = None;
            assert(self@.entries =~= before.update(i as int, all[i as int]));
            assert(self@.entries =~= all.take(i + 1) + old(self)@.entries.skip(i + 1));
            assert(self@ =~= (AppState {
                entries: all.take(i + 1) + old(self)@.entries.skip(i + 1),
                ..old(self)@
            }));
        }
        assert(all.take(n as int) + old(self)@.entries.skip(n as int) =~= all);
    }

    /// The disqualified photos that lie in a scanned root, and where to.
    fn moves(&self) -> (r: Vec<MoveItem>)
        ensures
            item_views(r@) == moves_of(
                self@.entries,
                self@.cull_threshold,
                self@.scanned_roots,
            ),
    {
        let mut items: Vec<MoveItem> = Vec::new();
        let n: usize = self.entries.len();
        for i in 0..n
            invariant
                n == self.entries@.len(),
                item_views(items@) =~= moves_of(
                    self@.entries.take(i as int),
                    self@.cull_threshold,
                    self@.scanned_roots,
                ),
        {
            assert(self@.entries.take(i + 1).drop_last() =~= self@.entries.take(i as int));
            assert(self@.entries[i as int] == self.entries@[i as int]@);
            let e = &self.entries[i];
            let ghost before = item_views(items@);
            if self.is_disqualified(e) {
                let dest = disqualified_path_for(self.scanned_roots.as_slice(), &e.path);
                if let Some(to) = dest {
                    let item = MoveItem { id: e.id, from: e.path.copy(), to };
                    items.push(item);
                    assert(item_views(items@) =~= before.push((item.id, item.from@, item.to@)));
                }
            }
        }
        assert(self@.entries.take(n as int) =~= self@.entries);
        items
    }

    /// Begins to move every currently-disqualified photo into the folder for
    /// rejects of the scanned folder it came from, unless a move is going on
    /// already or there is nothing to move; says what to move where.
    pub fn start_move_disqualified(&mut self) -> (r: Vec<MoveItem>)
        requires
            old(self)@.wf(),
        ensures
            final(self)@.wf(),
            item_views(r@) == (if old(self)@.moving {
                Seq::empty()
            } else {
                moves_of(
                    old(self)@.entries,
                    old(self)@.cull_threshold,
                    old(self)@.scanned_roots,
                )
            }),
            final(self)@ == (if r@.len() > 0 {
                move_begun(old(self)@)
            } else {
                old(self)@
            }),
    {
        if self.moving {
            let none: Vec<MoveItem> = Vec::new();
            assert(item_views(none@) =~= Seq::empty());
            return none;
        }
        let items = self.moves();
        if items.len() > 0 {
            self.moving = true;
            self.move_moved = 0;
            self.move_failed = 0;
            self.move_status = None;
            assert(self@ =~= move_begun(old(self)@));
        }
        items
    }

    /// Drops the entries of one number.
    fn forget(&mut self, id: u64)
        ensures
            final(self)@ == (AppState { entries: without(old(self)@.entries, id), ..old(self)@ }),
    {
        let ghost all = self@.entries;
        let mut i: usize = 0;
        let ghost mut done: int = 0;
        assert(without(all.take(0), id) + all.skip(0) =~= all);
        while i < self.entries.len()
            invariant
                all == old(self)@.entries,
                0 <= done <= all.len(),
                i == without(all.take(done), id).len(),
                self.entries@.len() == i + (all.len() - done),
                self@.entries =~= without(all.take(done), id) + all.skip(done),
                self@ == (AppState { entries: self@.entries, ..old(self)@ }),
            decreases self.entries.len() - i,
        {
            let ghost before = self@.entries;
            let ghost kept = without(all.take(done), id);
            assert(before[i as int] == all[done]);
            assert(before[i as int] == self.entries@[i as int]@);
            assert(all.take(done + 1).drop_last() =~= all.take(done));
            assert(all.skip(done).skip(1) =~= all.skip(done + 1));
            if self.entries[i].id == id {
                self.entries.remove(i);
                assert(self@.entries =~= before.remove(i as int));
                assert(self@.entries =~= kept + all.skip(done + 1));
            } else {
                i = i + 1;
                assert(self@.entries =~= kept.push(all[done]) + all.skip(done + 1));
            }
            proof {
                done = done + 1;
            }
            assert(self@ =~= (AppState { entries: self@.entries, ..old(self)@ }));
        }
        assert(done == all.len());
        assert(all.take(done) =~= all);
        assert(self@.entries =~= without(all, id));
    }

    /// Takes in what a running move reports.
    pub fn move_event(&mut self, event: MoveEvent)
        requires
            old(self)@.wf(),
            event is Moved ==> old(self)@.move_moved < usize::MAX,
            event is Failed ==> old(self)@.move_failed < usize::MAX,
        ensures
            final(self)@.wf(),
            final(self)@ == after_move_event(old(self)@, event),
    {
        let ghost target = after_move_event(self@, event);
        match event {
            MoveEvent::Moved(id) => {
                self.forget(id);
                self.selection.remove(&id);
                self.visible_order.clear();
                self.visible_order_next.clear();
                self.move_moved = self.move_moved + 1;
            },
            MoveEvent::Failed(path, err) => {
                self.errors.push((path, err));
                self.move_failed = self.move_failed + 1;
            },
            MoveEvent::Done => {
                self.moving = false;
                self.move_status = Some(
                    MoveStatus { moved: self.move_moved, failed: self.move_failed },
                );
            },
        }
        assert(self@ =~= target);
    }

    /// The hashes of the entries.
    fn hashes(&self) -> (r: Vec<u64>)
        ensures
            r@ == hash_keys(self@.entries),
    {
        let mut out: Vec<u64> = Vec::new();
        let n: usize = self.entries.len();
        for i in 0..n
            invariant
                n == self.entries@.len(),
                out@ =~= hash_keys(self@.entries).take(i as int),
        {
            assert(self@.entries[i as int] == self.entries@[i as int]@);
            out.push(self.entries[i].phash);
        }
        assert(hash_keys(self@.entries).take(n as int) =~= hash_keys(self@.entries));
        out
    }

    /// The Overall scores of the entries.
    pub(crate) fn overalls(&self) -> (r: Vec<u64>)
        ensures
            r@ == overall_keys(self@.entries, self@.weights),
    {
        let mut out: Vec<u64> = Vec::new();
        let n: usize = self.entries.len();
        for i in 0..n
            invariant
                n == self.entries@.len(),
                out@ =~= overall_keys(self@.entries, self@.weights).take(i as int),
        {
            assert(self@.entries[i as int] == self.entries@[i as int]@);
            out.push(overall_score(&self.entries[i].metrics, &self.weights));
        }
        assert(overall_keys(self@.entries, self@.weights).take(n as int) =~= overall_keys(
            self@.entries,
            self@.weights,
        ));
        out
    }

    /// Cluster the current entries into duplicate/burst groups by hash
    /// distance.
    pub fn compute_groups(&mut self)
        requires
            old(self)@.wf(),
        ensures
            final(self)@.wf(),
            final(self)@ == (AppState {
                groups: groups_of(old(self)@.entries, old(self)@.group_threshold),
                ..old(self)@
            }),
    {
        let hashes = self.hashes();
        assert(hashes@.len() == hashes.len());
        let found = group_indices(&hashes, self.group_threshold);
        let ghost all = duplicate_groups(hashes@, self.group_threshold);
        let ghost target = groups_of(self@.entries, self.group_threshold);
        proof {
            groups_are_sound(hashes@, self.group_threshold);
        }
        let mut groups: Vec<Vec<u64>> = Vec::new();
        let total: usize = found.len();
        for g in 0..total
            invariant
                total == found@.len(),
                total == all.len(),
                all == duplicate_groups(hashes@, self.group_threshold),
                hashes@.len() == self.entries@.len(),
                target == groups_of(self@.entries, self.group_threshold),
                target == all.map_values(
                    |g: Seq<usize>| g.map_values(|i: usize| self@.entries[i as int].id),
                ),
                self@ == old(self)@,
                forall|g: int| 0 <= g < found@.len() ==> (#[trigger] found@[g])@ == all[g],
                forall|g: int, k: int|
                    0 <= g < all.len() && 0 <= k < all[g].len() ==> #[trigger] all[g][k]
                        < hashes@.len(),
                group_views(groups@) =~= target.take(g as int),
        {
            let mut ids: Vec<u64> = Vec::new();
            let count: usize = found[g].len();
            for k in 0..count
                invariant
                    g < total == found@.len(),
                    total == all.len(),
                    count == found@[g as int]@.len(),
                    found@[g as int]@ == all[g as int],
                    hashes@.len() == self.entries@.len(),
                    self@ == old(self)@,
                    target == all.map_values(
                        |g: Seq<usize>| g.map_values(|i: usize| self@.entries[i as int].id),
                    ),
                    forall|g: int, k: int|
                        0 <= g < all.len() && 0 <= k < all[g].len() ==> #[trigger] all[g][k]
                            < hashes@.len(),
                    ids@ =~= target[g as int].take(k as int),
            {
                let i: usize = found[g][k];
                assert(i == all[g as int][k as int]);
                assert(self@.entries[i as int] == self.entries@[i as int]@);
                ids.push(self.entries[i].id);
            }
            assert(target[g as int].take(count as int) =~= target[g as int]);
            let ghost before = group_views(groups@);
            groups.push(ids);
            assert(group_views(groups@) =~= before.push(ids@));
        }
        assert(target.take(total as int) =~= target);
        self.groups = groups;
        assert(self@ =~= (AppState { groups: target, ..old(self)@ }));
    }

    /// The click that groups duplicates: groups them and shows the groups.
    pub fn group_now(&mut self)
        requires
            old(self)@.wf(),
        ensures
            final(self)@.wf(),
            final(self)@ == (AppState {
                groups: groups_of(old(self)@.entries, old(self)@.group_threshold),
                view_mode: ViewMode::Grouped,
                ..old(self)@
            }),
    {
        self.compute_groups();
        self.view_mode = ViewMode::Grouped;
        assert(self@ =~= (AppState {
            groups: groups_of(old(self)@.entries, old(self)@.group_threshold),
            view_mode: ViewMode::Grouped,
            ..old(self)@
        }));
    }

    /// The full funnel: drop disqualified photos (at or below the sharpness
    /// cull threshold, or manually marked), cluster survivors into
    /// duplicate/burst groups and keep only the highest-Overall member of each
    /// (plus any ungrouped singletons), then rank the rest by Overall and keep
    /// the top of the list.
    pub fn run_pipeline(&mut self)
        requires
            old(self)@.wf(),
        ensures
            final(self)@.wf(),
            final(self)@ == (AppState {
                pipeline_result: Some(
                    funnel_of(
                        rejections(old(self)@.entries, old(self)@.cull_threshold),
                        hash_keys(old(self)@.entries),
                        overall_keys(old(self)@.entries, old(self)@.weights),
                        old(self)@.group_threshold,
                        old(self)@.pipeline_top_n,
                    ),
                ),
                ..old(self)@
            }),
    {
        let n: usize = self.entries.len();
        let mut dropped: Vec<bool> = Vec::new();
        let ghost rejected = rejections(self@.entries, self.cull_threshold);
        for i in 0..n
            invariant
                n == self.entries@.len(),
                self@ == old(self)@,
                rejected == rejections(self@.entries, self.cull_threshold),
                dropped@ =~= rejected.take(i as int),
        {
            assert(self@.entries[i as int] == self.entries@[i as int]@);
            dropped.push(self.is_disqualified(&self.entries[i]));
        }
        assert(rejected.take(n as int) =~= rejected);
        let hashes = self.hashes();
        let keys = self.overalls();
        let result = funnel(&dropped, &hashes, &keys, self.group_threshold, self.pipeline_top_n);
        let ghost found = result@;
        self.pipeline_result = Some(result);
        assert(self@ =~= (AppState { pipeline_result: Some(found), ..old(self)@ }));
    }

    /// The click that ranks: runs the funnel and shows the shortlist.
    pub fn rank_now(&mut self)
        requires
            old(self)@.wf(),
        ensures
            final(self)@.wf(),
            final(self)@ == (AppState {
                pipeline_result: Some(
                    funnel_of(
                        rejections(old(self)@.entries, old(self)@.cull_threshold),
                        hash_keys(old(self)@.entries),
                        overall_keys(old(self)@.entries, old(self)@.weights),
                        old(self)@.group_threshold,
                        old(self)@.pipeline_top_n,
                    ),
                ),
                view_mode: ViewMode::Pipeline,
                ..old(self)@
            }),
    {
        self.run_pipeline();
        let ghost ranked = self@;
        self.view_mode = ViewMode::Pipeline;
        assert(self@ =~= (AppState { view_mode: ViewMode::Pipeline, ..ranked }));
    }
}

/// Only disqualified photos are moved, each into the folder for rejects of a
/// scanned root.
pub proof fn only_rejects_are_moved(
    entries: Seq<Entry>,
    threshold: u64,
    roots: Seq<Seq<Seq<u8>>>,
    k: int,
)
    requires
        0 <= k < moves_of(entries, threshold, roots).len(),
    ensures
        exists|i: int|
            {
                &&& 0 <= i < entries.len()
                &&& is_rejected(#[trigger] entries[i], threshold)
                &&& moves_of(entries, threshold, roots)[k].0 == entries[i].id
                &&& moves_of(entries, threshold, roots)[k].1 == entries[i].path
                &&& disqualified_path(roots, entries[i].path) == Some(
                    moves_of(entries, threshold, roots)[k].2,
                )
            },
    decreases entries.len(),
{
    let t = entries.drop_last();
    let before = moves_of(t, threshold, roots);
    if k < before.len() {
        only_rejects_are_moved(t, threshold, roots, k);
        let i = choose|i: int|
            {
                &&& 0 <= i < t.len()
                &&& is_rejected(#[trigger] t[i], threshold)
                &&& before[k].0 == t[i].id
                &&& before[k].1 == t[i].path
                &&& disqualified_path(roots, t[i].path) == Some(before[k].2)
            };
        assert(entries[i] == t[i]);
    } else {
        assert(entries[entries.len() - 1] == entries.last());
    }
}

/// Every disqualified photo that lies in a scanned root is moved.
pub proof fn every_reject_is_moved(
    entries: Seq<Entry>,
    threshold: u64,
    roots: Seq<Seq<Seq<u8>>>,
    i: int,
)
    requires
        0 <= i < entries.len(),
        is_rejected(entries[i], threshold),
        disqualified_path(roots, entries[i].path) is Some,
    ensures
        moves_of(entries, threshold, roots).contains(
            (
                entries[i].id,
                entries[i].path,
                disqualified_path(roots, entries[i].path)->0,
            ),
        ),
    decreases entries.len(),
{
    let t = entries.drop_last();
    let before = moves_of(t, threshold, roots);
    let all = moves_of(entries, threshold, roots);
    let item = (
        entries[i].id,
        entries[i].path,
        disqualified_path(roots, entries[i].path)->0,
    );
    if i < t.len() {
        assert(t[i] == entries[i]);
        every_reject_is_moved(t, threshold, roots, i);
        let k = choose|k: int| 0 <= k < before.len() && before[k] == item;
        assert(all[k] == item);
    } else {
        assert(all[before.len() as int] == item);
    }
}

/// A photo that the user keeps by hand is neither moved nor dropped from the
/// ranking, whatever its score; one that the user disqualifies is dropped.
pub proof fn manual_choices_count(
    entries: Seq<Entry>,
    threshold: u64,
    roots: Seq<Seq<Seq<u8>>>,
    i: int,
)
    requires
        0 <= i < entries.len() <= usize::MAX,
        entries[i].manual_dq is Some,
        forall|j: int| 0 <= j < entries.len() && j != i ==> (#[trigger] entries[j]).id
            != entries[i].id,
    ensures
        survivors_of(rejections(entries, threshold)).contains(i as usize)
            == (entries[i].manual_dq == Some(false)),
        entries[i].manual_dq == Some(false) ==> forall|k: int|
            0 <= k < moves_of(entries, threshold, roots).len() ==> (#[trigger] moves_of(
                entries,
                threshold,
                roots,
            )[k]).0 != entries[i].id,
{
    let dropped = rejections(entries, threshold);
    let keep = |j: int| !dropped[j];
    selection_is_exact(dropped.len(), keep);
    assert(keep(i) == !is_rejected(entries[i], threshold));
    if entries[i].manual_dq == Some(false) {
        assert forall|k: int|
            0 <= k < moves_of(entries, threshold, roots).len() implies (#[trigger] moves_of(
            entries,
            threshold,
            roots,
        )[k]).0 != entries[i].id by {
            only_rejects_are_moved(entries, threshold, roots, k);
        }
    }
}

/// Once a photo has been moved no entry of its number is left, and every other
/// entry still is.
pub proof fn moved_photos_leave(entries: Seq<Entry>, id: u64)
    ensures
        forall|i: int| 0 <= i < without(entries, id).len() ==> (#[trigger] without(
            entries,
            id,
        )[i]).id != id,
        forall|e: Entry|
            e.id != id ==> (#[trigger] without(entries, id).contains(e) <==> entries.contains(e)),
    decreases entries.len(),
{
    if entries.len() > 0 {
        let t = entries.drop_last();
        let rest = without(entries, id);
        moved_photos_leave(t, id);
        assert(entries[entries.len() - 1] == entries.last());
        assert forall|e: Entry| e.id != id implies (#[trigger] rest.contains(e)
            <==> entries.contains(e)) by {
            let before = without(t, id);
            if entries.contains(e) {
                let i = choose|i: int| 0 <= i < entries.len() && entries[i] == e;
                if i < t.len() {
                    assert(t[i] == e);
                    assert(t.contains(e));
                    assert(before.contains(e));
                    let k = choose|k: int| 0 <= k < before.len() && before[k] == e;
                    assert(rest[k] == e);
                } else {
                    assert(rest[rest.len() - 1] == e);
                }
            }
            if rest.contains(e) {
                let k = choose|k: int| 0 <= k < rest.len() && rest[k] == e;
                if k < before.len() {
                    assert(before[k] == e);
                    assert(before.contains(e));
                    assert(t.contains(e));
                    let i = choose|i: int| 0 <= i < t.len() && t[i] == e;
                    assert(entries[i] == e);
                }
            }
        }
    }
}

/// A digit.
pub open spec fn digit(d: nat) -> Seq<char> {
    if d == 0 {
        "0"@
    } else if d == 1 {
        "1"@
    } else if d == 2 {
        "2"@
    } else if d == 3 {
        "3"@
    } else if d == 4 {
        "4"@
    } else if d == 5 {
        "5"@
    } else if d == 6 {
        "6"@
    } else if d == 7 {
        "7"@
    } else if d == 8 {
        "8"@
    } else {
        "9"@
    }
}

/// A number in decimal digits.
pub open spec fn decimal(n: nat) -> Seq<char>
    decreases n,
{
    if n < 10 {
        digit(n)
    } else {
        decimal(n / 10) + digit(n % 10)
    }
}

/// Writes a number behind `out`.
fn append_decimal(out: &mut String, n: usize)
    ensures
        final(out)@ == old(out)@ + decimal(n as nat),
    decreases n,
{
    if n >= 10 {
        append_decimal(out, n / 10);
    }
    let last: &str = match n % 10 {
        0 => "0",
        1 => "1",
        2 => "2",
        3 => "3",
        4 => "4",
        5 => "5",
        6 => "6",
        7 => "7",
        8 => "8",
        _ => "9",
    };
    out.append(last);
    assert(out@ =~= old(out)@ + decimal(n as nat));
}

/// What is said of a move: how many photos went to the rejects, and how many
/// could not be moved, if any.
pub open spec fn move_text(status: MoveStatus) -> Seq<char> {
    let moved = "Moved "@ + decimal(status.moved as nat) + " to "@ + DISQUALIFIED_DIR@ + "/"@;
    if status.failed > 0 {
        moved + ", "@ + decimal(status.failed as nat) + " failed"@
    } else {
        moved
    }
}

impl MoveStatus {
    /// What is said of the move.
    pub fn text(&self) -> (r: String)
        ensures
            r@ == move_text(*self),
    {
        let mut out = "Moved ".to_owned();
        append_decimal(&mut out, self.moved);
        out.append(" to ");
        out.append(DISQUALIFIED_DIR);
        out.append("/");
        if self.failed > 0 {
            out.append(", ");
            append_decimal(&mut out, self.failed);
            out.append(" failed");
        }
        out
    }
}

/// A photo that the user has not marked is disqualified exactly if it scores at
/// or below the threshold; one that the user has marked, as marked.
pub proof fn photos_at_the_threshold_are_rejected(e: Entry, threshold: u64)
    ensures
        e.manual_dq is None ==> (is_rejected(e, threshold) <==> !(e.score > threshold)),
        e.manual_dq == Some(true) ==> is_rejected(e, threshold),
        e.manual_dq == Some(false) ==> !is_rejected(e, threshold),
{
}

/// Marking the selected photos marks each of them, touches nothing else of
/// them, and leaves the other photos alone; dropping all marks leaves
/// everything else of every photo.
pub proof fn marks_touch_only_the_selected(s: AppState, dq: bool, i: int)
    requires
        0 <= i < s.entries.len(),
    ensures
        selected_marked(s, dq).len() == s.entries.len(),
        unmarked(s.entries).len() == s.entries.len(),
        ({
            let e = s.entries[i];
            let m = selected_marked(s, dq)[i];
            let u = unmarked(s.entries)[i];
            &&& s.selection.contains(e.id) ==> is_rejected(m, s.cull_threshold) == dq
            &&& !s.selection.contains(e.id) ==> m == e
            &&& m == (Entry { manual_dq: m.manual_dq, ..e })
            &&& u == (Entry { manual_dq: None, ..e })
        }),
{
}

/// Photos are moved in the order of the list, each at most once, and from the
/// place where it lies.
pub proof fn moves_keep_their_order(
    entries: Seq<Entry>,
    threshold: u64,
    roots: Seq<Seq<Seq<u8>>>,
    e: Entry,
)
    ensures
        moves_of(Seq::empty(), threshold, roots).len() == 0,
        is_rejected(e, threshold) && disqualified_path(roots, e.path) is Some ==> moves_of(
            entries.push(e),
            threshold,
            roots,
        ) == moves_of(entries, threshold, roots).push(
            (e.id, e.path, disqualified_path(roots, e.path)->0),
        ),
        !is_rejected(e, threshold) || disqualified_path(roots, e.path) is None ==> moves_of(
            entries.push(e),
            threshold,
            roots,
        ) == moves_of(entries, threshold, roots),
{
    assert(entries.push(e).drop_last() =~= entries);
}

/// The photos that stay keep their order when one leaves.
pub proof fn the_others_keep_their_order(entries: Seq<Entry>, e: Entry, id: u64)
    ensures
        without(Seq::empty(), id).len() == 0,
        without(entries.push(e), id) == if e.id == id {
            without(entries, id)
        } else {
            without(entries, id).push(e)
        },
{
    assert(entries.push(e).drop_last() =~= entries);
}

/// What a move reports is counted: a photo that went leaves the list and the
/// selection, one that could not go stays and is noted with the reason, and in
/// the end the two counts are the status. Nothing else of the session changes,
/// but for the order of the cards, which is forgotten when a photo went.
pub proof fn moves_are_counted(s: AppState, id: u64, path: PhotoPath, err: String)
    ensures
        ({
            let b = move_begun(s);
            &&& b.moving
            &&& b.move_moved == 0 && b.move_failed == 0 && b.move_status is None
            &&& b.entries == s.entries && b.selection == s.selection && b.errors == s.errors
        }),
        ({
            let m = after_move_event(s, MoveEvent::Moved(id));
            &&& m.move_moved == s.move_moved + 1
            &&& m.move_failed == s.move_failed
            &&& m.moving == s.moving
            &&& m.errors == s.errors
            &&& forall|x: u64|
                m.selection.contains(x) <==> s.selection.contains(x) && x != id
            &&& m.visible_order.len() == 0
            &&& m.visible_order_next.len() == 0
            &&& m.groups == s.groups && m.pipeline_result == s.pipeline_result
        }),
        ({
            let m = after_move_event(s, MoveEvent::Failed(path, err));
            &&& m.move_failed == s.move_failed + 1
            &&& m.move_moved == s.move_moved
            &&& m.errors == s.errors.push((path@, err@))
            &&& m.entries == s.entries
            &&& m.selection == s.selection
            &&& m.visible_order == s.visible_order
        }),
        ({
            let m = after_move_event(s, MoveEvent::Done);
            &&& !m.moving
            &&& 0 <= s.move_moved <= usize::MAX && 0 <= s.move_failed <= usize::MAX
                ==> m.move_status is Some && m.move_status->0.moved == s.move_moved
                && m.move_status->0.failed == s.move_failed
            &&& m.entries == s.entries
        }),
{
}

/// Each entry is ranked by its own factors, compared by its own hash and
/// dropped by its own score and marks.
pub proof fn keys_belong_to_their_entries(
    entries: Seq<Entry>,
    weights: Weights,
    threshold: u64,
    i: int,
)
    requires
        0 <= i < entries.len(),
    ensures
        overall_keys(entries, weights).len() == entries.len(),
        hash_keys(entries).len() == entries.len(),
        rejections(entries, threshold).len() == entries.len(),
        overall_keys(entries, weights)[i] == overall_of(entries[i].metrics, weights) as u64,
        hash_keys(entries)[i] == entries[i].phash,
        rejections(entries, threshold)[i] == is_rejected(entries[i], threshold),
{
}

/// Two photos whose hashes differ in no more bits than the limit stand
/// together in one of the groups.
pub proof fn close_entries_share_a_group(entries: Seq<Entry>, max: u32, i: int, j: int)
    requires
        entries.len() <= usize::MAX,
        0 <= i < entries.len(),
        0 <= j < entries.len(),
        i != j,
        distance(entries[i].phash, entries[j].phash) <= max,
    ensures
        exists|g: int|
            0 <= g < groups_of(entries, max).len() && (#[trigger] groups_of(entries, max)[g]).contains(
                entries[i].id,
            ) && groups_of(entries, max)[g].contains(entries[j].id),
{
    let hashes = hash_keys(entries);
    let groups = duplicate_groups(hashes, max);
    close_photos_share_a_group(hashes, max, i as usize, j as usize);
    let g = choose|g: int|
        0 <= g < groups.len() && (#[trigger] groups[g]).contains(i as usize) && groups[g].contains(
            j as usize,
        );
    let shown = groups_of(entries, max)[g];
    let a = choose|a: int| 0 <= a < groups[g].len() && groups[g][a] == i as usize;
    let b = choose|b: int| 0 <= b < groups[g].len() && groups[g][b] == j as usize;
    assert(shown[a] == entries[i].id);
    assert(shown[b] == entries[j].id);
}

/// Every member of a group of photos is close to another one of the group, and
/// groups come by falling size.
pub proof fn groups_hold_close_entries(entries: Seq<Entry>, max: u32, g: int, k: int)
    requires
        entries.len() <= usize::MAX,
        0 <= g < groups_of(entries, max).len(),
        0 <= k < groups_of(entries, max)[g].len(),
    ensures
        exists|i: int, j: int|
            {
                &&& 0 <= i < entries.len()
                &&& 0 <= j < entries.len()
                &&& i != j
                &&& groups_of(entries, max)[g][k] == (#[trigger] entries[i]).id
                &&& groups_of(entries, max)[g].contains((#[trigger] entries[j]).id)
                &&& distance(entries[i].phash, entries[j].phash) <= max
            },
        forall|h: int|
            g <= h < groups_of(entries, max).len() ==> groups_of(entries, max)[g].len() >= (
            #[trigger] groups_of(entries, max)[h]).len(),
{
    let hashes = hash_keys(entries);
    let groups = duplicate_groups(hashes, max);
    groups_are_sound(hashes, max);
    let a = groups[g][k];
    assert(groups[g].contains(a));
    members_have_a_close_member(hashes, max, g, a);
    let b = choose|b: usize|
        #[trigger] groups[g].contains(b) && b != a && b < hashes.len() && distance(
            hashes[a as int],
            hashes[b as int],
        ) <= max;
    let l = choose|l: int| 0 <= l < groups[g].len() && groups[g][l] == b;
    assert(groups_of(entries, max)[g][l] == entries[b as int].id);
    assert(groups_of(entries, max)[g][k] == entries[a as int].id);
    assert forall|h: int| g <= h < groups_of(entries, max).len() implies groups_of(
        entries,
        max,
    )[g].len() >= (#[trigger] groups_of(entries, max)[h]).len() by {
        assert(groups[g].len() >= groups[h].len());
    }
}

/// Numbers are written in decimal: the last digit comes last, each digit as its
/// own character.
pub proof fn decimals_append_digits(n: nat, d: nat)
    requires
        d < 10,
    ensures
        decimal(d) == seq![(48 + d) as char],
        n > 0 ==> decimal(10 * n + d) == decimal(n).push((48 + d) as char),
{
    reveal_strlit("0");
    reveal_strlit("1");
    reveal_strlit("2");
    reveal_strlit("3");
    reveal_strlit("4");
    reveal_strlit("5");
    reveal_strlit("6");
    reveal_strlit("7");
    reveal_strlit("8");
    reveal_strlit("9");
    assert(digit(d) =~= seq![(48 + d) as char]);
    if n > 0 {
        assert((10 * n + d) / 10 == n && (10 * n + d) % 10 == d);
        assert(decimal(10 * n + d) =~= decimal(n).push((48 + d) as char));
    }
}

/// The checkbox of a card takes effect on its photo; on the other photos only
/// if it is selected, and then on the selected ones.
pub proof fn checkboxes_act_on_the_selection(s: AppState, idx: int, dq: bool, i: int)
    requires
        0 <= idx < s.entries.len(),
        0 <= i < s.entries.len(),
    ensures
        checked(s, idx, dq).len() == s.entries.len(),
        is_rejected(checked(s, idx, dq)[idx], s.cull_threshold) == dq,
        i != idx && !s.selection.contains(s.entries[idx].id) ==> checked(s, idx, dq)[i]
            == s.entries[i],
        i != idx && !s.selection.contains(s.entries[i].id) ==> checked(s, idx, dq)[i]
            == s.entries[i],
        s.selection.contains(s.entries[idx].id) && s.selection.contains(s.entries[i].id)
            ==> is_rejected(checked(s, idx, dq)[i], s.cull_threshold) == dq,
        checked(s, idx, dq)[i].score == s.entries[i].score,
        checked(s, idx, dq)[i].id == s.entries[i].id,
{
}

/// What is said of a move: how many photos went, and only if some could not be
/// moved, how many these were.
pub proof fn move_text_names_failures(moved: usize, failed: usize)
    ensures
        move_text(MoveStatus { moved, failed: 0 }) == "Moved "@ + decimal(moved as nat)
            + " to disqualified/"@,
        failed > 0 ==> move_text(MoveStatus { moved, failed }) == move_text(
            MoveStatus { moved, failed: 0 },
        ) + ", "@ + decimal(failed as nat) + " failed"@,
{
    reveal_strlit(" to ");
    reveal_strlit("disqualified");
    reveal_strlit("/");
    reveal_strlit(" to disqualified/");
    let start = "Moved "@ + decimal(moved as nat);
    assert(start + " to "@ + "disqualified"@ + "/"@ =~= start + " to disqualified/"@);
}

} // verus!
