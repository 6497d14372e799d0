//! Selecting photos like files in a file manager: click, Ctrl+click,
//! Shift+click, everything shown, nothing.

use vstd::prelude::*;

use crate::app::{AppState, Entry, Photo2CullApp};
use crate::rank::in_range;

verus! {

broadcast use vstd::std_specs::hash::group_hash_axioms;

/// The place in `order` of the first card of a photo, or the end.
pub open spec fn place_of(order: Seq<usize>, entries: Seq<Entry>, id: u64) -> int
    decreases order.len(),
{
    if order.len() == 0 {
        0
    } else {
        let before = place_of(order.drop_last(), entries, id);
        if before < order.len() - 1 || entries[order.last() as int].id == id {
            before
        } else {
            order.len() as int
        }
    }
}

/// The photos whose cards stand from place `lo` up to, not including, `hi`.
pub open spec fn shown_between(
    order: Seq<usize>,
    entries: Seq<Entry>,
    lo: int,
    hi: int,
) -> Set<u64> {
    Set::new(|id: u64| exists|k: int| lo <= k < hi && entries[#[trigger] order[k] as int].id == id)
}

/// The photos from the anchor to the clicked one, both included, if both have
/// a card.
pub open spec fn range_clicked(s: AppState, id: u64) -> Option<Set<u64>> {
    match s.selection_anchor {
        Some(anchor) => {
            let a = place_of(s.visible_order, s.entries, anchor);
            let b = place_of(s.visible_order, s.entries, id);
            if a < s.visible_order.len() && b < s.visible_order.len() {
                let (lo, hi) = if a < b {
                    (a, b)
                } else {
                    (b, a)
                };
                Some(shown_between(s.visible_order, s.entries, lo, hi + 1))
            } else {
                None
            }
        },
        None => None,
    }
}

/// The selection after a click that selects just one photo, or toggles it.
pub open spec fn one_clicked(selection: Set<u64>, id: u64, toggle: bool) -> Set<u64> {
    if !toggle {
        Set::empty().insert(id)
    } else if selection.contains(id) {
        selection.remove(id)
    } else {
        selection.insert(id)
    }
}

/// The state after a click on the card of entry `idx`: a plain click selects
/// just it, Ctrl+click toggles it, Shift+click selects the range from the
/// anchor to it (added to the selection with Ctrl too). Shift+click without a
/// range is like a click without Shift.
pub open spec fn clicked(s: AppState, idx: int, shift: bool, command: bool) -> AppState {
    let id = s.entries[idx].id;
    match range_clicked(s, id) {
        Some(range) if shift => AppState {
            selection: if command {
                s.selection.union(range)
            } else {
                range
            },
            ..s
        },
        _ => AppState {
            selection: one_clicked(s.selection, id, command),
            selection_anchor: Some(id),
            ..s
        },
    }
}

proof fn place_is(order: Seq<usize>, entries: Seq<Entry>, id: u64, i: int)
    requires
        0 <= i <= order.len(),
        forall|k: int| 0 <= k < i ==> entries[#[trigger] order[k] as int].id != id,
        i < order.len() ==> entries[order[i] as int].id == id,
    ensures
        place_of(order, entries, id) == i,
    decreases order.len(),
{
    if order.len() > 0 {
        let t = order.drop_last();
        if i < order.len() {
            if i < t.len() {
                assert(t[i] == order[i]);
            }
            place_is(t, entries, id, i);
        } else {
            place_is(t, entries, id, i - 1);
            assert(entries[order[i - 1] as int].id != id);
        }
    }
}

impl Photo2CullApp {
    /// The place of the first card of a photo, or the end.
    fn place(&self, id: u64) -> (r: usize)
        requires
            self@.wf(),
        ensures
            r == place_of(self@.visible_order, self@.entries, id),
            r <= self.visible_order@.len(),
    {
        let n: usize = self.visible_order.len();
        let mut i: usize = 0;
        while i < n && self.entries[self.visible_order[i]].id != id
            invariant
                i <= n == self.visible_order@.len(),
                self@.wf(),
                forall|k: int|
                    0 <= k < i ==> self@.entries[#[trigger] self@.visible_order[k] as int].id != id,
            decreases n - i,
        {
            i = i + 1;
        }
        proof {
            place_is(self@.visible_order, self@.entries, id, i as int);
        }
        i
    }

    /// Adds the photos whose cards stand from place `lo` up to, not including,
    /// `hi`.
    fn select_between(&mut self, lo: usize, hi: usize)
        requires
            old(self)@.wf(),
            lo <= hi <= old(self)@.visible_order.len(),
        ensures
            final(self)@ == (AppState {
                selection: old(self)@.selection.union(
                    shown_between(
                        old(self)@.visible_order,
                        old(self)@.entries,
                        lo as int,
                        hi as int,
                    ),
                ),
                ..old(self)@
            }),
    {
        let ghost s = self@;
        assert(self@.selection =~= s.selection.union(
            shown_between(s.visible_order, s.entries, lo as int, lo as int),
        ));
        for k in lo..hi
            invariant
                s == old(self)@,
                s.wf(),
                lo <= hi <= s.visible_order.len(),
                self@ == (AppState {
                    selection: s.selection.union(
                        shown_between(s.visible_order, s.entries, lo as int, k as int),
                    ),
                    ..s
                }),
        {
            let i: usize = self.visible_order[k];
            assert(self@.visible_order[k as int] == i);
            assert(self@.entries[i as int] == self.entries@[i as int]@);
            let id: u64 = self.entries[i].id;
            let ghost before = shown_between(s.visible_order, s.entries, lo as int, k as int);
            let ghost after = shown_between(s.visible_order, s.entries, lo as int, k + 1);
            self.selection.insert(id);
            assert(after =~= before.insert(id)) by {
                assert forall|x: u64| after.contains(x) <==> before.insert(id).contains(x) by {
                    if after.contains(x) {
                        let j = choose|j: int|
                            lo <= j < k + 1 && s.entries[#[trigger] s.visible_order[j] as int].id
                                == x;
                        if j < k {
                            assert(before.contains(x));
                        }
                    }
                    if before.contains(x) {
                        let j = choose|j: int|
                            lo <= j < k && s.entries[#[trigger] s.visible_order[j] as int].id == x;
                        assert(after.contains(x));
                    }
                    if x == id {
                        assert(s.entries[s.visible_order[k as int] as int].id == x);
                    }
                }
            }
            assert(self@.selection =~= s.selection.union(after));
            assert(self@ =~= (AppState { selection: s.selection.union(after), ..s }));
        }
    }

    /// Selects the photos whose cards stand from place `lo` up to, not
    /// including, `hi`; on top of what is selected already if `keep`.
    fn select_range(&mut self, lo: usize, hi: usize, keep: bool)
        requires
            old(self)@.wf(),
            lo <= hi <= old(self)@.visible_order.len(),
        ensures
            final(self)@ == (AppState {
                selection: {
                    let range = shown_between(
                        old(self)@.visible_order,
                        old(self)@.entries,
                        lo as int,
                        hi as int,
                    );
                    if keep {
                        old(self)@.selection.union(range)
                    } else {
                        range
                    }
                },
                ..old(self)@
            }),
    {
        let ghost s = self@;
        let ghost range = shown_between(s.visible_order, s.entries, lo as int, hi as int);
        if !keep {
            self.selection.clear();
            assert(self@ =~= (AppState { selection: Set::empty(), ..s }));
        }
        self.select_between(lo, hi);
        assert(Set::empty().union(range) =~= range);
    }

    /// Selects just one photo, or toggles it.
    fn select_one(&mut self, id: u64, toggle: bool)
        ensures
            final(self)@ == (AppState {
                selection: one_clicked(old(self)@.selection, id, toggle),
                selection_anchor: Some(id),
                ..old(self)@
            }),
    {
        let ghost s = self@;
        if toggle {
            if !self.selection.remove(&id) {
                self.selection.insert(id);
            }
        } else {
            self.selection.clear();
            self.selection.insert(id);
        }
        self.selection_anchor = Some(id);
        assert(self@.selection =~= one_clicked(s.selection, id, toggle));
        assert(self@ =~= (AppState {
            selection: one_clicked(s.selection, id, toggle),
            selection_anchor: Some(id),
            ..s
        }));
    }

    /// Apply a click on the card at `idx`: a plain click selects just it,
    /// Ctrl/Cmd+click toggles it, Shift+click selects the range from the
    /// anchor to it (added to the selection with Ctrl too).
    pub fn select_click(&mut self, idx: usize, shift: bool, command: bool)
        requires
            old(self)@.wf(),
            idx < old(self)@.entries.len(),
        ensures
            final(self)@.wf(),
            final(self)@ == clicked(old(self)@, idx as int, shift, command),
    {
        let id: u64 = self.entries[idx].id;
        assert(self@.entries[idx as int].id == id);
        if shift {
            if let Some(anchor) = self.selection_anchor {
                let a: usize = self.place(anchor);
                let b: usize = self.place(id);
                let n: usize = self.visible_order.len();
                if a < n && b < n {
                    let (lo, hi): (usize, usize) = if a < b {
                        (a, b)
                    } else {
                        (b, a)
                    };
                    self.select_range(lo, hi + 1, command);
                    return;
                }
            }
        }
        self.select_one(id, command);
    }

    /// Selects every photo that was shown.
    pub fn select_all(&mut self)
        requires
            old(self)@.wf(),
        ensures
            final(self)@.wf(),
            final(self)@ == (AppState {
                selection: shown_between(
                    old(self)@.visible_order,
                    old(self)@.entries,
                    0,
                    old(self)@.visible_order.len() as int,
                ),
                ..old(self)@
            }),
    {
        let n: usize = self.visible_order.len();
        self.select_range(0, n, false);
    }

    /// Selects nothing.
    pub fn deselect(&mut self)
        requires
            old(self)@.wf(),
        ensures
            final(self)@.wf(),
            final(self)@ == (AppState { selection: Set::empty(), ..old(self)@ }),
    {
        self.selection.clear();
        assert(self@ =~= (AppState { selection: Set::empty(), ..old(self)@ }));
    }

    /// The Escape key: selects nothing, unless the viewer is open (there it
    /// just closes the viewer).
    pub fn escape(&mut self)
        requires
            old(self)@.wf(),
        ensures
            final(self)@.wf(),
            final(self)@ == (if old(self)@.viewer is None {
                AppState { selection: Set::empty(), ..old(self)@ }
            } else {
                old(self)@
            }),
    {
        if self.viewer.is_none() {
            self.deselect();
        }
    }

    /// Whether the photo of entry `idx` is selected.
    pub fn is_selected(&self, idx: usize) -> (r: bool)
        requires
            idx < self@.entries.len(),
        ensures
            r == self@.selection.contains(self@.entries[idx as int].id),
    {
        assert(self@.entries[idx as int] == self.entries@[idx as int]@);
        self.selection.contains(&self.entries[idx].id)
    }

    /// Notes that the cards of these entries are drawn, in this order.
    pub fn show_cards(&mut self, indices: &Vec<usize>)
        requires
            old(self)@.wf(),
            in_range(indices@, old(self)@.entries.len()),
        ensures
            final(self)@.wf(),
            final(self)@ == (AppState {
                visible_order_next: old(self)@.visible_order_next + indices@,
                ..old(self)@
            }),
    {
        let ghost s = self@;
        let n: usize = indices.len();
        assert(s.visible_order_next + indices@.take(0) =~= s.visible_order_next);
        for i in 0..n
            invariant
                n == indices@.len(),
                s == old(self)@,
                self@ == (AppState {
                    visible_order_next: s.visible_order_next + indices@.take(i as int),
                    ..s
                }),
        {
            self.visible_order_next.push(indices[i]);
            assert(self@ =~= (AppState {
                visible_order_next: s.visible_order_next + indices@.take(i + 1),
                ..s
            }));
        }
        assert(indices@.take(n as int) =~= indices@);
    }

    /// The frame is drawn: the cards shown in it are what clicks refer to.
    pub fn end_frame(&mut self)
        requires
            old(self)@.wf(),
        ensures
            final(self)@.wf(),
            final(self)@ == (AppState {
                visible_order: old(self)@.visible_order_next,
                visible_order_next: Seq::empty(),
                ..old(self)@
            }),
    {
        let mut shown: Vec<usize> = Vec::new();
        std::mem::swap(&mut shown, &mut self.visible_order_next);
        self.visible_order = shown;
        assert(self@ =~= (AppState {
            visible_order: old(self)@.visible_order_next,
            visible_order_next: Seq::empty(),
            ..old(self)@
        }));
    }
}

/// A plain click selects the clicked photo and nothing else.
pub proof fn plain_click_selects_one(s: AppState, idx: int)
    ensures
        clicked(s, idx, false, false).selection == Set::<u64>::empty().insert(s.entries[idx].id),
        clicked(s, idx, false, false).selection_anchor == Some(s.entries[idx].id),
{
}

/// Ctrl+clicking a photo twice leaves the selection as it was.
pub proof fn toggling_twice_restores(s: AppState, idx: int)
    ensures
        clicked(clicked(s, idx, false, true), idx, false, true).selection == s.selection,
{
    let id = s.entries[idx].id;
    let twice = clicked(clicked(s, idx, false, true), idx, false, true).selection;
    assert(twice =~= s.selection);
}

/// A range reaches from the anchor to the clicked photo: both are selected,
/// and the anchor stays where it was.
pub proof fn range_holds_both_ends(s: AppState, idx: int, command: bool)
    requires
        range_clicked(s, s.entries[idx].id) is Some,
    ensures
        clicked(s, idx, true, command).selection.contains(s.entries[idx].id),
        clicked(s, idx, true, command).selection.contains(s.selection_anchor->0),
        clicked(s, idx, true, command).selection_anchor == s.selection_anchor,
        command ==> s.selection.subset_of(clicked(s, idx, true, command).selection),
{
    let id = s.entries[idx].id;
    let anchor = s.selection_anchor->0;
    let a = place_of(s.visible_order, s.entries, anchor);
    let b = place_of(s.visible_order, s.entries, id);
    place_has(s.visible_order, s.entries, anchor);
    place_has(s.visible_order, s.entries, id);
    assert(s.entries[s.visible_order[a] as int].id == anchor);
    assert(s.entries[s.visible_order[b] as int].id == id);
}

proof fn place_has(order: Seq<usize>, entries: Seq<Entry>, id: u64)
    ensures
        0 <= place_of(order, entries, id) <= order.len(),
        place_of(order, entries, id) < order.len() ==> entries[order[place_of(
            order,
            entries,
            id,
        )] as int].id == id,
    decreases order.len(),
{
    if order.len() > 0 {
        place_has(order.drop_last(), entries, id);
    }
}

/// What a click on a card does. A plain click selects the photo alone;
/// Ctrl+click turns it over and leaves the others; either makes it the anchor,
/// and so does Shift+click while there is no anchor. Nothing else of the
/// session changes.
pub proof fn clicks_change_only_the_selection(
    s: AppState,
    idx: int,
    shift: bool,
    command: bool,
    x: u64,
)
    ensures
        ({
            let id = s.entries[idx].id;
            let r = clicked(s, idx, shift, command);
            &&& !shift || s.selection_anchor is None ==> {
                &&& r.selection_anchor == Some(id)
                &&& !command ==> (r.selection.contains(x) <==> x == id)
                &&& command && x != id ==> (r.selection.contains(x) <==> s.selection.contains(x))
                &&& command ==> (r.selection.contains(id) <==> !s.selection.contains(id))
            }
            &&& r == (AppState {
                selection: r.selection,
                selection_anchor: r.selection_anchor,
                ..s
            })
        }),
{
}

/// Shift+click selects exactly the photos whose cards stand from the anchor's
/// to the clicked one, whichever comes first, both included; with Ctrl, on top
/// of what was selected. The anchor stays. (Here every photo shown has one
/// card.)
pub proof fn ranges_select_what_lies_between(
    s: AppState,
    idx: int,
    a: int,
    b: int,
    command: bool,
    x: u64,
)
    requires
        0 <= a < s.visible_order.len(),
        0 <= b < s.visible_order.len(),
        s.selection_anchor == Some(s.entries[s.visible_order[a] as int].id),
        s.entries[s.visible_order[b] as int].id == s.entries[idx].id,
        forall|i: int, j: int|
            0 <= i < j < s.visible_order.len() ==> s.entries[#[trigger] s.visible_order[i] as int].id
                != s.entries[#[trigger] s.visible_order[j] as int].id,
    ensures
        ({
            let r = clicked(s, idx, true, command);
            &&& r.selection_anchor == s.selection_anchor
            &&& r.selection.contains(x) <==> command && s.selection.contains(x) || exists|k: int|
                (a <= k <= b || b <= k <= a) && s.entries[#[trigger] s.visible_order[k] as int].id
                    == x
        }),
{
    let order = s.visible_order;
    place_is(order, s.entries, s.entries[order[a] as int].id, a);
    place_is(order, s.entries, s.entries[order[b] as int].id, b);
    let (lo, hi) = if a < b {
        (a, b)
    } else {
        (b, a)
    };
    let range = shown_between(order, s.entries, lo, hi + 1);
    assert(range_clicked(s, s.entries[idx].id) == Some(range));
    if range.contains(x) {
        let k = choose|k: int| lo <= k < hi + 1 && s.entries[#[trigger] order[k] as int].id == x;
        assert((a <= k <= b || b <= k <= a) && s.entries[order[k] as int].id == x);
    }
    if exists|k: int|
        (a <= k <= b || b <= k <= a) && s.entries[#[trigger] order[k] as int].id == x {
        let k = choose|k: int|
            (a <= k <= b || b <= k <= a) && s.entries[#[trigger] order[k] as int].id == x;
        assert(lo <= k < hi + 1 && s.entries[order[k] as int].id == x);
        assert(range.contains(x));
    }
}

/// Selecting everything shown selects exactly the photos that have a card.
pub proof fn all_shown_photos_are_selected(order: Seq<usize>, entries: Seq<Entry>, x: u64)
    ensures
        shown_between(order, entries, 0, order.len() as int).contains(x) <==> exists|k: int|
            0 <= k < order.len() && entries[#[trigger] order[k] as int].id == x,
{
}

} // verus!
