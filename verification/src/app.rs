//! The state of the culling session, and what each event and each click does
//! to it. Nothing here draws or waits: the window asks this state what to show,
//! and tells it what happened.

use std::collections::HashSet;

use vstd::prelude::*;

use crate::metrics::{Metrics, Weights};
use crate::path::PhotoPath;
use crate::pipeline::{Funnel, PipelineResult};
use crate::rank::in_range;
use crate::scan::{
    views, PhotoResult, RecomputeEvent, RecomputeResult, ScanEvent, ScanMode,
};
use crate::sharpness::{PhotoMode, SharpnessMethod};

verus! {

broadcast use vstd::std_specs::hash::group_hash_axioms;

/// A scanned photo.
pub struct PhotoEntry {
    /// The photo's number: one number stands for one path.
    pub id: u64,
    pub path: PhotoPath,
    pub mode: PhotoMode,
    /// Absolute sharpness, in billionths.
    pub score: u64,
    pub metrics: Metrics,
    /// Perceptual hash for duplicate/burst detection.
    pub phash: u64,
    /// True if `mode` was changed since `score` (and `metrics`) was last
    /// computed for it, i.e. the values shown are stale.
    pub dirty: bool,
    /// The user's manual mark (`Some(true)`) or unmark (`Some(false)`) of this
    /// photo as disqualified, overriding the score threshold. `None` follows
    /// the threshold.
    pub manual_dq: Option<bool>,
}

/// What is known of a scanned photo.
#[verifier::ext_equal]
pub struct Entry {
    pub id: u64,
    pub path: Seq<Seq<u8>>,
    pub mode: PhotoMode,
    pub score: u64,
    pub metrics: Metrics,
    pub phash: u64,
    pub dirty: bool,
    pub manual_dq: Option<bool>,
}

impl View for PhotoEntry {
    type V = Entry;

    open spec fn view(&self) -> Entry {
        Entry {
            id: self.id,
            path: self.path@,
            mode: self.mode,
            score: self.score,
            metrics: self.metrics,
            phash: self.phash,
            dirty: self.dirty,
            manual_dq: self.manual_dq,
        }
    }
}

/// Which set of photos is shown.
#[derive(Debug, Clone, Copy, PartialEq, Eq, Structural)]
pub enum ViewMode {
    /// Every scanned photo, in one sortable grid.
    Flat,
    /// Only photos belonging to a duplicate/burst group, one section per
    /// group.
    Grouped,
    /// The shortlist of the last run of the funnel.
    Pipeline,
}

/// Which score the grid is sorted by. The absolute-sharpness cull always
/// operates on `score` regardless of this.
#[derive(Debug, Clone, Copy, PartialEq, Eq, Structural)]
pub enum SortBy {
    Sharpness,
    Overall,
}

/// The full-size view that is open.
#[derive(Debug, Clone, Copy, PartialEq, Eq, Structural)]
pub struct Viewer {
    pub id: u64,
    /// False while the full-size decode is still in flight.
    pub loaded: bool,
}

/// The thumbnail the pointer is resting on, and since when.
#[derive(Debug, Clone, Copy, PartialEq, Eq, Structural)]
pub struct HoverZoom {
    pub id: u64,
    /// In milliseconds of the session's clock.
    pub since: u64,
}

/// How the last move of disqualified photos went.
#[derive(Debug, Clone, Copy, PartialEq, Eq, Structural)]
pub struct MoveStatus {
    pub moved: usize,
    pub failed: usize,
}

/// The end of a background decode of one photo.
#[derive(Debug, Clone, Copy, PartialEq, Eq, Structural)]
pub enum PreviewEvent {
    Loaded(u64),
    Failed(u64),
}

/// What a running move reports.
pub enum MoveEvent {
    Moved(u64),
    Failed(PhotoPath, String),
    Done,
}

/// The culling session.
pub struct Photo2CullApp {
    /// Folders chosen for the next scan.
    pub roots: Vec<PhotoPath>,
    /// Folders the current results were scanned from. Kept separate from
    /// `roots` so editing the list after a scan doesn't change where
    /// disqualified photos are moved to.
    pub scanned_roots: Vec<PhotoPath>,
    pub scan_mode: ScanMode,
    /// How sharpness is measured for the next scan.
    pub sharpness_method: SharpnessMethod,
    /// Method the current results were scored with; recalculation reuses it so
    /// type overrides stay comparable with the rest of the scan.
    pub scanned_method: SharpnessMethod,
    pub entries: Vec<PhotoEntry>,
    pub errors: Vec<(PhotoPath, String)>,
    pub total_found: usize,
    pub processed: usize,
    pub scanning: bool,
    pub recomputing: bool,
    /// Photos that score this (in billionths) or less are disqualified.
    pub cull_threshold: u64,
    pub viewer: Option<Viewer>,
    /// Magnifier lens strength, in percent of the thumbnail's on-screen size.
    pub zoom_percent: u32,
    /// Milliseconds the pointer must rest on a thumbnail before the lens shows.
    pub zoom_delay_ms: u32,
    /// On-screen diameter of the magnifier lens, in points.
    pub lens_diameter: u32,
    /// Photos selected in the grid, by number, so the selection survives moves
    /// and re-sorts.
    pub selection: HashSet<u64>,
    /// The photo a Shift+click range extends from.
    pub selection_anchor: Option<u64>,
    /// Entry indices in the order the cards were drawn last frame; what a
    /// Shift+click range walks over.
    pub visible_order: Vec<usize>,
    /// The same, being built up during the current frame.
    pub visible_order_next: Vec<usize>,
    pub hover_zoom: Option<HoverZoom>,
    /// Whether a thumbnail was hovered this frame.
    pub hover_zoom_seen: bool,
    /// Photos whose sharper picture is at hand, the oldest first.
    pub zoom_cache: Vec<u64>,
    /// Photos whose sharper picture was asked for and has not come.
    pub zoom_loading: HashSet<u64>,
    pub moving: bool,
    pub move_moved: usize,
    pub move_failed: usize,
    pub move_status: Option<MoveStatus>,
    pub weights: Weights,
    pub sort_by: SortBy,
    pub view_mode: ViewMode,
    /// Duplicate/burst clusters (2+ members each) from the last grouping, as
    /// photo numbers so they stay valid across moves.
    pub groups: Vec<Vec<u64>>,
    /// Max hash distance for two photos to be considered duplicates.
    pub group_threshold: u32,
    /// How many photos the final shortlist keeps.
    pub pipeline_top_n: usize,
    pub pipeline_result: Option<PipelineResult>,
}

/// The state of a culling session.
#[verifier::ext_equal]
pub struct AppState {
    pub roots: Seq<Seq<Seq<u8>>>,
    pub scanned_roots: Seq<Seq<Seq<u8>>>,
    pub scan_mode: ScanMode,
    pub sharpness_method: SharpnessMethod,
    pub scanned_method: SharpnessMethod,
    pub entries: Seq<Entry>,
    pub errors: Seq<(Seq<Seq<u8>>, Seq<char>)>,
    pub total_found: int,
    pub processed: int,
    pub scanning: bool,
    pub recomputing: bool,
    pub cull_threshold: u64,
    pub viewer: Option<Viewer>,
    pub zoom_percent: u32,
    pub zoom_delay_ms: u32,
    pub lens_diameter: u32,
    pub selection: Set<u64>,
    pub selection_anchor: Option<u64>,
    pub visible_order: Seq<usize>,
    pub visible_order_next: Seq<usize>,
    pub hover_zoom: Option<HoverZoom>,
    pub hover_zoom_seen: bool,
    pub zoom_cache: Seq<u64>,
    pub zoom_loading: Set<u64>,
    pub moving: bool,
    pub move_moved: int,
    pub move_failed: int,
    pub move_status: Option<MoveStatus>,
    pub weights: Weights,
    pub sort_by: SortBy,
    pub view_mode: ViewMode,
    pub groups: Seq<Seq<u64>>,
    pub group_threshold: u32,
    pub pipeline_top_n: int,
    pub pipeline_result: Option<Funnel>,
}

/// What is known of the scanned photos.
pub open spec fn entry_views(entries: Seq<PhotoEntry>) -> Seq<Entry> {
    entries.map_values(|e: PhotoEntry| e@)
}

/// The paths and messages of failures.
pub open spec fn error_views(errors: Seq<(PhotoPath, String)>) -> Seq<(Seq<Seq<u8>>, Seq<char>)> {
    errors.map_values(|e: (PhotoPath, String)| (e.0@, e.1@))
}

/// The members of groups.
pub open spec fn group_views(groups: Seq<Vec<u64>>) -> Seq<Seq<u64>> {
    groups.map_values(|g: Vec<u64>| g@)
}

impl View for Photo2CullApp {
    type V = AppState;

    open spec fn view(&self) -> AppState {
        AppState {
            roots: views(self.roots@),
            scanned_roots: views(self.scanned_roots@),
            scan_mode: self.scan_mode,
            sharpness_method: self.sharpness_method,
            scanned_method: self.scanned_method,
            entries: entry_views(self.entries@),
            errors: error_views(self.errors@),
            total_found: self.total_found as int,
            processed: self.processed as int,
            scanning: self.scanning,
            recomputing: self.recomputing,
            cull_threshold: self.cull_threshold,
            viewer: self.viewer,
            zoom_percent: self.zoom_percent,
            zoom_delay_ms: self.zoom_delay_ms,
            lens_diameter: self.lens_diameter,
            selection: self.selection@,
            selection_anchor: self.selection_anchor,
            visible_order: self.visible_order@,
            visible_order_next: self.visible_order_next@,
            hover_zoom: self.hover_zoom,
            hover_zoom_seen: self.hover_zoom_seen,
            zoom_cache: self.zoom_cache@,
            zoom_loading: self.zoom_loading@,
            moving: self.moving,
            move_moved: self.move_moved as int,
            move_failed: self.move_failed as int,
            move_status: self.move_status,
            weights: self.weights,
            sort_by: self.sort_by,
            view_mode: self.view_mode,
            groups: group_views(self.groups@),
            group_threshold: self.group_threshold,
            pipeline_top_n: self.pipeline_top_n as int,
            pipeline_result: match self.pipeline_result {
                Some(r) => Some(r@),
                None => None,
            },
        }
    }
}

/// The state of a session that has just been opened.
pub open spec fn initial_state() -> AppState {
    AppState {
        roots: Seq::empty(),
        scanned_roots: Seq::empty(),
        scan_mode: ScanMode::Auto,
        sharpness_method: SharpnessMethod::FixedRegion,
        scanned_method: SharpnessMethod::FixedRegion,
        entries: Seq::empty(),
        errors: Seq::empty(),
        total_found: 0,
        processed: 0,
        scanning: false,
        recomputing: false,
        cull_threshold: 32_000_000_000,
        viewer: None,
        zoom_percent: 800,
        zoom_delay_ms: 1200,
        lens_diameter: 300,
        selection: Set::empty(),
        selection_anchor: None,
        visible_order: Seq::empty(),
        visible_order_next: Seq::empty(),
        hover_zoom: None,
        hover_zoom_seen: false,
        zoom_cache: Seq::empty(),
        zoom_loading: Set::empty(),
        moving: false,
        move_moved: 0,
        move_failed: 0,
        move_status: None,
        weights: Weights {
            sharpness: 250_000,
            exposure: 150_000,
            contrast: 100_000,
            color: 100_000,
            composition: 250_000,
            subject: 150_000,
        },
        sort_by: SortBy::Sharpness,
        view_mode: ViewMode::Flat,
        groups: Seq::empty(),
        group_threshold: 6,
        pipeline_top_n: 150,
        pipeline_result: None,
    }
}

impl AppState {
    /// Every card that was drawn stands for an entry, and no more sharper
    /// pictures are held than the cache has room for.
    pub open spec fn wf(self) -> bool {
        &&& in_range(self.visible_order, self.entries.len())
        &&& in_range(self.visible_order_next, self.entries.len())
        &&& self.zoom_cache.len() <= HOVER_ZOOM_CACHE
    }
}

/// Decoded hover-zoom pictures kept around so re-hovering a photo is instant.
pub const HOVER_ZOOM_CACHE: usize = 8;

/// The state once a scan of the chosen roots has begun: everything that
/// belongs to the previous results is gone.
pub open spec fn scan_begun(s: AppState) -> AppState {
    AppState {
        scanned_roots: s.roots,
        scanned_method: s.sharpness_method,
        hover_zoom: None,
        zoom_cache: Seq::empty(),
        selection: Set::empty(),
        selection_anchor: None,
        visible_order: Seq::empty(),
        visible_order_next: Seq::empty(),
        entries: Seq::empty(),
        errors: Seq::empty(),
        total_found: 0,
        processed: 0,
        scanning: true,
        groups: Seq::empty(),
        pipeline_result: None,
        view_mode: ViewMode::Flat,
        ..s
    }
}

/// The folders of the next scan once one has been added.
pub open spec fn root_added(roots: Seq<Seq<Seq<u8>>>, folder: Seq<Seq<u8>>) -> Seq<Seq<Seq<u8>>> {
    if roots.contains(folder) {
        roots
    } else {
        roots.push(folder)
    }
}

/// A folder that is added is on the list, behind the others, and none is on it
/// twice; adding it again changes nothing.
pub proof fn folders_are_listed_once(roots: Seq<Seq<Seq<u8>>>, folder: Seq<Seq<u8>>, i: int)
    ensures
        root_added(roots, folder).contains(folder),
        root_added(root_added(roots, folder), folder) == root_added(roots, folder),
        roots.no_duplicates() ==> root_added(roots, folder).no_duplicates(),
        0 <= i < roots.len() ==> root_added(roots, folder)[i] == roots[i],
        root_added(roots, folder).len() <= roots.len() + 1,
{
    if !roots.contains(folder) {
        let r = roots.push(folder);
        assert(r[roots.len() as int] == folder);
        if roots.no_duplicates() {
            assert forall|a: int, b: int| 0 <= a < r.len() && 0 <= b < r.len() && a != b implies r[a]
                != r[b] by {
                if a == roots.len() && r[b] == folder {
                    assert(roots[b] == folder);
                }
                if b == roots.len() && r[a] == folder {
                    assert(roots[a] == folder);
                }
            }
        }
    }
}

/// What a scan is to do.
pub struct ScanRequest {
    pub roots: Vec<PhotoPath>,
    pub scan_mode: ScanMode,
    pub method: SharpnessMethod,
}

/// What a recalculation is to do: which photos, and with what type each.
pub struct RecomputeRequest {
    pub items: Vec<(u64, PhotoMode)>,
    pub method: SharpnessMethod,
}

/// A list of its own with the same paths.
fn copy_paths(paths: &Vec<PhotoPath>) -> (r: Vec<PhotoPath>)
    ensures
        views(r@) == views(paths@),
{
    let mut out: Vec<PhotoPath> = Vec::new();
    let n: usize = paths.len();
    for i in 0..n
        invariant
            n == paths@.len(),
            views(out@) =~= views(paths@).take(i as int),
    {
        let copied = paths[i].copy();
        let ghost before = views(out@);
        out.push(copied);
        assert(views(out@) =~= before.push(copied@));
    }
    assert(views(paths@).take(n as int) =~= views(paths@));
    out
}

impl Photo2CullApp {
    /// A session that has just been opened.
    pub fn new() -> (r: Self)
        ensures
            r@ == initial_state(),
            r@.wf(),
    {
        let r = Photo2CullApp {
            roots: Vec::new(),
            scanned_roots: Vec::new(),
            scan_mode: ScanMode::Auto,
            sharpness_method: SharpnessMethod::FixedRegion,
            scanned_method: SharpnessMethod::FixedRegion,
            entries: Vec::new(),
            errors: Vec::new(),
            total_found: 0,
            processed: 0,
            scanning: false,
            recomputing: false,
            cull_threshold: 32_000_000_000,
            viewer: None,
            zoom_percent: 800,
            zoom_delay_ms: 1200,
            lens_diameter: 300,
            selection: HashSet::new(),
            selection_anchor: None,
            visible_order: Vec::new(),
            visible_order_next: Vec::new(),
            hover_zoom: None,
            hover_zoom_seen: false,
            zoom_cache: Vec::new(),
            zoom_loading: HashSet::new(),
            moving: false,
            move_moved: 0,
            move_failed: 0,
            move_status: None,
            weights: Weights::default(),
            sort_by: SortBy::Sharpness,
            view_mode: ViewMode::Flat,
            groups: Vec::new(),
            group_threshold: 6,
            pipeline_top_n: 150,
            pipeline_result: None,
        };
        assert(r@ =~= initial_state());
        r
    }

    /// Begins a scan of the chosen roots, if there are any; says what to scan.
    pub fn start_scan(&mut self) -> (r: Option<ScanRequest>)
        requires
            old(self)@.wf(),
        ensures
            final(self)@.wf(),
            r is None <==> old(self)@.roots.len() == 0,
            r is None ==> final(self)@ == old(self)@,
            r matches Some(request) ==> {
                &&& final(self)@ == scan_begun(old(self)@)
                &&& views(request.roots@) == old(self)@.roots
                &&& request.scan_mode == old(self)@.scan_mode
                &&& request.method == old(self)@.sharpness_method
            },
    {
        if self.roots.len() == 0 {
            return None;
        }
        let request = ScanRequest {
            roots: copy_paths(&self.roots),
            scan_mode: self.scan_mode,
            method: self.sharpness_method,
        };
        self.scanned_roots = copy_paths(&self.roots);
        self.hover_zoom = None;
        self.zoom_cache.clear();
        self.selection.clear();
        self.selection_anchor = None;
        self.visible_order.clear();
        self.visible_order_next.clear();
        self.entries.clear();
        self.errors.clear();
        self.total_found = 0;
        self.processed = 0;
        self.scanning = true;
        self.groups.clear();
        self.pipeline_result = None;
        self.view_mode = ViewMode::Flat;
        self.scanned_method = self.sharpness_method;
        assert(self@ =~= scan_begun(old(self)@));
        Some(request)
    }

    /// Adds a folder to the next scan, unless it is already on the list.
    pub fn add_root(&mut self, folder: PhotoPath)
        requires
            old(self)@.wf(),
        ensures
            final(self)@.wf(),
            final(self)@ == (if old(self)@.roots.contains(folder@) {
                old(self)@
            } else {
                AppState { roots: old(self)@.roots.push(folder@), ..old(self)@ }
            }),
            final(self)@.roots == root_added(old(self)@.roots, folder@),
    {
        let n: usize = self.roots.len();
        for i in 0..n
            invariant
                n == self.roots@.len(),
                self@ == old(self)@,
                old(self)@.wf(),
                forall|k: int| 0 <= k < i ==> #[trigger] self@.roots[k] != folder@,
        {
            assert(self@.roots[i as int] == self.roots@[i as int]@);
            if self.roots[i].same(&folder) {
                assert(self@.roots.contains(folder@));
                return;
            }
        }
        self.roots.push(folder);
        assert(self@ =~= (AppState { roots: old(self)@.roots.push(folder@), ..old(self)@ }));
    }

    /// Takes every folder off the next scan.
    pub fn clear_roots(&mut self)
        requires
            old(self)@.wf(),
        ensures
            final(self)@.wf(),
            final(self)@ == (AppState { roots: Seq::empty(), ..old(self)@ }),
    {
        self.roots.clear();
        assert(self@ =~= (AppState { roots: Seq::empty(), ..old(self)@ }));
    }

    /// Takes one folder off the next scan.
    pub fn remove_root(&mut self, i: usize)
        requires
            old(self)@.wf(),
            i < old(self)@.roots.len(),
        ensures
            final(self)@.wf(),
            final(self)@ == (AppState { roots: old(self)@.roots.remove(i as int), ..old(self)@ }),
    {
        self.roots.remove(i);
        assert(self@ =~= (AppState { roots: old(self)@.roots.remove(i as int), ..old(self)@ }));
    }

    /// Takes in what a running scan reports.
    pub fn scan_event(&mut self, event: ScanEvent)
        requires
            old(self)@.wf(),
            event is Photo || event is Failed ==> old(self)@.processed < usize::MAX,
        ensures
            final(self)@.wf(),
            final(self)@ == after_scan_event(old(self)@, event),
    {
        let ghost target = after_scan_event(self@, event);
        match event {
            ScanEvent::Found(n) => {
                self.total_found = n;
            },
            ScanEvent::Photo(p) => {
                self.processed = self.processed + 1;
                self.entries.push(
                    PhotoEntry {
                        id: p.id,
                        path: p.path,
                        mode: p.mode,
                        score: p.score,
                        metrics: p.metrics,
                        phash: p.phash,
                        dirty: false,
                        manual_dq: None,
                    },
                );
            },
            ScanEvent::Failed(path, err) => {
                self.processed = self.processed + 1;
                self.errors.push((path, err));
            },
            ScanEvent::Done => {
                self.scanning = false;
            },
        }
        assert(self@ =~= target);
    }

    /// Begins to re-score every entry whose type was changed since its last
    /// score, unless that is going on already or there are none; says which,
    /// with what type, and by the method of the last scan.
    pub fn start_recompute(&mut self) -> (r: Option<RecomputeRequest>)
        requires
            old(self)@.wf(),
        ensures
            final(self)@.wf(),
            r is Some <==> !old(self)@.recomputing && stale(old(self)@.entries).len() > 0,
            r is None ==> final(self)@ == old(self)@,
            r matches Some(request) ==> {
                &&& request.items@ == stale(old(self)@.entries)
                &&& request.method == old(self)@.scanned_method
                &&& final(self)@ == (AppState { recomputing: true, ..old(self)@ })
            },
    {
        if self.recomputing {
            return None;
        }
        let mut items: Vec<(u64, PhotoMode)> = Vec::new();
        let n: usize = self.entries.len();
        for i in 0..n
            invariant
                n == self.entries@.len(),
                self@ == old(self)@,
                self@.wf(),
                items@ =~= stale(self@.entries.take(i as int)),
        {
            assert(self@.entries.take(i + 1).drop_last() =~= self@.entries.take(i as int));
            assert(self@.entries[i as int] == self.entries@[i as int]@);
            if self.entries[i].dirty {
                items.push((self.entries[i].id, self.entries[i].mode));
            }
        }
        assert(self@.entries.take(n as int) =~= self@.entries);
        if items.len() == 0 {
            return None;
        }
        self.recomputing = true;
        assert(self@ =~= (AppState { recomputing: true, ..old(self)@ }));
        Some(RecomputeRequest { items, method: self.scanned_method })
    }

    /// Takes in what a running recalculation reports.
    pub fn recompute_event(&mut self, event: RecomputeEvent)
        requires
            old(self)@.wf(),
        ensures
            final(self)@.wf(),
            final(self)@ == after_recompute_event(old(self)@, event),
    {
        let ghost target = after_recompute_event(self@, event);
        match event {
            RecomputeEvent::Result(r) => {
                let n: usize = self.entries.len();
                let mut i: usize = 0;
                while i < n && self.entries[i].id != r.id
                    invariant
                        i <= n == self.entries@.len(),
                        self@ == old(self)@,
                        self@.wf(),
                        forall|k: int| 0 <= k < i ==> (#[trigger] self@.entries[k]).id != r.id,
                    decreases n - i,
                {
                    assert(self@.entries[i as int] == self.entries@[i as int]@);
                    i = i + 1;
                }
                proof {
                    first_with_is(self@.entries, r.id, i as int);
                }
                if i < n {
                    let ghost before = self@.entries;
                    self.entries[i].score = r.score;
                    self.entries[i].metrics = r.metrics;
                    self.entries[i].dirty = false;
                    assert(self@.entries =~= before.update(
                        i as int,
                        Entry {
                            score: r.score,
                            metrics: r.metrics,
                            dirty: false,
                            ..before[i as int]
                        },
                    ));
                }
            },
            RecomputeEvent::Done => {
                self.recomputing = false;
            },
        }
        assert(self@ =~= target);
    }
}

/// The state once a scan has reported `event`.
pub open spec fn after_scan_event(s: AppState, event: ScanEvent) -> AppState {
    match event {
        ScanEvent::Found(n) => AppState { total_found: n as int, ..s },
        ScanEvent::Photo(p) => AppState {
            processed: s.processed + 1,
            entries: s.entries.push(
                Entry {
                    id: p.id,
                    path: p.path@,
                    mode: p.mode,
                    score: p.score,
                    metrics: p.metrics,
                    phash: p.phash,
                    dirty: false,
                    manual_dq: None,
                },
            ),
            ..s
        },
        ScanEvent::Failed(path, err) => AppState {
            processed: s.processed + 1,
            errors: s.errors.push((path@, err@)),
            ..s
        },
        ScanEvent::Done => AppState { scanning: false, ..s },
    }
}

/// The entries whose scores are stale, and the types to score them with.
pub open spec fn stale(entries: Seq<Entry>) -> Seq<(u64, PhotoMode)>
    decreases entries.len(),
{
    if entries.len() == 0 {
        Seq::empty()
    } else {
        let before = stale(entries.drop_last());
        let e = entries.last();
        if e.dirty {
            before.push((e.id, e.mode))
        } else {
            before
        }
    }
}

/// The place of the first entry with a number, or the end of the list.
pub open spec fn first_with(entries: Seq<Entry>, id: u64) -> int
    decreases entries.len(),
{
    if entries.len() == 0 {
        0
    } else {
        let before = first_with(entries.drop_last(), id);
        if before < entries.len() - 1 || entries.last().id == id {
            before
        } else {
            entries.len() as int
        }
    }
}

proof fn first_with_is(entries: Seq<Entry>, id: u64, i: int)
    requires
        0 <= i <= entries.len(),
        forall|k: int| 0 <= k < i ==> (#[trigger] entries[k]).id != id,
        i < entries.len() ==> entries[i].id == id,
    ensures
        first_with(entries, id) == i,
    decreases entries.len(),
{
    if entries.len() > 0 {
        let t = entries.drop_last();
        if i < entries.len() {
            if i < t.len() {
                assert(t[i] == entries[i]);
            }
            first_with_is(t, id, i);
        } else {
            first_with_is(t, id, i - 1);
            assert(entries[i - 1].id != id);
        }
    }
}

/// The state once a recalculation has reported `event`.
pub open spec fn after_recompute_event(s: AppState, event: RecomputeEvent) -> AppState {
    match event {
        RecomputeEvent::Result(r) => {
            let i = first_with(s.entries, r.id);
            if i < s.entries.len() {
                AppState {
                    entries: s.entries.update(
                        i,
                        Entry {
                            score: r.score,
                            metrics: r.metrics,
                            dirty: false,
                            ..s.entries[i]
                        },
                    ),
                    ..s
                }
            } else {
                s
            }
        },
        RecomputeEvent::Done => AppState { recomputing: false, ..s },
    }
}

/// A new scan starts from nothing: it forgets every photo, failure, group,
/// shortlist, selection and picture of the one before, and remembers what it
/// scans and how. What the user has set stays.
pub proof fn scans_start_afresh(s: AppState)
    ensures
        ({
            let b = scan_begun(s);
            &&& b.scanning
            &&& b.scanned_roots == s.roots
            &&& b.scanned_method == s.sharpness_method
            &&& b.entries.len() == 0
            &&& b.errors.len() == 0
            &&& b.total_found == 0
            &&& b.processed == 0
            &&& b.groups.len() == 0
            &&& b.pipeline_result is None
            &&& b.view_mode == ViewMode::Flat
            &&& b.selection == Set::<u64>::empty()
            &&& b.selection_anchor is None
            &&& b.visible_order.len() == 0
            &&& b.visible_order_next.len() == 0
            &&& b.hover_zoom is None
            &&& b.zoom_cache.len() == 0
            &&& b.roots == s.roots
            &&& b.scan_mode == s.scan_mode
            &&& b.sharpness_method == s.sharpness_method
            &&& b.cull_threshold == s.cull_threshold
            &&& b.weights == s.weights
            &&& b.sort_by == s.sort_by
            &&& b.group_threshold == s.group_threshold
            &&& b.pipeline_top_n == s.pipeline_top_n
            &&& b.zoom_percent == s.zoom_percent
            &&& b.zoom_delay_ms == s.zoom_delay_ms
            &&& b.lens_diameter == s.lens_diameter
            &&& b.moving == s.moving
            &&& b.recomputing == s.recomputing
        }),
{
}

/// What a scan reports is taken in as it stands: each photo is listed behind
/// the others with all that was learnt of it, fresh and without a mark, each
/// failure with its reason, and both count as processed.
pub proof fn scan_reports_are_listed(s: AppState, n: usize, p: PhotoResult, path: PhotoPath, err: String)
    ensures
        after_scan_event(s, ScanEvent::Found(n)) == (AppState { total_found: n as int, ..s }),
        ({
            let r = after_scan_event(s, ScanEvent::Photo(p));
            let e = r.entries.last();
            &&& r.processed == s.processed + 1
            &&& r.entries.len() == s.entries.len() + 1
            &&& r.entries.drop_last() == s.entries
            &&& e.id == p.id && e.path == p.path@ && e.mode == p.mode
            &&& e.score == p.score && e.metrics == p.metrics && e.phash == p.phash
            &&& !e.dirty && e.manual_dq is None
            &&& r.errors == s.errors && r.scanning == s.scanning && r.total_found == s.total_found
        }),
        ({
            let r = after_scan_event(s, ScanEvent::Failed(path, err));
            &&& r.processed == s.processed + 1
            &&& r.errors == s.errors.push((path@, err@))
            &&& r.entries == s.entries && r.scanning == s.scanning
        }),
        after_scan_event(s, ScanEvent::Done) == (AppState { scanning: false, ..s }),
{
    let r = after_scan_event(s, ScanEvent::Photo(p));
    assert(r.entries.drop_last() =~= s.entries);
}

/// A recalculation takes up exactly the entries with stale scores, in order,
/// each with the type it has now.
pub proof fn stale_entries_are_rescored(entries: Seq<Entry>, e: Entry)
    ensures
        stale(Seq::empty()).len() == 0,
        stale(entries.push(e)) == if e.dirty {
            stale(entries).push((e.id, e.mode))
        } else {
            stale(entries)
        },
{
    assert(entries.push(e).drop_last() =~= entries);
}

/// New scores go to the first entry of their number and make it fresh; its
/// place, path, type, hash and mark stay, and so does every other entry. Scores
/// of a photo that is gone change nothing.
pub proof fn new_scores_reach_their_entry(s: AppState, r: RecomputeResult, i: int)
    requires
        0 <= i <= s.entries.len(),
        forall|k: int| 0 <= k < i ==> (#[trigger] s.entries[k]).id != r.id,
        i < s.entries.len() ==> s.entries[i].id == r.id,
    ensures
        ({
            let a = after_recompute_event(s, RecomputeEvent::Result(r));
            &&& a.entries.len() == s.entries.len()
            &&& forall|k: int|
                0 <= k < s.entries.len() && k != i ==> #[trigger] a.entries[k] == s.entries[k]
            &&& i < s.entries.len() ==> {
                let (e, f) = (s.entries[i], a.entries[i]);
                &&& f.score == r.score && f.metrics == r.metrics && !f.dirty
                &&& f.id == e.id && f.path == e.path && f.mode == e.mode && f.phash == e.phash
                &&& f.manual_dq == e.manual_dq
            }
            &&& a.recomputing == s.recomputing && a.selection == s.selection
        }),
        after_recompute_event(s, RecomputeEvent::Done) == (AppState { recomputing: false, ..s }),
{
    first_with_is(s.entries, r.id, i);
}

/// A session opens idle and empty, with the settings that suit most shoots: the
/// type and the fixed region of each photo left to the scan, a cull at a
/// sharpness of 32, groups of hashes at most 6 bits apart, a shortlist of 150,
/// and weights that make up one in all.
pub proof fn sessions_open_idle()
    ensures
        ({
            let s = initial_state();
            let w = s.weights;
            &&& s.wf()
            &&& s.roots.len() == 0 && s.scanned_roots.len() == 0
            &&& s.entries.len() == 0 && s.errors.len() == 0 && s.groups.len() == 0
            &&& !s.scanning && !s.recomputing && !s.moving
            &&& s.scan_mode == ScanMode::Auto
            &&& s.sharpness_method == SharpnessMethod::FixedRegion
            &&& s.scanned_method == s.sharpness_method
            &&& s.cull_threshold == 32 * 1_000_000_000
            &&& s.group_threshold == 6
            &&& s.pipeline_top_n == 150
            &&& s.zoom_percent == 800 && s.zoom_delay_ms == 1200 && s.lens_diameter == 300
            &&& w.sharpness + w.exposure + w.contrast + w.color + w.composition + w.subject
                == 1_000_000
            &&& w.sharpness == w.composition && w.exposure == w.subject && w.contrast == w.color
            &&& w.sharpness - w.exposure == w.contrast && 2 * w.exposure == 3 * w.contrast
            &&& s.sort_by == SortBy::Sharpness && s.view_mode == ViewMode::Flat
            &&& s.viewer is None && s.pipeline_result is None && s.move_status is None
        }),
{
}

} // verus!
