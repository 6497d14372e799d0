use photo2cull::app::{
    MoveEvent, MoveStatus, Photo2CullApp, PreviewEvent, SortBy, ViewMode, Viewer,
};
use photo2cull::fixed::ONE;
use photo2cull::listing::{sharpness_bucket, Bucket};
use photo2cull::metrics::Metrics;
use photo2cull::path::PhotoPath;
use photo2cull::preview::{clamp_axis, Lens};
use photo2cull::scan::{PhotoResult, RecomputeEvent, RecomputeResult, ScanEvent, ScanMode};
use photo2cull::sharpness::{PhotoMode, SharpnessMethod};

fn path(s: &str) -> PhotoPath {
    PhotoPath { components: s.split('/').map(|c| c.as_bytes().to_vec()).collect() }
}

fn text(p: &PhotoPath) -> String {
    let parts: Vec<String> =
        p.components.iter().map(|c| String::from_utf8(c.clone()).unwrap()).collect();
    parts.join("/")
}

/// Metrics whose Overall score is `overall` points whatever the weights.
fn metrics(overall: u64) -> Metrics {
    Metrics {
        sharpness: overall * ONE,
        exposure: overall * ONE,
        contrast: overall * ONE,
        color: overall * ONE,
        composition: Some(overall * ONE),
        subject: None,
    }
}

fn photo(id: u64, score: u64, overall: u64, phash: u64) -> PhotoResult {
    PhotoResult {
        id,
        path: path(&format!("home/trip/{id}.jpg")),
        mode: PhotoMode::Landscape,
        score: score * ONE,
        metrics: metrics(overall),
        phash,
        thumb_w: 1,
        thumb_h: 1,
        thumb_rgb: vec![0; 3],
    }
}

/// A finished scan of `home/trip`.
fn scanned(photos: Vec<PhotoResult>) -> Photo2CullApp {
    let mut app = Photo2CullApp::new();
    app.add_root(path("home/trip"));
    let request = app.start_scan().unwrap();
    assert_eq!(request.roots.len(), 1);
    app.scan_event(ScanEvent::Found(photos.len()));
    for p in photos {
        app.scan_event(ScanEvent::Photo(p));
    }
    app.scan_event(ScanEvent::Done);
    app
}

/// Draws a frame with all cards in the order of the grid.
fn draw(app: &mut Photo2CullApp) {
    let order = app.flat_order();
    app.show_cards(&order);
    app.end_frame();
}

fn selected(app: &Photo2CullApp) -> Vec<u64> {
    let mut ids: Vec<u64> = app.selection.iter().copied().collect();
    ids.sort();
    ids
}

#[test]
fn a_new_session() {
    let app = Photo2CullApp::new();
    assert_eq!(app.cull_threshold, 32 * ONE);
    assert_eq!(app.group_threshold, 6);
    assert_eq!(app.pipeline_top_n, 150);
    assert_eq!((app.zoom_percent, app.zoom_delay_ms, app.lens_diameter), (800, 1200, 300));
    assert_eq!(app.scan_mode, ScanMode::Auto);
    assert!(app.view_mode == ViewMode::Flat && app.sort_by == SortBy::Sharpness);
    assert!(!app.can_scan() && !app.can_group() && !app.can_move() && !app.is_busy());
    assert_eq!(app.score_range(), None);
}

#[test]
fn roots_are_listed_once() {
    let mut app = Photo2CullApp::new();
    assert!(app.start_scan().is_none());
    app.add_root(path("a"));
    app.add_root(path("b"));
    app.add_root(path("a"));
    assert_eq!(app.roots.len(), 2);
    app.remove_root(0);
    assert_eq!(text(&app.roots[0]), "b");
    assert!(app.can_scan());
    app.clear_roots();
    assert!(app.roots.is_empty());
}

#[test]
fn a_scan_fills_the_list() {
    let mut app = scanned(vec![photo(0, 50, 10, 0), photo(1, 20, 30, 0)]);
    app.scan_event(ScanEvent::Failed(path("home/trip/bad.jpg"), "broken".to_string()));
    assert_eq!((app.total_found, app.processed, app.scanning), (2, 3, false));
    assert_eq!(app.errors.len(), 1);
    assert_eq!(app.entries.len(), 2);
    assert_eq!(app.score_range(), Some((20 * ONE, 50 * ONE)));
    // Another scan starts afresh, by the method that is chosen by then.
    app.sharpness_method = SharpnessMethod::SharpestRegion;
    assert!(app.method_pending());
    app.group_now();
    app.rank_now();
    let request = app.start_scan().unwrap();
    assert_eq!(request.method, SharpnessMethod::SharpestRegion);
    assert!(app.entries.is_empty() && app.errors.is_empty() && app.groups.is_empty());
    assert!(app.pipeline_result.is_none());
    assert!(app.scanning && app.is_busy() && !app.can_scan() && !app.can_group());
    assert_eq!(app.view_mode, ViewMode::Flat);
    assert_eq!(app.scanned_method, SharpnessMethod::SharpestRegion);
}

#[test]
fn editing_the_roots_does_not_change_where_rejects_go() {
    let mut app = scanned(vec![photo(0, 1, 1, 0)]);
    app.clear_roots();
    app.add_root(path("elsewhere"));
    let items = app.start_move_disqualified();
    assert_eq!(items.len(), 1);
    assert_eq!(text(&items[0].from), "home/trip/0.jpg");
    assert_eq!(text(&items[0].to), "home/trip/disqualified/0.jpg");
}

#[test]
fn photos_at_or_below_the_threshold_are_disqualified() {
    let app = scanned(vec![photo(0, 31, 1, 0), photo(1, 32, 1, 0), photo(2, 33, 1, 0)]);
    let flags: Vec<bool> = app.entries.iter().map(|e| app.is_disqualified(e)).collect();
    assert_eq!(flags, vec![true, true, false]);
    assert_eq!(app.flagged_count(), 2);
}

#[test]
fn manual_marks_override_the_threshold() {
    let mut app = scanned(vec![photo(0, 10, 1, 0), photo(1, 90, 1, 0)]);
    app.set_disqualified(0, false);
    app.set_disqualified(1, true);
    assert_eq!(app.manual_count(), 2);
    assert!(!app.is_disqualified(&app.entries[0]) && app.is_disqualified(&app.entries[1]));
    // They survive changes of the threshold.
    app.cull_threshold = 1000 * ONE;
    assert!(!app.is_disqualified(&app.entries[0]) && app.is_disqualified(&app.entries[1]));
    // Back in line with the threshold, a photo follows it again.
    app.set_disqualified(0, true);
    assert_eq!(app.entries[0].manual_dq, None);
    app.clear_manual_marks();
    assert_eq!(app.manual_count(), 0);
    assert!(app.is_disqualified(&app.entries[1]));
}

#[test]
fn marking_a_selected_photo_marks_the_selection() {
    let mut app = scanned(vec![photo(0, 90, 1, 0), photo(1, 91, 1, 0), photo(2, 92, 1, 0)]);
    draw(&mut app);
    app.select_click(0, false, false);
    app.select_click(1, false, true);
    app.set_disqualified(0, true);
    let flags: Vec<bool> = app.entries.iter().map(|e| app.is_disqualified(e)).collect();
    assert_eq!(flags, vec![true, true, false]);
    app.set_selected_disqualified(false);
    assert_eq!(app.flagged_count(), 0);
    assert_eq!(app.manual_count(), 0);
}

#[test]
fn clicks_select_like_a_file_manager() {
    let mut app = scanned((0..6).map(|i| photo(10 + i, 50 + i, 1, 0)).collect());
    draw(&mut app);
    app.select_click(1, false, false);
    assert_eq!(selected(&app), vec![11]);
    app.select_click(3, false, true);
    assert_eq!(selected(&app), vec![11, 13]);
    app.select_click(3, false, true);
    assert_eq!(selected(&app), vec![11]);
    // The anchor is the photo that was toggled last; a range replaces.
    app.select_click(5, true, false);
    assert_eq!(selected(&app), vec![13, 14, 15]);
    assert_eq!(app.selection_anchor, Some(13));
    // Backwards, and on top of what is selected.
    app.select_click(2, true, true);
    assert_eq!(selected(&app), vec![12, 13, 14, 15]);
    app.select_all();
    assert_eq!(selected(&app).len(), 6);
    app.deselect();
    assert!(selected(&app).is_empty());
    app.select_click(0, false, false);
    assert!(app.is_selected(0) && !app.is_selected(1));
    app.escape();
    assert!(selected(&app).is_empty());
}

#[test]
fn ranges_follow_the_order_on_screen() {
    let mut app = scanned(vec![photo(0, 50, 1, 0), photo(1, 10, 1, 0), photo(2, 30, 1, 0)]);
    draw(&mut app);
    // On screen: 1, 2, 0.
    app.select_click(1, false, false);
    app.select_click(2, true, false);
    assert_eq!(selected(&app), vec![1, 2]);
}

#[test]
fn shift_without_an_anchor_is_a_plain_click() {
    let mut app = scanned(vec![photo(0, 50, 1, 0), photo(1, 60, 1, 0)]);
    draw(&mut app);
    app.select_click(1, true, false);
    assert_eq!(selected(&app), vec![1]);
    assert_eq!(app.selection_anchor, Some(1));
    // Without cards there is no range either.
    app.end_frame();
    app.select_click(0, true, false);
    assert_eq!(selected(&app), vec![0]);
}

#[test]
fn changed_types_are_recalculated() {
    let mut app = scanned(vec![photo(0, 50, 1, 0), photo(1, 60, 1, 0)]);
    assert!(app.start_recompute().is_none());
    app.set_mode(1, PhotoMode::Landscape);
    assert_eq!(app.dirty_count(), 0);
    app.set_mode(1, PhotoMode::Animal);
    assert_eq!(app.dirty_count(), 1);
    assert!(app.can_recompute() && !app.can_move());
    let request = app.start_recompute().unwrap();
    assert_eq!(request.items, vec![(1, PhotoMode::Animal)]);
    assert_eq!(request.method, SharpnessMethod::FixedRegion);
    assert!(app.recomputing && app.start_recompute().is_none());
    app.recompute_event(RecomputeEvent::Result(RecomputeResult {
        id: 1,
        score: 7 * ONE,
        metrics: metrics(9),
    }));
    app.recompute_event(RecomputeEvent::Result(RecomputeResult {
        id: 99,
        score: 0,
        metrics: metrics(0),
    }));
    app.recompute_event(RecomputeEvent::Done);
    assert_eq!((app.entries[1].score, app.entries[1].dirty), (7 * ONE, false));
    assert_eq!(app.entries[1].metrics, metrics(9));
    assert_eq!(app.entries[0].score, 50 * ONE);
    assert!(!app.recomputing);
}

#[test]
fn moved_photos_leave_the_list() {
    let mut app = scanned(vec![photo(0, 10, 1, 0), photo(1, 60, 1, 0), photo(2, 20, 1, 0)]);
    draw(&mut app);
    app.select_all();
    assert!(app.can_move());
    let items = app.start_move_disqualified();
    assert_eq!(items.iter().map(|m| m.id).collect::<Vec<_>>(), vec![0, 2]);
    assert!(app.moving && !app.can_move());
    assert!(app.start_move_disqualified().is_empty());
    app.move_event(MoveEvent::Moved(0));
    assert_eq!(app.entries.iter().map(|e| e.id).collect::<Vec<_>>(), vec![1, 2]);
    assert_eq!(selected(&app), vec![1, 2]);
    assert!(app.visible_order.is_empty());
    app.move_event(MoveEvent::Failed(path("home/trip/2.jpg"), "no".to_string()));
    app.move_event(MoveEvent::Done);
    assert!(!app.moving);
    assert_eq!(app.move_status, Some(MoveStatus { moved: 1, failed: 1 }));
    assert_eq!(app.move_status.unwrap().text(), "Moved 1 to disqualified/, 1 failed");
    assert_eq!(app.errors.len(), 1);
}

#[test]
fn nothing_to_move() {
    let mut app = scanned(vec![photo(0, 90, 1, 0)]);
    assert!(app.start_move_disqualified().is_empty());
    assert!(!app.moving);
}

#[test]
fn groups_show_the_best_and_dissolve() {
    let mut app = scanned(vec![
        photo(0, 90, 10, 0),
        photo(1, 90, 40, 1),
        photo(2, 90, 30, 0xffff_ffff),
        photo(3, 90, 40, 3),
        photo(4, 90, 20, 0xffff_fffe),
    ]);
    app.group_now();
    assert_eq!(app.view_mode, ViewMode::Grouped);
    assert_eq!(app.groups, vec![vec![0, 1, 3], vec![2, 4]]);
    assert_eq!(app.grouped_count(), 5);
    let shown = app.shown_groups();
    assert_eq!(shown.len(), 2);
    assert_eq!((shown[0].number, shown[0].members.clone(), shown[0].best), (1, vec![0, 1, 3], 3));
    assert_eq!((shown[1].number, shown[1].members.clone(), shown[1].best), (2, vec![2, 4], 2));
    // One photo of the second group goes: the group dissolves, and indices
    // shift.
    app.set_disqualified(2, true);
    assert_eq!(app.start_move_disqualified().len(), 1);
    app.move_event(MoveEvent::Moved(2));
    app.move_event(MoveEvent::Done);
    let shown = app.shown_groups();
    assert_eq!(shown.len(), 1);
    assert_eq!(shown[0].members, vec![0, 1, 2]);
}

#[test]
fn the_pipeline_filters_dedupes_and_ranks() {
    let mut app = scanned(vec![
        photo(0, 90, 10, 0),
        photo(1, 90, 40, 1),
        photo(2, 10, 99, 0xffff_ffff),
        photo(3, 90, 20, 0xffff_0000_0000),
        photo(4, 90, 70, 0xffff_ffff),
        photo(5, 90, 20, 0xff00_ff00_0000_ff00),
    ]);
    app.rank_now();
    assert_eq!(app.view_mode, ViewMode::Pipeline);
    let result = app.pipeline_result.as_ref().unwrap();
    assert_eq!((result.total, result.after_technical, result.after_dedupe), (6, 5, 4));
    // Photo 2 is out of focus, photo 0 a duplicate of photo 1; ties keep the
    // order of the scan.
    assert_eq!(result.shortlist, vec![4, 1, 3, 5]);
    app.pipeline_top_n = 2;
    app.run_pipeline();
    assert_eq!(app.pipeline_result.as_ref().unwrap().shortlist, vec![4, 1]);
}

#[test]
fn the_grid_is_sorted() {
    let mut app = scanned(vec![
        photo(0, 50, 20, 0),
        photo(1, 10, 70, 0),
        photo(2, 50, 70, 0),
        photo(3, 5, 1, 0),
    ]);
    assert_eq!(app.flat_order(), vec![3, 1, 0, 2]);
    app.sort_by = SortBy::Overall;
    assert_eq!(app.flat_order(), vec![1, 2, 0, 3]);
}

#[test]
fn buckets() {
    assert_eq!(sharpness_bucket(0), Bucket::Blurry);
    assert_eq!(sharpness_bucket(40 * ONE), Bucket::Blurry);
    assert_eq!(sharpness_bucket(40 * ONE + 1), Bucket::Soft);
    assert_eq!(sharpness_bucket(100 * ONE), Bucket::Soft);
    assert_eq!(sharpness_bucket(100 * ONE + 1), Bucket::Sharp);
}

#[test]
fn the_viewer_waits_for_its_own_photo() {
    let mut app = scanned(vec![photo(0, 50, 1, 0), photo(1, 60, 1, 0)]);
    app.start_preview_load(1);
    assert!(app.is_busy());
    app.preview_event(PreviewEvent::Loaded(0));
    app.preview_event(PreviewEvent::Failed(0));
    assert_eq!(app.viewer, Some(Viewer { id: 1, loaded: false }));
    app.preview_event(PreviewEvent::Loaded(1));
    assert_eq!(app.viewer, Some(Viewer { id: 1, loaded: true }));
    assert!(!app.is_busy());
    // Escape with the viewer open keeps the selection.
    app.select_click(0, false, false);
    app.escape();
    assert_eq!(selected(&app), vec![0]);
    app.close_viewer();
    assert_eq!(app.viewer, None);
    app.start_preview_load(0);
    app.preview_event(PreviewEvent::Failed(0));
    assert_eq!(app.viewer, None);
}

#[test]
fn the_lens_shows_after_the_delay() {
    let mut app = scanned(vec![photo(0, 50, 1, 0)]);
    assert_eq!(app.show_hover_zoom(0, true), Lens::Hidden);
    app.hover(0, 1000);
    assert_eq!(app.show_hover_zoom(1000, true), Lens::Wait(1200));
    app.hover(0, 1500);
    assert_eq!(app.show_hover_zoom(1500, true), Lens::Wait(700));
    app.hover(0, 2200);
    assert_eq!(
        app.show_hover_zoom(2200, true),
        Lens::Show { id: 0, sharp: false, load: true }
    );
    // It is loaded once, and then at hand.
    app.hover(0, 2300);
    assert_eq!(
        app.show_hover_zoom(2300, true),
        Lens::Show { id: 0, sharp: false, load: false }
    );
    app.zoom_event(PreviewEvent::Loaded(0));
    app.hover(0, 2400);
    assert_eq!(
        app.show_hover_zoom(2400, true),
        Lens::Show { id: 0, sharp: true, load: false }
    );
    // Leaving the thumbnail starts over.
    assert_eq!(app.show_hover_zoom(2500, true), Lens::Hidden);
    app.hover(0, 2600);
    assert_eq!(app.show_hover_zoom(2600, true), Lens::Wait(1200));
    app.hover(0, 9000);
    assert_eq!(app.show_hover_zoom(9000, false), Lens::Hidden);
    app.start_preview_load(0);
    app.hover(0, 9000);
    assert_eq!(app.show_hover_zoom(9000, true), Lens::Hidden);
}

#[test]
fn failed_lens_pictures_are_not_retried() {
    let mut app = Photo2CullApp::new();
    assert!(app.start_zoom_load(3));
    app.zoom_event(PreviewEvent::Failed(3));
    assert!(!app.start_zoom_load(3));
}

#[test]
fn the_lens_cache_holds_eight() {
    let mut app = Photo2CullApp::new();
    for id in 0..10 {
        app.zoom_event(PreviewEvent::Loaded(id));
    }
    assert_eq!(app.zoom_cache, vec![2, 3, 4, 5, 6, 7, 8, 9]);
    assert!(app.is_cached(9) && !app.is_cached(1));
}

#[test]
fn the_lens_looks_inside_the_picture() {
    assert_eq!(clamp_axis(400_000, 100_000), 400_000);
    assert_eq!(clamp_axis(-5, 100_000), 100_000);
    assert_eq!(clamp_axis(990_000, 100_000), 900_000);
    assert_eq!(clamp_axis(0, 500_000), 500_000);
    assert_eq!(clamp_axis(0, 2_000_000), 500_000);
}

#[test]
fn manual_choices_count_in_the_move_and_the_ranking() {
    let mut app = scanned(vec![photo(0, 10, 5, 0), photo(1, 90, 6, 0xffff), photo(2, 9, 7, 0xff0000)]);
    app.set_disqualified(0, false);
    app.set_disqualified(1, true);
    app.run_pipeline();
    assert_eq!(app.pipeline_result.as_ref().unwrap().shortlist, vec![0]);
    let moved: Vec<u64> = app.start_move_disqualified().iter().map(|m| m.id).collect();
    assert_eq!(moved, vec![1, 2]);
}

#[test]
fn what_is_said_of_a_move() {
    let text = |moved, failed| MoveStatus { moved, failed }.text();
    assert_eq!(text(0, 0), "Moved 0 to disqualified/");
    assert_eq!(text(1_234_567_890, 0), "Moved 1234567890 to disqualified/");
    assert_eq!(text(10, 20), "Moved 10 to disqualified/, 20 failed");
}
