//! The full-size viewer and the magnifier lens: what is loaded, what is shown,
//! and when.

use vstd::prelude::*;

use crate::app::{AppState, HoverZoom, Photo2CullApp, PreviewEvent, Viewer, HOVER_ZOOM_CACHE};

verus! {

broadcast use vstd::std_specs::hash::group_hash_axioms;

/// The longer side of a full-size preview. Not the camera's full resolution,
/// but big enough to judge focus at full-window size.
pub const PREVIEW_MAX_DIM: u32 = 2400;

/// The longer side of the picture under the lens: much sharper than the
/// thumbnail, but cheaper to decode than the full-size preview.
pub const HOVER_ZOOM_MAX_DIM: u32 = 1200;

/// The state once a full-size decode has ended. Only the photo that the viewer
/// is open on matters: a decode that failed closes the viewer.
pub open spec fn after_preview_event(s: AppState, event: PreviewEvent) -> AppState {
    match (s.viewer, event) {
        (Some(v), PreviewEvent::Loaded(id)) if v.id == id => AppState {
            viewer: Some(Viewer { id, loaded: true }),
            ..s
        },
        (Some(v), PreviewEvent::Failed(id)) if v.id == id => AppState { viewer: None, ..s },
        _ => s,
    }
}

/// The state once a lens picture has been decoded: the oldest one makes room.
/// A photo that failed to decode stays on the list of those being loaded, so
/// it isn't retried on every frame of the hover.
pub open spec fn after_zoom_event(s: AppState, event: PreviewEvent) -> AppState {
    match event {
        PreviewEvent::Loaded(id) => AppState {
            zoom_loading: s.zoom_loading.remove(id),
            zoom_cache: (if s.zoom_cache.len() >= HOVER_ZOOM_CACHE {
                s.zoom_cache.remove(0)
            } else {
                s.zoom_cache
            }).push(id),
            ..s
        },
        PreviewEvent::Failed(id) => s,
    }
}

/// The state once the pointer is seen on the thumbnail of a photo: if it was
/// there already, it has been resting since it came.
pub open spec fn hovered(s: AppState, id: u64, now: u64) -> AppState {
    AppState {
        hover_zoom_seen: true,
        hover_zoom: match s.hover_zoom {
            Some(h) if h.id == id => Some(h),
            _ => Some(HoverZoom { id, since: now }),
        },
        ..s
    }
}

/// The pointer rests on the photo it is seen on. Seeing it there again does not
/// start the wait anew; seeing it on another photo does.
pub proof fn resting_pointers_keep_their_time(s: AppState, id: u64, other: u64, now: u64, later: u64)
    requires
        id != other,
    ensures
        hovered(s, id, now).hover_zoom_seen,
        hovered(s, id, now).hover_zoom is Some,
        hovered(s, id, now).hover_zoom->0.id == id,
        s.hover_zoom is None || s.hover_zoom->0.id != id ==> hovered(s, id, now).hover_zoom->0.since
            == now,
        hovered(hovered(s, id, now), id, later) == hovered(s, id, now),
        hovered(hovered(s, id, now), other, later).hover_zoom == Some(
            HoverZoom { id: other, since: later },
        ),
        hovered(s, id, now) == (AppState {
            hover_zoom: hovered(s, id, now).hover_zoom,
            hover_zoom_seen: true,
            ..s
        }),
{
}

/// What to do about the lens in this frame.
#[derive(Debug, Clone, Copy, PartialEq, Eq, Structural)]
pub enum Lens {
    /// No lens.
    Hidden,
    /// No lens yet: look again in so many milliseconds.
    Wait(u64),
    /// A lens on a photo. `sharp` says whether its sharper picture is at hand
    /// (otherwise the thumbnail is magnified), `load` whether that picture is
    /// to be loaded now.
    Show { id: u64, sharp: bool, load: bool },
}

/// The lens at time `now`, and the state after drawing it. There is none
/// unless a thumbnail was hovered in this frame, the viewer is closed and the
/// pointer is in the window; and the pointer must have rested long enough.
pub open spec fn lens_at(s: AppState, now: int, has_pointer: bool) -> (Lens, AppState) {
    if !s.hover_zoom_seen || s.viewer is Some {
        (Lens::Hidden, AppState { hover_zoom_seen: false, hover_zoom: None, ..s })
    } else {
        let looked = AppState { hover_zoom_seen: false, ..s };
        match s.hover_zoom {
            Some(hover) if has_pointer => {
                let waited = if hover.since < now {
                    now - hover.since
                } else {
                    0
                };
                if waited < s.zoom_delay_ms {
                    (Lens::Wait((s.zoom_delay_ms - waited) as u64), looked)
                } else if s.zoom_cache.contains(hover.id) {
                    (Lens::Show { id: hover.id, sharp: true, load: false }, looked)
                } else {
                    (
                        Lens::Show {
                            id: hover.id,
                            sharp: false,
                            load: !s.zoom_loading.contains(hover.id),
                        },
                        AppState { zoom_loading: s.zoom_loading.insert(hover.id), ..looked },
                    )
                }
            },
            _ => (Lens::Hidden, looked),
        }
    }
}

impl Photo2CullApp {
    /// Opens the full-size viewer on a photo, whose decode begins now.
    pub fn start_preview_load(&mut self, id: u64)
        requires
            old(self)@.wf(),
        ensures
            final(self)@.wf(),
            final(self)@ == (AppState {
                viewer: Some(Viewer { id, loaded: false }),
                ..old(self)@
            }),
    {
        self.viewer = Some(Viewer { id, loaded: false });
        assert(self@ =~= (AppState { viewer: Some(Viewer { id, loaded: false }), ..old(self)@ }));
    }

    /// Takes in the end of a full-size decode.
    pub fn preview_event(&mut self, event: PreviewEvent)
        requires
            old(self)@.wf(),
        ensures
            final(self)@.wf(),
            final(self)@ == after_preview_event(old(self)@, event),
    {
        let ghost target = after_preview_event(self@, event);
        if let Some(v) = self.viewer {
            match event {
                PreviewEvent::Loaded(id) => {
                    if v.id == id {
                        self.viewer = Some(Viewer { id, loaded: true });
                    }
                },
                PreviewEvent::Failed(id) => {
                    if v.id == id {
                        self.viewer = None;
                    }
                },
            }
        }
        assert(self@ =~= target);
    }

    /// Closes the viewer.
    pub fn close_viewer(&mut self)
        requires
            old(self)@.wf(),
        ensures
            final(self)@.wf(),
            final(self)@ == (AppState { viewer: None, ..old(self)@ }),
    {
        self.viewer = None;
        assert(self@ =~= (AppState { viewer: None, ..old(self)@ }));
    }

    /// Asks for the lens picture of a photo; says whether it is to be loaded,
    /// which it is unless that was asked for before.
    pub fn start_zoom_load(&mut self, id: u64) -> (r: bool)
        requires
            old(self)@.wf(),
        ensures
            final(self)@.wf(),
            r == !old(self)@.zoom_loading.contains(id),
            final(self)@ == (AppState {
                zoom_loading: old(self)@.zoom_loading.insert(id),
                ..old(self)@
            }),
    {
        let fresh: bool = self.zoom_loading.insert(id);
        assert(self@ =~= (AppState {
            zoom_loading: old(self)@.zoom_loading.insert(id),
            ..old(self)@
        }));
        fresh
    }

    /// Takes in the end of a lens decode.
    pub fn zoom_event(&mut self, event: PreviewEvent)
        requires
            old(self)@.wf(),
        ensures
            final(self)@.wf(),
            final(self)@ == after_zoom_event(old(self)@, event),
    {
        let ghost target = after_zoom_event(self@, event);
        match event {
            PreviewEvent::Loaded(id) => {
                self.zoom_loading.remove(&id);
                if self.zoom_cache.len() >= HOVER_ZOOM_CACHE {
                    self.zoom_cache.remove(0);
                }
                self.zoom_cache.push(id);
            },
            PreviewEvent::Failed(id) => {},
        }
        assert(self@ =~= target);
    }

    /// The pointer is on the thumbnail of a photo: if it was there already, it
    /// has been resting since it came.
    pub fn hover(&mut self, id: u64, now: u64)
        requires
            old(self)@.wf(),
        ensures
            final(self)@.wf(),
            final(self)@ == (AppState {
                hover_zoom_seen: true,
                hover_zoom: match old(self)@.hover_zoom {
                    Some(h) if h.id == id => Some(h),
                    _ => Some(HoverZoom { id, since: now }),
                },
                ..old(self)@
            }),
            final(self)@ == hovered(old(self)@, id, now),
    {
        let ghost s = self@;
        self.hover_zoom_seen = true;
        let resting: bool = match self.hover_zoom {
            Some(h) => h.id == id,
            None => false,
        };
        if !resting {
            self.hover_zoom = Some(HoverZoom { id, since: now });
        }
        assert(self@ =~= (AppState {
            hover_zoom_seen: true,
            hover_zoom: match s.hover_zoom {
                Some(h) if h.id == id => Some(h),
                _ => Some(HoverZoom { id, since: now }),
            },
            ..s
        }));
    }

    /// Whether the lens picture of a photo is at hand.
    pub fn is_cached(&self, id: u64) -> (r: bool)
        ensures
            r == self@.zoom_cache.contains(id),
    {
        let n: usize = self.zoom_cache.len();
        for i in 0..n
            invariant
                n == self.zoom_cache@.len(),
                forall|k: int| 0 <= k < i ==> #[trigger] self.zoom_cache@[k] != id,
        {
            if self.zoom_cache[i] == id {
                assert(self@.zoom_cache[i as int] == id);
                return true;
            }
        }
        false
    }

    /// What to do about the lens, once per frame after the cards are drawn.
    pub fn show_hover_zoom(&mut self, now: u64, has_pointer: bool) -> (r: Lens)
        requires
            old(self)@.wf(),
        ensures
            final(self)@.wf(),
            (r, final(self)@) == lens_at(old(self)@, now as int, has_pointer),
    {
        let ghost s = self@;
        let hovering: bool = self.hover_zoom_seen;
        self.hover_zoom_seen = false;
        let ghost looked = AppState { hover_zoom_seen: false, ..s };
        assert(self@ =~= looked);
        if !hovering || self.viewer.is_some() {
            self.hover_zoom = None;
            assert(self@ =~= (AppState { hover_zoom: None, ..looked }));
            return Lens::Hidden;
        }
        let Some(hover) = self.hover_zoom else {
            return Lens::Hidden;
        };
        if !has_pointer {
            return Lens::Hidden;
        }
        let waited: u64 = if hover.since < now {
            now - hover.since
        } else {
            0
        };
        let delay: u64 = self.zoom_delay_ms as u64;
        if waited < delay {
            return Lens::Wait(delay - waited);
        }
        if self.is_cached(hover.id) {
            return Lens::Show { id: hover.id, sharp: true, load: false };
        }
        let load: bool = self.start_zoom_load(hover.id);
        Lens::Show { id: hover.id, sharp: false, load }
    }
}

/// The whole of a side of a picture, in the units that the lens counts in.
pub const LENS_WHOLE: i64 = 1_000_000;

/// Where the lens looks on one axis.
pub open spec fn lens_center(v: int, half: int) -> int {
    if 2 * half >= LENS_WHOLE {
        LENS_WHOLE as int / 2
    } else if v < half {
        half
    } else if v > LENS_WHOLE - half {
        LENS_WHOLE - half
    } else {
        v
    }
}

/// The lens looks as close to where it points as it can while all that it shows
/// lies in the picture; if it shows more than the picture, at the middle.
pub proof fn the_lens_stays_in_the_picture(v: int, half: int, other: int)
    requires
        0 <= half,
    ensures
        2 * half >= 1_000_000 ==> lens_center(v, half) == 500_000,
        2 * half <= 1_000_000 ==> 0 <= lens_center(v, half) - half && lens_center(v, half) + half
            <= 1_000_000,
        2 * half <= 1_000_000 && half <= v <= 1_000_000 - half ==> lens_center(v, half) == v,
        half <= other <= 1_000_000 - half && v <= other ==> lens_center(v, half) <= other,
        half <= other <= 1_000_000 - half && v >= other ==> lens_center(v, half) >= other,
{
}

/// Where on one axis of the picture (in millionths of the side) the lens looks
/// that points at `v` and shows `half` to either side. The visible window is
/// kept inside the picture, so near an edge the lens shows the edge rather
/// than smearing stretched border pixels; a window wider than the picture is
/// centered.
pub fn clamp_axis(v: i64, half: i64) -> (r: i64)
    requires
        0 <= half,
    ensures
        r == (if 2 * half >= LENS_WHOLE {
            LENS_WHOLE as int / 2
        } else if v < half {
            half as int
        } else if v > LENS_WHOLE - half {
            LENS_WHOLE - half
        } else {
            v as int
        }),
        2 * half <= LENS_WHOLE ==> 0 <= r - half && r + half <= LENS_WHOLE,
        r == lens_center(v as int, half as int),
{
    if half >= LENS_WHOLE / 2 {
        LENS_WHOLE / 2
    } else if v < half {
        half
    } else if v > LENS_WHOLE - half {
        LENS_WHOLE - half
    } else {
        v
    }
}

/// A lens picture that has come is at hand, and is the last to make room.
pub proof fn loaded_pictures_are_at_hand(s: AppState, id: u64)
    ensures
        after_zoom_event(s, PreviewEvent::Loaded(id)).zoom_cache.last() == id,
        after_zoom_event(s, PreviewEvent::Loaded(id)).zoom_cache.contains(id),
{
    let cache = after_zoom_event(s, PreviewEvent::Loaded(id)).zoom_cache;
    assert(cache[cache.len() - 1] == id);
}

/// No lens picture is asked for twice, unless it came and made room again: one
/// that is being loaded, or that failed, is not loaded once more.
pub proof fn lens_pictures_load_once(s: AppState, now: int, id: u64)
    requires
        s.zoom_loading.contains(id),
    ensures
        lens_at(s, now, true).0 != (Lens::Show { id, sharp: false, load: true }),
        after_zoom_event(s, PreviewEvent::Failed(id)).zoom_loading.contains(id),
{
}

/// The lens never shows before the pointer has rested for the set delay.
pub proof fn lens_waits_for_the_delay(s: AppState, now: int, has_pointer: bool)
    requires
        s.hover_zoom is Some,
        s.hover_zoom->0.since <= now < s.hover_zoom->0.since + s.zoom_delay_ms,
    ensures
        lens_at(s, now, has_pointer).0 !is Show,
{
}

/// The full-size viewer follows the photo that it is open on: when that photo
/// has been decoded it is shown, when it cannot be the viewer closes, and news
/// of any other photo changes nothing.
pub proof fn viewers_follow_their_photo(s: AppState, id: u64)
    ensures
        s.viewer matches Some(v) && v.id == id ==> {
            &&& after_preview_event(s, PreviewEvent::Loaded(id)) == (AppState {
                viewer: Some(Viewer { id, loaded: true }),
                ..s
            })
            &&& after_preview_event(s, PreviewEvent::Failed(id)) == (AppState { viewer: None, ..s })
        },
        s.viewer is None || s.viewer->0.id != id ==> {
            &&& after_preview_event(s, PreviewEvent::Loaded(id)) == s
            &&& after_preview_event(s, PreviewEvent::Failed(id)) == s
        },
{
}

/// A lens picture that has come goes behind those that are at hand; where there
/// are eight already the oldest makes room. It is no longer being loaded. A
/// picture that failed changes nothing.
pub proof fn the_oldest_lens_picture_makes_room(s: AppState, id: u64, k: int)
    requires
        s.zoom_cache.len() <= 8,
    ensures
        ({
            let r = after_zoom_event(s, PreviewEvent::Loaded(id));
            let n = s.zoom_cache.len() as int;
            &&& n < 8 ==> r.zoom_cache == s.zoom_cache.push(id)
            &&& n == 8 ==> r.zoom_cache.len() == 8 && r.zoom_cache[7] == id
            &&& n == 8 && 0 <= k < 7 ==> r.zoom_cache[k] == s.zoom_cache[k + 1]
            &&& !r.zoom_loading.contains(id)
            &&& forall|x: u64|
                x != id ==> (r.zoom_loading.contains(x) <==> s.zoom_loading.contains(x))
            &&& after_zoom_event(s, PreviewEvent::Failed(id)) == s
        }),
{
}

/// When the lens shows. It needs a thumbnail that was hovered in this frame, a
/// closed viewer and a pointer in the window; then it shows the hovered photo
/// once the pointer has rested for the set delay, and waits for what is missing
/// before. It is sharp exactly if the sharper picture is at hand, which is
/// loaded exactly if it is not at hand and was not asked for.
pub proof fn the_lens_shows_what_is_hovered(s: AppState, now: int, has_pointer: bool)
    requires
        s.hover_zoom matches Some(h) ==> h.since <= now,
    ensures
        !s.hover_zoom_seen || s.viewer is Some || s.hover_zoom is None || !has_pointer ==> lens_at(
            s,
            now,
            has_pointer,
        ).0 == Lens::Hidden,
        s.hover_zoom_seen && s.viewer is None && s.hover_zoom is Some && has_pointer ==> {
            let h = s.hover_zoom->0;
            let lens = lens_at(s, now, has_pointer).0;
            &&& now < h.since + s.zoom_delay_ms ==> lens == Lens::Wait(
                (h.since + s.zoom_delay_ms - now) as u64,
            )
            &&& now >= h.since + s.zoom_delay_ms ==> lens == (Lens::Show {
                id: h.id,
                sharp: s.zoom_cache.contains(h.id),
                load: !s.zoom_cache.contains(h.id) && !s.zoom_loading.contains(h.id),
            })
        },
        !lens_at(s, now, has_pointer).1.hover_zoom_seen,
        !s.hover_zoom_seen || s.viewer is Some ==> lens_at(s, now, has_pointer).1.hover_zoom is None,
        s.hover_zoom_seen && s.viewer is None ==> lens_at(s, now, has_pointer).1.hover_zoom
            == s.hover_zoom,
        forall|x: u64|
            lens_at(s, now, has_pointer).1.zoom_loading.contains(x) <==> s.zoom_loading.contains(x)
                || lens_at(s, now, has_pointer).0 == (Lens::Show {
                id: x,
                sharp: false,
                load: true,
            }),
        lens_at(s, now, has_pointer).1.zoom_cache == s.zoom_cache,
        lens_at(s, now, has_pointer).1.entries == s.entries,
        lens_at(s, now, has_pointer).1.selection == s.selection,
{
}

} // verus!
