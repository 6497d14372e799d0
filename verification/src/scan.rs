//! What a scan does with what it finds: which files it takes, how a photo is
//! classified and scored, and where rejected photos go.

use std::collections::HashMap;

use vstd::prelude::*;
use vstd::string::StringSliceAdditionalSpecFns;

use crate::animal::{animals_of, detect_main_animal};
use crate::classify::{
    all_raw, detect_main_face, faces_of, main_box, referred, FaceBox, FaceOutput,
};
use crate::dedupe::{dhash, is_difference_hash, thumbprint};
use crate::metrics::{compute_gray, metrics_of, Metrics};
use crate::path::{bytes_of, lies_in, paths_in_a_root_extend_it, same_bytes, PhotoPath};
use crate::photo::{is_standard, is_supported_photo};
use crate::raster::{
    deep_of, fitting_pictures_stay, gray, sized, thumbnail, to_gray, ColorPicture, GrayImage, Picture, RgbImage,
};
use crate::raw::is_raw;
use crate::sharpness::{guess_gray, guess_of, score_gray, score_of, PhotoMode, SharpnessMethod};

verus! {

broadcast use vstd::std_specs::hash::group_hash_axioms;

/// Resolution cap for decoding: enough detail for a meaningful sharpness score
/// without paying to decode full sensor resolution.
pub const SCORE_MAX_DIM: u32 = 1600;

/// Cap for the preview thumbnail shown in the UI.
pub const THUMB_MAX_DIM: u32 = 220;

/// Name of the subfolder (created inside each scanned root) that disqualified
/// photos get moved into. Scans skip it entirely, so a photo moved there
/// doesn't reappear (flagged all over again) on the next scan.
pub const DISQUALIFIED_DIR: &'static str = "disqualified";

/// The views of a list of paths.
pub open spec fn views(paths: Seq<PhotoPath>) -> Seq<Seq<Seq<u8>>> {
    paths.map_values(|p: PhotoPath| p@)
}

/// The depth of the deepest root that contains the photo, or -1 if none does.
pub open spec fn depth_of_root(roots: Seq<Seq<Seq<u8>>>, photo: Seq<Seq<u8>>) -> int
    decreases roots.len(),
{
    if roots.len() == 0 {
        -1
    } else {
        let before = depth_of_root(roots.drop_last(), photo);
        let root = roots.last();
        if lies_in(photo, root) && root.len() >= before {
            root.len() as int
        } else {
            before
        }
    }
}

/// Where a disqualified photo goes: into the folder for rejects of the deepest
/// root that contains it, keeping its path below that root.
pub open spec fn disqualified_path(
    roots: Seq<Seq<Seq<u8>>>,
    photo: Seq<Seq<u8>>,
) -> Option<Seq<Seq<u8>>> {
    let d = depth_of_root(roots, photo);
    if d < 0 {
        None
    } else {
        Some(photo.take(d) + seq![DISQUALIFIED_DIR.spec_bytes()] + photo.skip(d))
    }
}

proof fn depth_bounds(roots: Seq<Seq<Seq<u8>>>, photo: Seq<Seq<u8>>)
    ensures
        -1 <= depth_of_root(roots, photo) <= photo.len(),
    decreases roots.len(),
{
    if roots.len() > 0 {
        depth_bounds(roots.drop_last(), photo);
    }
}

/// Where a disqualified photo gets moved to: inside the `disqualified` folder
/// of the chosen root that contains it (the deepest one, if chosen roots are
/// nested), keeping its path relative to that root so subfolder structure is
/// preserved and each root keeps its own rejects.
pub fn disqualified_path_for(roots: &[PhotoPath], photo: &PhotoPath) -> (r: Option<PhotoPath>)
    ensures
        r is Some <==> disqualified_path(views(roots@), photo@) is Some,
        r matches Some(p) ==> disqualified_path(views(roots@), photo@) == Some(p@),
{
    let ghost all = views(roots@);
    let n: usize = roots.len();
    let mut found: bool = false;
    let mut depth: usize = 0;
    for i in 0..n
        invariant
            n == roots@.len(),
            all == views(roots@),
            depth_of_root(all.take(i as int), photo@) == (if found {
                depth as int
            } else {
                -1
            }),
    {
        assert(all.take(i + 1).drop_last() =~= all.take(i as int));
        assert(all.take(i + 1).last() == roots@[i as int]@);
        assert(roots@[i as int]@.len() == roots@[i as int].components@.len());
        if photo.starts_with(&roots[i]) {
            let count: usize = roots[i].components.len();
            if !found || count >= depth {
                found = true;
                depth = count;
            }
        }
    }
    assert(all.take(n as int) =~= all);
    if !found {
        return None;
    }
    proof {
        depth_bounds(all, photo@);
    }
    let mut components: Vec<Vec<u8>> = Vec::new();
    let total: usize = photo.components.len();
    let ghost target = disqualified_path(all, photo@)->0;
    for i in 0..depth
        invariant
            depth <= total == photo.components@.len(),
            components@.len() == i,
            forall|k: int| 0 <= k < i ==> (#[trigger] components@[k])@ == photo.components@[k]@,
    {
        let c = photo.components[i].clone();
        assert(c@ =~= photo.components@[i as int]@);
        components.push(c);
    }
    components.push(bytes_of(DISQUALIFIED_DIR));
    for i in depth..total
        invariant
            depth <= total == photo.components@.len(),
            components@.len() == i + 1,
            forall|k: int| 0 <= k < depth ==> (#[trigger] components@[k])@ == photo.components@[k]@,
            components@[depth as int]@ == DISQUALIFIED_DIR.spec_bytes(),
            forall|k: int|
                depth < k <= i ==> (#[trigger] components@[k])@ == photo.components@[k - 1]@,
    {
        let c = photo.components[i].clone();
        assert(c@ =~= photo.components@[i as int]@);
        components.push(c);
    }
    let r = PhotoPath { components };
    assert(r@ =~= target);
    Some(r)
}

proof fn depth_is_of_a_root(roots: Seq<Seq<Seq<u8>>>, photo: Seq<Seq<u8>>)
    ensures
        depth_of_root(roots, photo) >= 0 ==> exists|i: int|
            0 <= i < roots.len() && lies_in(photo, #[trigger] roots[i]) && roots[i].len()
                == depth_of_root(roots, photo),
        forall|i: int|
            0 <= i < roots.len() && lies_in(photo, #[trigger] roots[i]) ==> roots[i].len()
                <= depth_of_root(roots, photo),
    decreases roots.len(),
{
    if roots.len() > 0 {
        let t = roots.drop_last();
        depth_is_of_a_root(t, photo);
        let d = depth_of_root(roots, photo);
        assert(roots.last() == roots[roots.len() - 1]);
        if d >= 0 && !(lies_in(photo, roots.last()) && roots.last().len() == d) {
            let i = choose|i: int|
                0 <= i < t.len() && lies_in(photo, #[trigger] t[i]) && t[i].len()
                    == depth_of_root(t, photo);
            assert(roots[i] == t[i]);
        }
        assert forall|i: int|
            0 <= i < roots.len() && lies_in(photo, #[trigger] roots[i]) implies roots[i].len()
            <= d by {
            if i < t.len() {
                assert(t[i] == roots[i]);
            }
        }
    }
}

/// A photo has a place to be moved to exactly if some chosen root contains it.
/// That place is in the folder for rejects of such a root, none deeper
/// contains the photo, and below it the photo keeps the path it had below the
/// root.
pub proof fn rejects_stay_with_their_root(roots: Seq<Seq<Seq<u8>>>, photo: Seq<Seq<u8>>)
    ensures
        disqualified_path(roots, photo) is None <==> forall|i: int|
            0 <= i < roots.len() ==> !lies_in(photo, #[trigger] roots[i]),
        disqualified_path(roots, photo) matches Some(p) ==> exists|i: int|
            {
                &&& 0 <= i < roots.len()
                &&& lies_in(photo, #[trigger] roots[i])
                &&& forall|j: int|
                    0 <= j < roots.len() && lies_in(photo, #[trigger] roots[j]) ==> roots[j].len()
                        <= roots[i].len()
                &&& lies_in(p, roots[i].push(DISQUALIFIED_DIR.spec_bytes()))
                &&& p.skip(roots[i].len() as int + 1) == photo.skip(roots[i].len() as int)
            },
{
    depth_bounds(roots, photo);
    depth_is_of_a_root(roots, photo);
    let d = depth_of_root(roots, photo);
    if d >= 0 {
        let i = choose|i: int|
            0 <= i < roots.len() && lies_in(photo, #[trigger] roots[i]) && roots[i].len() == d;
        let p = disqualified_path(roots, photo)->0;
        assert(p.take(d + 1) =~= roots[i].push(DISQUALIFIED_DIR.spec_bytes()));
        assert(p.skip(d + 1) =~= photo.skip(d));
    }
}

/// Whether a walk descends into a folder with this name: any but a folder for
/// rejects.
pub open spec fn is_entered(name: Seq<u8>) -> bool {
    name != DISQUALIFIED_DIR.spec_bytes()
}

/// Whether a scan of `root` comes to `file`: it lies below the root, and every
/// folder on the way down, the root included, is entered.
pub open spec fn is_visited(root: Seq<Seq<u8>>, file: Seq<Seq<u8>>) -> bool {
    &&& lies_in(file, root)
    &&& forall|k: int|
        root.len() - 1 <= k < file.len() - 1 && 0 <= k ==> is_entered(#[trigger] file[k])
}

/// A photo that was moved to the rejects is not found by another scan of the
/// same roots. (A root chosen below a folder for rejects would find it, and a
/// root that is the photo itself has no folder to move it to.)
pub proof fn moved_photos_are_not_rescanned(
    roots: Seq<Seq<Seq<u8>>>,
    photo: Seq<Seq<u8>>,
    root: Seq<Seq<u8>>,
)
    requires
        disqualified_path(roots, photo) is Some,
        !roots.contains(photo),
        forall|k: int| 0 <= k < root.len() - 1 ==> is_entered(#[trigger] root[k]),
    ensures
        !is_visited(root, disqualified_path(roots, photo)->0),
{
    depth_bounds(roots, photo);
    depth_is_of_a_root(roots, photo);
    let d = depth_of_root(roots, photo);
    let p = disqualified_path(roots, photo)->0;
    let i = choose|i: int|
        0 <= i < roots.len() && lies_in(photo, #[trigger] roots[i]) && roots[i].len() == d;
    if d == photo.len() {
        assert(photo.take(d) =~= photo);
        assert(roots[i] == photo);
        assert(roots.contains(photo));
    }
    assert(p[d] == DISQUALIFIED_DIR.spec_bytes());
    if lies_in(p, root) && root.len() > d + 1 {
        assert(root[d] == p.take(root.len() as int)[d]);
    }
}

/// Whether a walk descends into a folder with this name.
pub fn enters_folder(name: &[u8]) -> (r: bool)
    ensures
        r == is_entered(name@),
{
    !same_bytes(name, DISQUALIFIED_DIR.as_bytes())
}

/// What a walk found: a path, and whether it is a file.
pub struct Found {
    pub path: PhotoPath,
    pub is_file: bool,
}

/// Whether a path is that of a photo in a supported format.
pub open spec fn is_photo(path: Seq<Seq<u8>>) -> bool {
    is_raw(path) || is_standard(path)
}

/// The photos among what a walk found, each path once, where it came first.
pub open spec fn photos_among(found: Seq<Found>) -> Seq<Seq<Seq<u8>>>
    decreases found.len(),
{
    if found.len() == 0 {
        Seq::empty()
    } else {
        let before = photos_among(found.drop_last());
        let last = found.last();
        if last.is_file && is_photo(last.path@) && !before.contains(last.path@) {
            before.push(last.path@)
        } else {
            before
        }
    }
}

/// The photos among what the walks of all roots found. Chosen folders may
/// overlap (one inside another); a photo is only taken once.
pub fn select_photos(found: Vec<Found>) -> (r: Vec<PhotoPath>)
    ensures
        views(r@) == photos_among(found@),
{
    let mut photos = PhotoTable::new();
    let n: usize = found.len();
    for i in 0..n
        invariant
            n == found@.len(),
            photos.wf(),
            photos@ =~= photos_among(found@.take(i as int)),
    {
        assert(found@.take(i + 1).drop_last() =~= found@.take(i as int));
        let f = &found[i];
        if f.is_file && is_supported_photo(&f.path) {
            photos.number(&f.path);
        }
    }
    assert(found@.take(n as int) =~= found@);
    photos.paths
}

/// Every photo that a walk found is taken, nothing else is, and nothing is
/// taken twice.
pub proof fn each_photo_is_taken_once(found: Seq<Found>)
    ensures
        photos_among(found).no_duplicates(),
        forall|p: Seq<Seq<u8>>|
            #[trigger] photos_among(found).contains(p) <==> exists|i: int|
                0 <= i < found.len() && (#[trigger] found[i]).is_file && is_photo(found[i].path@)
                    && found[i].path@ == p,
    decreases found.len(),
{
    if found.len() > 0 {
        let t = found.drop_last();
        let last = found.last();
        let before = photos_among(t);
        let all = photos_among(found);
        each_photo_is_taken_once(t);
        assert(last == found[found.len() - 1]);
        assert forall|p: Seq<Seq<u8>>| #[trigger] all.contains(p) <==> exists|i: int|
            0 <= i < found.len() && (#[trigger] found[i]).is_file && is_photo(found[i].path@)
                && found[i].path@ == p by {
            if all.contains(p) {
                let k = choose|k: int| 0 <= k < all.len() && all[k] == p;
                if k < before.len() {
                    assert(before[k] == p);
                    assert(before.contains(p));
                    let i = choose|i: int|
                        0 <= i < t.len() && (#[trigger] t[i]).is_file && is_photo(t[i].path@)
                            && t[i].path@ == p;
                    assert(found[i] == t[i]);
                }
            }
            if exists|i: int|
                0 <= i < found.len() && (#[trigger] found[i]).is_file && is_photo(found[i].path@)
                    && found[i].path@ == p {
                let i = choose|i: int|
                    0 <= i < found.len() && (#[trigger] found[i]).is_file && is_photo(
                        found[i].path@,
                    ) && found[i].path@ == p;
                if i < t.len() {
                    assert(t[i] == found[i]);
                    assert(before.contains(p));
                }
                if before.contains(p) {
                    let k = choose|k: int| 0 <= k < before.len() && before[k] == p;
                    assert(all[k] == p);
                } else {
                    assert(all[before.len() as int] == p);
                }
            }
        }
    }
}

/// A number made of the bytes of a file name, to find paths by.
pub open spec fn name_key(name: Seq<u8>) -> u64
    decreases name.len(),
{
    if name.len() == 0 {
        0
    } else {
        name_key(name.drop_last()).wrapping_mul(31).wrapping_add(name.last() as u64)
    }
}

/// The number to find a path by: that of the file name.
pub open spec fn path_key(path: Seq<Seq<u8>>) -> u64 {
    if path.len() == 0 {
        0
    } else {
        name_key(path.last())
    }
}

fn key_of(path: &PhotoPath) -> (r: u64)
    ensures
        r == path_key(path@),
{
    let depth: usize = path.components.len();
    if depth == 0 {
        return 0;
    }
    let name = &path.components[depth - 1];
    assert(path@.last() == name@);
    let mut key: u64 = 0;
    let n: usize = name.len();
    for i in 0..n
        invariant
            n == name@.len(),
            key == name_key(name@.take(i as int)),
    {
        assert(name@.take(i + 1).drop_last() =~= name@.take(i as int));
        key = key.wrapping_mul(31).wrapping_add(name[i] as u64);
    }
    assert(name@.take(n as int) =~= name@);
    key
}

/// The photos that have been met so far. Each distinct path has a number: its
/// place in the list.
pub struct PhotoTable {
    pub paths: Vec<PhotoPath>,
    /// The places of the paths of each key.
    pub places: HashMap<u64, Vec<usize>>,
}

/// What a table holds: its list of paths. The places are an index into it that
/// adds nothing.
impl View for PhotoTable {
    type V = Seq<Seq<Seq<u8>>>;

    open spec fn view(&self) -> Seq<Seq<Seq<u8>>> {
        views(self.paths@)
    }
}

impl PhotoTable {
    /// No path is listed twice, and every path is found under its key.
    pub open spec fn wf(self) -> bool {
        &&& self@.no_duplicates()
        &&& forall|i: int|
            0 <= i < self@.len() ==> self.is_placed(path_key(#[trigger] self@[i]), i)
        &&& forall|key: u64, k: int|
            #![trigger self.places@[key]@[k]]
            self.places@.dom().contains(key) && 0 <= k < self.places@[key]@.len()
                ==> self.places@[key]@[k] < self@.len()
    }

    /// Whether place `i` is listed under `key`.
    pub open spec fn is_placed(self, key: u64, i: int) -> bool {
        self.places@.dom().contains(key) && self.places@[key]@.contains(i as usize)
    }

    /// A table without photos.
    pub fn new() -> (r: PhotoTable)
        ensures
            r.wf(),
            r@ == Seq::<Seq<Seq<u8>>>::empty(),
    {
        let r = PhotoTable { paths: Vec::new(), places: HashMap::new() };
        assert(r@ =~= Seq::<Seq<Seq<u8>>>::empty());
        r
    }

    /// The number of a path, if it has one.
    pub fn find(&self, path: &PhotoPath) -> (r: Option<u64>)
        requires
            self.wf(),
        ensures
            r is Some <==> self@.contains(path@),
            r matches Some(i) ==> i < self@.len() && self@[i as int] == path@,
    {
        let key: u64 = key_of(path);
        let listed = match self.places.get(&key) {
            Some(places) => places,
            None => {
                assert(!self@.contains(path@)) by {
                    if self@.contains(path@) {
                        let i = choose|i: int| 0 <= i < self@.len() && self@[i] == path@;
                        assert(self.is_placed(path_key(self@[i]), i));
                    }
                }
                return None;
            },
        };
        let n: usize = listed.len();
        for k in 0..n
            invariant
                self.wf(),
                self.places@.dom().contains(key),
                listed@ == self.places@[key]@,
                n == listed@.len(),
                forall|j: int|
                    0 <= j < k ==> self@[(#[trigger] listed@[j]) as int] != path@,
        {
            let i: usize = listed[k];
            assert(self.places@[key]@[k as int] == i);
            assert(self@[i as int] == self.paths@[i as int]@);
            if self.paths[i].same(path) {
                return Some(i as u64);
            }
        }
        assert(!self@.contains(path@)) by {
            if self@.contains(path@) {
                let i = choose|i: int| 0 <= i < self@.len() && self@[i] == path@;
                assert(self@.len() == self.paths.len());
                assert(self.is_placed(path_key(self@[i]), i));
                let j = choose|j: int| 0 <= j < listed@.len() && listed@[j] == i as usize;
                assert(self@[listed@[j] as int] != path@);
            }
        }
        None
    }

    /// The number of a path, listed anew if it has none yet.
    pub fn number(&mut self, path: &PhotoPath) -> (r: u64)
        requires
            old(self).wf(),
        ensures
            final(self).wf(),
            r < final(self)@.len(),
            final(self)@[r as int] == path@,
            old(self)@.contains(path@) ==> final(self)@ == old(self)@,
            !old(self)@.contains(path@) ==> final(self)@ == old(self)@.push(path@),
    {
        if let Some(i) = self.find(path) {
            return i;
        }
        let n: usize = self.paths.len();
        let key: u64 = key_of(path);
        let mut listed: Vec<usize> = match self.places.remove(&key) {
            Some(places) => places,
            None => Vec::new(),
        };
        let ghost before = listed@;
        listed.push(n);
        let ghost after = listed@;
        self.places.insert(key, listed);
        self.paths.push(path.copy());
        proof {
            assert(self@ =~= old(self)@.push(path@));
            assert forall|i: int| 0 <= i < self@.len() implies self.is_placed(
                path_key(#[trigger] self@[i]),
                i,
            ) by {
                if i < n {
                    assert(self@[i] == old(self)@[i]);
                    assert(old(self).is_placed(path_key(old(self)@[i]), i));
                    if path_key(self@[i]) == key {
                        let j = choose|j: int| 0 <= j < before.len() && before[j] == i as usize;
                        assert(after[j] == i as usize);
                    }
                } else {
                    assert(after[before.len() as int] == i as usize);
                }
            }
            assert forall|k2: u64, k: int|
                #![trigger self.places@[k2]@[k]]
                self.places@.dom().contains(k2) && 0 <= k
                    < self.places@[k2]@.len() implies self.places@[k2]@[k] < self@.len() by {
                if k2 == key {
                    if k < before.len() {
                        assert(after[k] == before[k]);
                        assert(old(self).places@[key]@[k] < old(self)@.len());
                    }
                } else {
                    assert(old(self).places@[k2]@[k] < old(self)@.len());
                }
            }
        }
        n as u64
    }
}

/// Two photos of one table have the same number exactly if they have the same
/// path.
pub proof fn numbers_stand_for_paths(table: PhotoTable, a: u64, b: u64)
    requires
        table.wf(),
        a < table@.len(),
        b < table@.len(),
    ensures
        a == b <==> table@[a as int] == table@[b as int],
{
}

/// What sharpness-scoring mode to use for a photo.
#[derive(Debug, Clone, Copy, PartialEq, Eq, Structural)]
pub enum ScanMode {
    /// Classify each photo individually (face detection for Portrait, then
    /// animal detection for Animal, falling back to a sharpness-uniformity
    /// heuristic for Landscape vs Object).
    Auto,
    /// Force this mode. Portrait and Animal still run their detector (for a
    /// tighter, more accurate scoring region) and fall back to the usual
    /// region if nothing is found.
    Fixed(PhotoMode),
}

/// Whether the face model is to be run.
pub open spec fn wants_face(scan_mode: ScanMode) -> bool {
    scan_mode == ScanMode::Auto || scan_mode == ScanMode::Fixed(PhotoMode::Portrait)
}

/// Whether the animal model is to be run, given what the face model showed.
pub open spec fn wants_animal(scan_mode: ScanMode, face: Option<FaceBox>) -> bool {
    (scan_mode == ScanMode::Auto && face is None) || scan_mode == ScanMode::Fixed(PhotoMode::Animal)
}

/// Whether the face model is to be run on a photo.
pub fn needs_face_model(scan_mode: ScanMode) -> (r: bool)
    ensures
        r == wants_face(scan_mode),
{
    match scan_mode {
        ScanMode::Auto => true,
        ScanMode::Fixed(m) => m == PhotoMode::Portrait,
    }
}

/// Whether the animal model is to be run on a photo in which the face model
/// showed `face`.
pub fn needs_animal_model(scan_mode: ScanMode, face: Option<&FaceBox>) -> (r: bool)
    ensures
        r == wants_animal(scan_mode, referred(face)),
{
    match scan_mode {
        ScanMode::Auto => face.is_none(),
        ScanMode::Fixed(m) => m == PhotoMode::Animal,
    }
}

/// The type of a photo and the subject it is scored on, given what the two
/// models show in it and what the sharpness heuristic guesses.
pub open spec fn classified(
    scan_mode: ScanMode,
    face: Option<FaceBox>,
    animal: Option<FaceBox>,
    guess: PhotoMode,
) -> (PhotoMode, Option<FaceBox>) {
    match scan_mode {
        ScanMode::Auto => if face is Some {
            (PhotoMode::Portrait, face)
        } else if animal is Some {
            (PhotoMode::Animal, animal)
        } else {
            (guess, None)
        },
        ScanMode::Fixed(m) => (
            m,
            match m {
                PhotoMode::Portrait => face,
                PhotoMode::Animal => animal,
                _ => None,
            },
        ),
    }
}

/// What the models gave for a photo: nothing where one was not run or failed.
pub struct ModelOutputs {
    pub face: Option<FaceOutput>,
    pub animal: Option<Vec<i64>>,
}

impl ModelOutputs {
    /// All raw numbers are in range.
    pub open spec fn wf(self) -> bool {
        &&& self.face matches Some(o) ==> o.wf()
        &&& self.animal matches Some(out) ==> all_raw(out@)
    }

    /// The main face in a picture of the given size.
    pub open spec fn main_face(self, width: int, height: int) -> Option<FaceBox> {
        main_box(
            faces_of(
                width,
                height,
                match self.face {
                    Some(o) => Some(&o),
                    None => None,
                },
            ),
        )
    }

    /// The main animal in a picture of the given size.
    pub open spec fn main_animal(self, width: int, height: int) -> Option<FaceBox> {
        main_box(
            animals_of(
                width,
                height,
                match self.animal {
                    Some(out) => Some(&out),
                    None => None,
                },
            ),
        )
    }
}

/// The type of a photo with luminances `p`, and the subject it is scored on.
pub open spec fn type_of(
    p: Picture,
    scan_mode: ScanMode,
    outputs: ModelOutputs,
) -> (PhotoMode, Option<FaceBox>) {
    classified(
        scan_mode,
        outputs.main_face(p.width, p.height),
        outputs.main_animal(p.width, p.height),
        guess_of(p),
    )
}

/// The type, the sharpness score and the factors of a photo with colors `c`
/// and luminances `p`.
pub open spec fn appraisal(
    c: ColorPicture,
    p: Picture,
    scan_mode: ScanMode,
    method: SharpnessMethod,
    outputs: ModelOutputs,
) -> (PhotoMode, int, Metrics) {
    let (mode, subject) = type_of(p, scan_mode, outputs);
    let s = score_of(p, mode, subject, method);
    (mode, s, metrics_of(c, p, s, subject))
}

/// Whether a photo of this size can be appraised: an empty one has no centre to
/// crop, so it cannot where its type is forced to one that is scored there.
pub open spec fn can_appraise(
    width: u32,
    height: u32,
    scan_mode: ScanMode,
    method: SharpnessMethod,
) -> bool {
    ||| width > 0 && height > 0
    ||| method == SharpnessMethod::SharpestRegion
    ||| scan_mode is Auto
    ||| scan_mode == ScanMode::Fixed(PhotoMode::Landscape)
}

/// The type of a photo whose luminances are given, and the subject it is
/// scored on.
fn classify_gray(
    img: &RgbImage,
    gray: &GrayImage,
    scan_mode: ScanMode,
    outputs: &ModelOutputs,
) -> (r: (PhotoMode, Option<FaceBox>))
    requires
        img.can_resample(),
        gray.wf(),
        gray.width == img.width,
        gray.height == img.height,
        outputs.wf(),
    ensures
        r == type_of(gray@, scan_mode, *outputs),
        r.1 matches Some(b) ==> b.wf(),
        gray.width == 0 || gray.height == 0 ==> r.1 is None,
        (gray.width == 0 || gray.height == 0) && scan_mode is Auto ==> r.0
            == PhotoMode::Landscape,
{
    let face_output: Option<&FaceOutput> = match &outputs.face {
        Some(o) => Some(o),
        None => None,
    };
    let animal_output: Option<&Vec<i64>> = match &outputs.animal {
        Some(out) => Some(out),
        None => None,
    };
    match scan_mode {
        ScanMode::Auto => {
            if let Some(face) = detect_main_face(img, face_output) {
                return (PhotoMode::Portrait, Some(face));
            }
            if let Some(animal) = detect_main_animal(img, animal_output) {
                return (PhotoMode::Animal, Some(animal));
            }
            (guess_gray(gray), None)
        },
        ScanMode::Fixed(m) => {
            let subject = match m {
                PhotoMode::Portrait => detect_main_face(img, face_output),
                PhotoMode::Animal => detect_main_animal(img, animal_output),
                PhotoMode::Landscape | PhotoMode::Object => None,
            };
            (m, subject)
        },
    }
}

/// Classify and score a photo whose luminances are given as well.
pub fn appraise_gray(
    img: &RgbImage,
    gray: &GrayImage,
    scan_mode: ScanMode,
    method: SharpnessMethod,
    outputs: &ModelOutputs,
) -> (r: (PhotoMode, u64, Metrics))
    requires
        img.wf(),
        img.is_countable(),
        img.can_resample(),
        can_appraise(img.width, img.height, scan_mode, method),
        gray.wf(),
        gray.width == img.width,
        gray.height == img.height,
        outputs.wf(),
    ensures
        (r.0, r.1 as int, r.2) == appraisal(img@, gray@, scan_mode, method, *outputs),
        r.2.wf(),
{
    let (mode, subject) = classify_gray(img, gray, scan_mode, outputs);
    let found: Option<&FaceBox> = match &subject {
        Some(b) => Some(b),
        None => None,
    };
    let s: u64 = score_gray(gray, mode, found, method);
    let metrics = compute_gray(img, gray, s, found);
    (mode, s, metrics)
}

/// Classify (if `Auto`) and score a single already-decoded photo, given what
/// the models gave for it: the absolute sharpness score plus the full set of
/// Overall-score factors.
pub fn classify_and_score(
    img: &RgbImage,
    scan_mode: ScanMode,
    method: SharpnessMethod,
    outputs: &ModelOutputs,
) -> (r: (PhotoMode, u64, Metrics))
    requires
        img.wf(),
        img.is_countable(),
        img.can_resample(),
        can_appraise(img.width, img.height, scan_mode, method),
        outputs.wf(),
    ensures
        (r.0, r.1 as int, r.2) == appraisal(img@, gray(img@), scan_mode, method, *outputs),
        r.2.wf(),
{
    let gray = to_gray(img);
    appraise_gray(img, &gray, scan_mode, method, outputs)
}

/// What a model that is not to be run would have given does not matter.
pub proof fn unwanted_models_do_not_matter(
    p: Picture,
    scan_mode: ScanMode,
    a: ModelOutputs,
    b: ModelOutputs,
)
    requires
        wants_face(scan_mode) ==> a.face == b.face,
        wants_animal(scan_mode, a.main_face(p.width, p.height)) ==> a.animal == b.animal,
    ensures
        type_of(p, scan_mode, a) == type_of(p, scan_mode, b),
{
}

/// Everything a scan learns of a photo.
pub struct PhotoResult {
    /// The photo's number.
    pub id: u64,
    pub path: PhotoPath,
    pub mode: PhotoMode,
    /// Absolute sharpness, in billionths.
    pub score: u64,
    pub metrics: Metrics,
    /// Perceptual hash for duplicate/burst detection.
    pub phash: u64,
    pub thumb_w: u32,
    pub thumb_h: u32,
    pub thumb_rgb: Vec<u8>,
}

/// What a running scan reports.
pub enum ScanEvent {
    Found(usize),
    Photo(PhotoResult),
    Failed(PhotoPath, String),
    Done,
}

/// Everything a scan learns of a photo that could be decoded: its type, scores
/// and hash, and a thumbnail.
pub fn scan_photo(
    id: u64,
    path: PhotoPath,
    img: &RgbImage,
    scan_mode: ScanMode,
    method: SharpnessMethod,
    outputs: &ModelOutputs,
) -> (r: PhotoResult)
    requires
        img.wf(),
        img.is_countable(),
        img.can_resample(),
        can_appraise(img.width, img.height, scan_mode, method),
        outputs.wf(),
    ensures
        r.id == id,
        r.path == path,
        (r.mode, r.score as int, r.metrics) == appraisal(
            img@,
            gray(img@),
            scan_mode,
            method,
            *outputs,
        ),
        is_difference_hash(thumbprint(img@), r.phash),
        (ColorPicture {
            width: r.thumb_w as int,
            height: r.thumb_h as int,
            data: r.thumb_rgb@,
        }) == sized(deep_of(img@), THUMB_MAX_DIM),
        r.thumb_w <= THUMB_MAX_DIM,
        r.thumb_h <= THUMB_MAX_DIM,
        img.width <= 220 && img.height <= 220 ==> (r.thumb_w, r.thumb_h) == (img.width, img.height)
            && r.thumb_rgb@ == img.data@,
        r.thumb_w <= 220 && r.thumb_h <= 220,
        r.thumb_rgb@.len() == 3 * (r.thumb_w * r.thumb_h),
        r.metrics.wf(),
{
    let (mode, score, metrics) = classify_and_score(img, scan_mode, method, outputs);
    let phash: u64 = dhash(img);
    let thumb = thumbnail(img, THUMB_MAX_DIM);
    proof {
        if img.width <= 220 && img.height <= 220 {
            fitting_pictures_stay(img@, 220);
        }
    }
    PhotoResult {
        id,
        path,
        mode,
        score,
        metrics,
        phash,
        thumb_w: thumb.width,
        thumb_h: thumb.height,
        thumb_rgb: thumb.data,
    }
}

/// The new scores of a photo whose type was changed by hand.
pub struct RecomputeResult {
    /// The photo's number.
    pub id: u64,
    pub score: u64,
    pub metrics: Metrics,
}

/// What a running recalculation reports.
pub enum RecomputeEvent {
    Result(RecomputeResult),
    Done,
}

/// Re-scores a photo with a forced type, without regenerating its thumbnail
/// (the crop used for that doesn't depend on the type).
pub fn rescore_photo(
    id: u64,
    img: &RgbImage,
    mode: PhotoMode,
    method: SharpnessMethod,
    outputs: &ModelOutputs,
) -> (r: RecomputeResult)
    requires
        img.wf(),
        img.is_countable(),
        img.can_resample(),
        can_appraise(img.width, img.height, ScanMode::Fixed(mode), method),
        outputs.wf(),
    ensures
        r.id == id,
        (mode, r.score as int, r.metrics) == appraisal(
            img@,
            gray(img@),
            ScanMode::Fixed(mode),
            method,
            *outputs,
        ),
        r.metrics.wf(),
{
    let (_, score, metrics) = classify_and_score(img, ScanMode::Fixed(mode), method, outputs);
    RecomputeResult { id, score, metrics }
}

/// The type of a photo. Left to itself, a face makes it a portrait of that
/// face, an animal without a face an animal photo of that animal, and neither
/// leaves the type to the guess, without a subject. A forced type stands
/// whatever is found; a forced portrait is still scored on its face and a
/// forced animal photo on its animal, and the other types have no subject.
pub proof fn types_follow_the_subjects(
    mode: PhotoMode,
    face: Option<FaceBox>,
    animal: Option<FaceBox>,
    guess: PhotoMode,
)
    ensures
        face is Some ==> classified(ScanMode::Auto, face, animal, guess) == (
            PhotoMode::Portrait,
            face,
        ),
        face is None && animal is Some ==> classified(ScanMode::Auto, face, animal, guess) == (
            PhotoMode::Animal,
            animal,
        ),
        face is None && animal is None ==> classified(ScanMode::Auto, face, animal, guess) == (
            guess,
            None::<FaceBox>,
        ),
        classified(ScanMode::Fixed(mode), face, animal, guess).0 == mode,
        classified(ScanMode::Fixed(PhotoMode::Portrait), face, animal, guess).1 == face,
        classified(ScanMode::Fixed(PhotoMode::Animal), face, animal, guess).1 == animal,
        classified(ScanMode::Fixed(PhotoMode::Landscape), face, animal, guess).1 is None,
        classified(ScanMode::Fixed(PhotoMode::Object), face, animal, guess).1 is None,
{
}

/// The face model is run unless a type other than portrait is forced; the
/// animal model is run where an animal photo is forced, and on photos that are
/// left to themselves if they show no face.
pub proof fn models_run_where_they_can_matter(mode: PhotoMode, face: Option<FaceBox>)
    ensures
        wants_face(ScanMode::Auto),
        wants_face(ScanMode::Fixed(mode)) <==> mode == PhotoMode::Portrait,
        wants_animal(ScanMode::Auto, face) <==> face is None,
        wants_animal(ScanMode::Fixed(mode), face) <==> mode == PhotoMode::Animal,
{
}

/// What a scan says of a photo fits together. The type and the subject come
/// from the largest face and the largest animal that the models show in a
/// picture of its size; the sharpness score is that of the type and the
/// subject; and the factors are those of the same picture, score and subject.
pub proof fn appraisals_fit_together(
    c: ColorPicture,
    p: Picture,
    scan_mode: ScanMode,
    method: SharpnessMethod,
    outputs: ModelOutputs,
)
    ensures
        ({
            let face = main_box(
                faces_of(
                    p.width,
                    p.height,
                    match outputs.face {
                        Some(o) => Some(&o),
                        None => None,
                    },
                ),
            );
            let animal = main_box(
                animals_of(
                    p.width,
                    p.height,
                    match outputs.animal {
                        Some(out) => Some(&out),
                        None => None,
                    },
                ),
            );
            let (mode, subject) = classified(scan_mode, face, animal, guess_of(p));
            let (m, s, metrics) = appraisal(c, p, scan_mode, method, outputs);
            &&& m == mode
            &&& s == score_of(p, mode, subject, method)
            &&& metrics == metrics_of(c, p, s, subject)
        }),
{
}

/// Photos are listed in the order in which a walk first came to them: what
/// comes later is listed behind what came before, and moves nothing.
pub proof fn photos_keep_their_order(found: Seq<Found>, more: Seq<Found>)
    ensures
        photos_among(found).len() <= photos_among(found + more).len(),
        photos_among(found + more).take(photos_among(found).len() as int) == photos_among(found),
    decreases more.len(),
{
    if more.len() == 0 {
        assert(found + more =~= found);
        assert(photos_among(found).take(photos_among(found).len() as int) =~= photos_among(found));
    } else {
        let t = more.drop_last();
        let n = photos_among(found).len() as int;
        photos_keep_their_order(found, t);
        assert((found + more).drop_last() =~= found + t);
        let before = photos_among(found + t);
        let all = photos_among(found + more);
        assert(all.take(n) =~= before.take(n));
    }
}

/// Where a disqualified photo goes, in full: a photo below the deepest root
/// that contains it moves to the same place below the folder for rejects of
/// that root.
pub proof fn rejects_keep_their_place(root: Seq<Seq<u8>>, rest: Seq<Seq<u8>>, roots: Seq<Seq<Seq<u8>>>)
    requires
        roots.contains(root),
        forall|i: int|
            0 <= i < roots.len() && lies_in(root + rest, #[trigger] roots[i]) ==> roots[i].len()
                <= root.len(),
    ensures
        disqualified_path(roots, root + rest) == Some(
            root + seq!["disqualified".spec_bytes()] + rest,
        ),
{
    let photo = root + rest;
    depth_is_of_a_root(roots, photo);
    paths_in_a_root_extend_it(photo, root, rest);
    let i = choose|i: int| 0 <= i < roots.len() && roots[i] == root;
    assert(lies_in(photo, roots[i]));
    let d = depth_of_root(roots, photo);
    assert(d == root.len());
    assert(photo.take(d) =~= root);
    assert(photo.skip(d) =~= rest);
}

/// A photo can be appraised if it is not empty, and an empty one if its type is
/// left to the scan or forced to landscape, or if it is scored by its sharpest
/// tiles: nothing then has to be cropped from its middle.
pub proof fn only_empty_pictures_resist(
    width: u32,
    height: u32,
    mode: PhotoMode,
    method: SharpnessMethod,
)
    ensures
        can_appraise(width, height, ScanMode::Auto, method),
        0 < width && 0 < height ==> can_appraise(width, height, ScanMode::Fixed(mode), method),
        width == 0 || height == 0 ==> (can_appraise(width, height, ScanMode::Fixed(mode), method)
            <==> mode == PhotoMode::Landscape || method == SharpnessMethod::SharpestRegion),
{
}

} // verus!
