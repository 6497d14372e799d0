//! Paths as lists of components, each component the bytes of its name.

use vstd::prelude::*;
use vstd::string::StringSliceAdditionalSpecFns;

verus! {

/// A path: its components from the outermost in (an absolute path's first
/// component is the root itself); the last one names the file or folder.
pub struct PhotoPath {
    pub components: Vec<Vec<u8>>,
}

impl View for PhotoPath {
    type V = Seq<Seq<u8>>;

    open spec fn view(&self) -> Seq<Seq<u8>> {
        self.components@.map_values(|c: Vec<u8>| c@)
    }
}

/// Whether `path` is `root` or lies below it, component by component.
pub open spec fn lies_in(path: Seq<Seq<u8>>, root: Seq<Seq<u8>>) -> bool {
    root.len() <= path.len() && path.take(root.len() as int) == root
}

/// The place of the last dot in `name`, or -1.
pub open spec fn last_dot(name: Seq<u8>) -> int
    decreases name.len(),
{
    if name.len() == 0 {
        -1
    } else if name.last() == 46 {
        name.len() - 1
    } else {
        last_dot(name.drop_last())
    }
}

/// The extension of a file name: what follows its last dot. A name without a
/// dot has none, nor has one whose only dot leads it, nor has `..`.
pub open spec fn extension(name: Seq<u8>) -> Option<Seq<u8>> {
    if last_dot(name) <= 0 || name == seq![46u8, 46u8] {
        None
    } else {
        Some(name.skip(last_dot(name) + 1))
    }
}

/// The extension of the file a path names.
pub open spec fn extension_of(path: Seq<Seq<u8>>) -> Option<Seq<u8>> {
    if path.len() == 0 {
        None
    } else {
        extension(path.last())
    }
}

/// The lower-case form of an ASCII letter; any other byte unchanged.
pub open spec fn lower(b: u8) -> u8 {
    if 65 <= b <= 90 {
        (b + 32) as u8
    } else {
        b
    }
}

/// Whether the extension of the file a path names is `ext`, up to ASCII case.
pub open spec fn has_extension(path: Seq<Seq<u8>>, ext: Seq<u8>) -> bool {
    &&& path.len() > 0
    &&& extension(path.last()) matches Some(e) && e.map_values(|b: u8| lower(b)) == ext
}

/// Whether the extension of the file a path names is on the list, up to ASCII
/// case.
pub open spec fn has_listed_extension(path: Seq<Seq<u8>>, list: Seq<&str>) -> bool {
    exists|i: int| 0 <= i < list.len() && has_extension(path, #[trigger] list[i].spec_bytes())
}

/// Whether two byte strings are equal.
pub fn same_bytes(a: &[u8], b: &[u8]) -> (r: bool)
    ensures
        r == (a@ == b@),
{
    if a.len() != b.len() {
        return false;
    }
    for i in 0..a.len()
        invariant
            a@.len() == b@.len(),
            forall|k: int| 0 <= k < i ==> a@[k] == b@[k],
    {
        if a[i] != b[i] {
            return false;
        }
    }
    assert(a@ =~= b@);
    true
}

/// The bytes of a string, in a vector of their own.
pub fn bytes_of(s: &str) -> (r: Vec<u8>)
    ensures
        r@ == s.spec_bytes(),
{
    let bytes: &[u8] = s.as_bytes();
    let mut out: Vec<u8> = Vec::new();
    for i in 0..bytes.len()
        invariant
            out@ =~= bytes@.take(i as int),
    {
        out.push(bytes[i]);
    }
    assert(bytes@.take(bytes@.len() as int) =~= bytes@);
    out
}

fn find_last_dot(name: &Vec<u8>) -> (r: Option<usize>)
    ensures
        last_dot(name@) == (match r {
            Some(i) => i as int,
            None => -1,
        }),
        r matches Some(i) ==> i < name@.len(),
{
    let mut n: usize = name.len();
    assert(name@.take(n as int) =~= name@);
    while n > 0
        invariant
            n <= name@.len(),
            last_dot(name@) == last_dot(name@.take(n as int)),
        decreases n,
    {
        assert(name@.take(n as int).drop_last() =~= name@.take(n - 1));
        if name[n - 1] == 46 {
            return Some(n - 1);
        }
        n = n - 1;
    }
    None
}

/// Where the extension of a file name starts, if it has one.
fn extension_start(name: &Vec<u8>) -> (r: Option<usize>)
    ensures
        r is Some <==> extension(name@) is Some,
        r matches Some(i) ==> i <= name@.len() && extension(name@) == Some(name@.skip(i as int)),
{
    let total: usize = name.len();
    if total == 2 && name[0] == 46 && name[1] == 46 {
        assert(name@ =~= seq![46u8, 46u8]);
        return None;
    }
    match find_last_dot(name) {
        None => None,
        Some(i) => if i == 0 {
            None
        } else {
            Some(i + 1)
        },
    }
}

fn extension_is(name: &Vec<u8>, ext: &[u8]) -> (r: bool)
    ensures
        r == (extension(name@) matches Some(e) && e.map_values(|b: u8| lower(b)) == ext@),
{
    let total: usize = name.len();
    let start: usize = match extension_start(name) {
        None => {
            return false;
        },
        Some(i) => i,
    };
    let ghost e = name@.skip(start as int);
    assert(extension(name@) == Some(e));
    if total - start != ext.len() {
        assert(e.map_values(|b: u8| lower(b)).len() != ext@.len());
        return false;
    }
    for i in 0..ext.len()
        invariant
            total == name@.len(),
            start <= total,
            total - start == ext@.len(),
            e == name@.skip(start as int),
            extension(name@) == Some(e),
            forall|k: int| 0 <= k < i ==> lower(e[k]) == ext@[k],
    {
        let b: u8 = name[start + i];
        let small: u8 = if 65 <= b && b <= 90 {
            b + 32
        } else {
            b
        };
        if small != ext[i] {
            assert(e.map_values(|b: u8| lower(b))[i as int] != ext@[i as int]);
            return false;
        }
    }
    assert(e.map_values(|b: u8| lower(b)) =~= ext@);
    true
}

impl PhotoPath {
    /// Whether the extension of the file is on the list, up to ASCII case.
    pub fn has_extension_in(&self, list: &[&str]) -> (r: bool)
        ensures
            r == has_listed_extension(self@, list@),
    {
        if self.components.len() == 0 {
            return false;
        }
        let name: &Vec<u8> = &self.components[self.components.len() - 1];
        assert(self@.last() == name@);
        for i in 0..list.len()
            invariant
                self@.len() > 0,
                self@.last() == name@,
                forall|k: int|
                    0 <= k < i ==> !has_extension(self@, #[trigger] list@[k].spec_bytes()),
        {
            let bytes: &[u8] = list[i].as_bytes();
            if extension_is(name, bytes) {
                assert(has_extension(self@, list@[i as int].spec_bytes()));
                return true;
            }
        }
        false
    }

    /// The extension of the file the path names, if it has one.
    pub fn extension(&self) -> (r: Option<Vec<u8>>)
        ensures
            r is Some <==> extension_of(self@) is Some,
            r matches Some(e) ==> extension_of(self@) == Some(e@),
    {
        let depth: usize = self.components.len();
        if depth == 0 {
            return None;
        }
        let name: &Vec<u8> = &self.components[depth - 1];
        assert(self@.last() == name@);
        let start: usize = extension_start(name)?;
        let total: usize = name.len();
        let ghost e = name@.skip(start as int);
        let mut out: Vec<u8> = Vec::new();
        for i in start..total
            invariant
                start <= total == name@.len(),
                e == name@.skip(start as int),
                out@ =~= e.take(i - start),
        {
            out.push(name[i]);
        }
        assert(e.take(total - start) =~= e);
        Some(out)
    }

    /// Whether the path is `root` or lies below it.
    pub fn starts_with(&self, root: &PhotoPath) -> (r: bool)
        ensures
            r == lies_in(self@, root@),
    {
        if root.components.len() > self.components.len() {
            return false;
        }
        for i in 0..root.components.len()
            invariant
                root@.len() <= self@.len(),
                root@.len() == root.components@.len(),
                self@.len() == self.components@.len(),
                forall|k: int| 0 <= k < i ==> self@[k] == #[trigger] root@[k],
        {
            assert(self@[i as int] == self.components@[i as int]@);
            assert(root@[i as int] == root.components@[i as int]@);
            if !same_bytes(self.components[i].as_slice(), root.components[i].as_slice()) {
                assert(self@.take(root@.len() as int)[i as int] != root@[i as int]);
                return false;
            }
        }
        assert(self@.take(root@.len() as int) =~= root@);
        true
    }

    /// Whether two paths are the same, component by component. Compares from
    /// the innermost component out, where paths differ most.
    pub fn same(&self, other: &PhotoPath) -> (r: bool)
        ensures
            r == (self@ == other@),
    {
        let n: usize = self.components.len();
        if n != other.components.len() {
            assert(self@.len() != other@.len());
            return false;
        }
        let mut i: usize = n;
        while i > 0
            invariant
                i <= n,
                n == self.components@.len(),
                n == other.components@.len(),
                forall|k: int| i <= k < n ==> self@[k] == #[trigger] other@[k],
            decreases i,
        {
            i = i - 1;
            assert(self@[i as int] == self.components@[i as int]@);
            assert(other@[i as int] == other.components@[i as int]@);
            if !same_bytes(self.components[i].as_slice(), other.components[i].as_slice()) {
                return false;
            }
        }
        assert(self@ =~= other@);
        true
    }

    /// A path of its own with the same components.
    pub fn copy(&self) -> (r: PhotoPath)
        ensures
            r@ == self@,
    {
        let mut components: Vec<Vec<u8>> = Vec::new();
        for i in 0..self.components.len()
            invariant
                components@.len() == i,
                forall|k: int| 0 <= k < i ==> (#[trigger] components@[k])@ == self.components@[k]@,
        {
            let c = self.components[i].clone();
            assert(c@ =~= self.components@[i as int]@);
            components.push(c);
        }
        let r = PhotoPath { components };
        assert(r@ =~= self@);
        r
    }
}

/// A path lies in a root exactly if it is the root followed by some more
/// components, or none.
pub proof fn paths_in_a_root_extend_it(path: Seq<Seq<u8>>, root: Seq<Seq<u8>>, rest: Seq<Seq<u8>>)
    ensures
        lies_in(root + rest, root),
        lies_in(path, root) ==> path == root + path.skip(root.len() as int),
{
    assert((root + rest).take(root.len() as int) =~= root);
    if lies_in(path, root) {
        assert(path =~= root + path.skip(root.len() as int));
    }
}

proof fn last_dot_is(name: Seq<u8>, i: int)
    requires
        -1 <= i < name.len(),
        i >= 0 ==> name[i] == 46,
        forall|j: int| i < j < name.len() ==> #[trigger] name[j] != 46,
    ensures
        last_dot(name) == i,
    decreases name.len(),
{
    if name.len() > 0 && i < name.len() - 1 {
        assert(name[name.len() - 1] != 46);
        let t = name.drop_last();
        assert forall|j: int| i < j < t.len() implies #[trigger] t[j] != 46 by {
            assert(name[j] != 46);
        }
        last_dot_is(t, i);
    }
}

/// The extension of a file is what follows the last dot of its name, provided
/// that something stands before that dot; `..` has none either, and neither has
/// a name without a dot, nor a path without a name.
pub proof fn extensions_follow_the_last_dot(parent: Seq<Seq<u8>>, stem: Seq<u8>, ext: Seq<u8>)
    requires
        !ext.contains(46u8),
    ensures
        stem.len() > 0 && !(stem == seq![46u8] && ext.len() == 0) ==> extension_of(
            parent.push(stem.push(46u8) + ext),
        ) == Some(ext),
        extension_of(parent.push(seq![46u8] + ext)) is None,
        extension_of(parent.push(seq![46u8, 46u8])) is None,
        extension_of(parent.push(ext)) is None,
        extension_of(Seq::empty()) is None,
{
    let name = stem.push(46u8) + ext;
    let n = stem.len() as int;
    assert(name[n] == 46);
    assert forall|j: int| n < j < name.len() implies #[trigger] name[j] != 46 by {
        assert(name[j] == ext[j - n - 1]);
        assert(ext.contains(ext[j - n - 1]));
    }
    last_dot_is(name, n);
    assert(name.skip(n + 1) =~= ext);
    assert(parent.push(name).last() == name);
    if name == seq![46u8, 46u8] {
        assert(name.len() == n + 1 + ext.len());
        if n == 1 {
            assert(stem[0] == name[0]);
            assert(stem =~= seq![46u8]);
        }
    }
    let hidden = seq![46u8] + ext;
    assert(hidden[0] == 46);
    assert forall|j: int| 0 < j < hidden.len() implies #[trigger] hidden[j] != 46 by {
        assert(hidden[j] == ext[j - 1]);
        assert(ext.contains(ext[j - 1]));
    }
    last_dot_is(hidden, 0);
    assert(parent.push(hidden).last() == hidden);
    assert forall|j: int| -1 < j < ext.len() implies #[trigger] ext[j] != 46 by {
        assert(ext.contains(ext[j]));
    }
    last_dot_is(ext, -1);
    assert(parent.push(ext).last() == ext);
    assert(parent.push(seq![46u8, 46u8]).last() == seq![46u8, 46u8]);
}

/// A file has an extension on the list exactly if its own extension is that
/// one, letter by letter, where an upper-case letter stands for the lower-case
/// one. (Listed extensions are in lower case.)
pub proof fn extensions_match_in_any_case(path: Seq<Seq<u8>>, own: Seq<u8>, wanted: Seq<u8>)
    requires
        extension_of(path) == Some(own),
        forall|i: int| 0 <= i < wanted.len() ==> !(65 <= #[trigger] wanted[i] <= 90),
    ensures
        has_extension(path, wanted) <==> own.len() == wanted.len() && forall|i: int|
            0 <= i < own.len() ==> #[trigger] own[i] == wanted[i] || 65 <= own[i] <= 90 && own[i]
                + 32 == wanted[i],
{
    let small = own.map_values(|b: u8| lower(b));
    if has_extension(path, wanted) {
        assert forall|i: int| 0 <= i < own.len() implies #[trigger] own[i] == wanted[i] || 65
            <= own[i] <= 90 && own[i] + 32 == wanted[i] by {
            assert(small[i] == wanted[i]);
        }
    }
    if own.len() == wanted.len() && forall|i: int|
        0 <= i < own.len() ==> #[trigger] own[i] == wanted[i] || 65 <= own[i] <= 90 && own[i] + 32
            == wanted[i] {
        assert forall|i: int| 0 <= i < small.len() implies #[trigger] small[i] == wanted[i] by {
            assert(own[i] == wanted[i] || 65 <= own[i] <= 90 && own[i] + 32 == wanted[i]);
            assert(!(65 <= wanted[i] <= 90));
        }
        assert(small =~= wanted);
    }
}

} // verus!
