//! Detecting near-duplicate and burst-sequence photos via perceptual hashing,
//! and clustering them into groups.

use vstd::prelude::*;

use crate::rank::{
    in_range, rank, ranked, ranking_falls, ranking_is_a_rearrangement, ranking_is_stable,
    ranking_keeps_members,
};
use crate::raster::{
    gray, luma, resize_exact, to_gray, triangle_resized, ColorPicture, GrayImage, Picture, RgbImage,
};
use crate::select::{
    first_indices, indices, selected, selection_is_exact,
};

verus! {

/// How many ones the binary form of `x` has.
pub open spec fn ones(x: u64) -> nat
    decreases x,
{
    if x == 0 {
        0
    } else {
        (x % 2) as nat + ones(x / 2)
    }
}

/// `u64::count_ones` counts the ones of the binary form.
pub assume_specification[ u64::count_ones ](x: u64) -> (r: u32)
    ensures
        r == ones(x),
;

/// In how many bits `a` and `b` differ.
pub open spec fn distance(a: u64, b: u64) -> nat {
    ones(a ^ b)
}

/// In how many bits `a` and `b` differ.
pub fn hamming_distance(a: u64, b: u64) -> (r: u32)
    ensures
        r == distance(a, b),
{
    (a ^ b).count_ones()
}

proof fn ones_up_to(x: u64, bits: nat)
    requires
        bits <= 64,
        bits < 64 ==> x < vstd::arithmetic::power2::pow2(bits),
    ensures
        ones(x) <= bits,
    decreases bits,
{
    if bits == 0 {
        vstd::arithmetic::power2::lemma2_to64();
    } else {
        vstd::arithmetic::power2::lemma2_to64();
        vstd::arithmetic::power2::lemma_pow2_unfold(bits);
        if bits == 64 {
            vstd::arithmetic::power2::lemma2_to64_rest();
            assert(x / 2 < 0x8000_0000_0000_0000);
        }
        ones_up_to(x / 2, (bits - 1) as nat);
    }
}

proof fn ones_of_xor(a: u64, b: u64)
    ensures
        (a ^ b) / 2 == (a / 2) ^ (b / 2),
        (a ^ b) % 2 == (if a % 2 == b % 2 {
            0u64
        } else {
            1u64
        }),
{
    assert((a ^ b) / 2 == (a / 2) ^ (b / 2)) by (bit_vector);
    assert((a ^ b) % 2 == (if a % 2 == b % 2 {
        0u64
    } else {
        1u64
    })) by (bit_vector);
}

proof fn triangle(a: u64, b: u64, c: u64)
    ensures
        distance(a, c) <= distance(a, b) + distance(b, c),
    decreases a + b + c,
{
    ones_of_xor(a, b);
    ones_of_xor(b, c);
    ones_of_xor(a, c);
    assert(0u64 ^ 0u64 == 0u64) by (bit_vector);
    if a == 0 && b == 0 && c == 0 {
    } else {
        triangle(a / 2, b / 2, c / 2);
        reveal_with_fuel(ones, 2);
        assert(ones(a ^ b) == (a ^ b) % 2 + ones((a / 2) ^ (b / 2)));
        assert(ones(b ^ c) == (b ^ c) % 2 + ones((b / 2) ^ (c / 2)));
        assert(ones(a ^ c) == (a ^ c) % 2 + ones((a / 2) ^ (c / 2)));
    }
}

/// The distance between hashes is a metric with values up to 64: zero exactly
/// between equal hashes, the same both ways, and no longer than a detour.
pub proof fn distance_is_a_metric(a: u64, b: u64, c: u64)
    ensures
        distance(a, b) == 0 <==> a == b,
        distance(a, b) == distance(b, a),
        distance(a, c) <= distance(a, b) + distance(b, c),
        distance(a, b) <= 64,
{
    triangle(a, b, c);
    ones_up_to(a ^ b, 64);
    assert(a ^ b == b ^ a) by (bit_vector);
    assert(a ^ b == 0 <==> a == b) by (bit_vector);
    no_ones(a ^ b);
}

proof fn no_ones(x: u64)
    ensures
        ones(x) == 0 <==> x == 0,
    decreases x,
{
    if x != 0 {
        no_ones(x / 2);
    }
}

/// Whether bit `k` of `hash` is set.
pub open spec fn has_bit(hash: u64, k: u64) -> bool {
    (hash >> k) & 1 == 1
}

/// Whether, in a picture nine pixels wide, the `k`-th pixel that has a right
/// neighbour is brighter than that neighbour.
pub open spec fn falls_to_the_right(p: Picture, k: int) -> bool {
    p.at(k % 8, k / 8) > p.at(k % 8 + 1, k / 8)
}

/// Whether `hash` is the difference hash of a nine by eight picture: a bit per
/// pixel with a right neighbour, set where the pixel is the brighter one.
pub open spec fn is_difference_hash(p: Picture, hash: u64) -> bool {
    forall|k: u64| k < 64 ==> #[trigger] has_bit(hash, k) == falls_to_the_right(p, k as int)
}

/// The picture a photo is hashed by: nine by eight pixels, gray.
pub open spec fn thumbprint(c: ColorPicture) -> Picture {
    gray(
        ColorPicture {
            width: 9,
            height: 8,
            data: triangle_resized(c.data, c.width as u32, c.height as u32, 9, 8),
        },
    )
}

/// The difference hash of a nine by eight gray picture.
pub fn dhash_gray(gray: &GrayImage) -> (hash: u64)
    requires
        gray.wf(),
        gray.width == 9,
        gray.height == 8,
    ensures
        is_difference_hash(gray@, hash),
{
    let mut hash: u64 = 0;
    let mut k: u64 = 0;
    assert forall|j: u64| j < 64 implies !#[trigger] has_bit(0u64, j) by {
        assert(j < 64 ==> (0u64 >> j) & 1 == 0) by (bit_vector);
    }
    while k < 64
        invariant
            gray.wf(),
            gray.width == 9,
            gray.height == 8,
            k <= 64,
            forall|j: u64|
                j < k ==> #[trigger] has_bit(hash, j) == falls_to_the_right(gray@, j as int),
            forall|j: u64| k <= j < 64 ==> !#[trigger] has_bit(hash, j),
        decreases 64 - k,
    {
        let x: usize = (k % 8) as usize;
        let y: usize = (k / 8) as usize;
        let left: u8 = gray.data[y * 9 + x];
        let right: u8 = gray.data[y * 9 + (x + 1)];
        let ghost before = hash;
        if left > right {
            hash = hash | (1u64 << k);
        }
        proof {
            assert forall|j: u64| j < 64 implies #[trigger] has_bit(hash, j) == (has_bit(before, j)
                || (j == k && left > right)) by {
                assert(j < 64 && k < 64 ==> ((before | (1u64 << k)) >> j) & 1 == (if j == k {
                    1
                } else {
                    (before >> j) & 1
                })) by (bit_vector);
            }
            assert(has_bit(hash, k) == falls_to_the_right(gray@, k as int));
        }
        k = k + 1;
    }
    hash
}

/// 64-bit difference hash: resize to nine by eight, grayscale, compare each
/// pixel to its right neighbor. Near-identical pictures (duplicates,
/// consecutive burst frames) produce hashes with a small Hamming distance;
/// visually different pictures diverge quickly.
pub fn dhash(rgb: &RgbImage) -> (hash: u64)
    requires
        rgb.wf(),
        rgb.can_resample(),
    ensures
        is_difference_hash(thumbprint(rgb@), hash),
{
    let small = resize_exact(rgb, 9, 8);
    assert(small@ == (ColorPicture {
        width: 9,
        height: 8,
        data: triangle_resized(rgb.data@, rgb.width, rgb.height, 9, 8),
    }));
    dhash_gray(&to_gray(&small))
}

/// A picture has one difference hash.
pub proof fn difference_hash_is_unique(p: Picture, a: u64, b: u64)
    requires
        is_difference_hash(p, a),
        is_difference_hash(p, b),
    ensures
        a == b,
{
    assert forall|k: u64| k < 64 implies (a >> k) & 1 == (b >> k) & 1 by {
        assert(has_bit(a, k) == has_bit(b, k));
        assert((a >> k) & 1 == 0 || (a >> k) & 1 == 1) by (bit_vector);
        assert((b >> k) & 1 == 0 || (b >> k) & 1 == 1) by (bit_vector);
    }
    same_bits(a, b, 0);
    assert(a >> 0u64 == a && b >> 0u64 == b) by (bit_vector);
}

proof fn same_bits(a: u64, b: u64, k: u64)
    requires
        k <= 64,
        forall|j: u64| j < 64 ==> (#[trigger] (a >> j)) & 1 == (b >> j) & 1,
    ensures
        k < 64 ==> a >> k == b >> k,
    decreases 64 - k,
{
    if k < 64 {
        same_bits(a, b, (k + 1) as u64);
        assert((a >> k) & 1 == (b >> k) & 1);
        if k == 63 {
            assert(a >> 63u64 == (a >> 63u64) & 1 && b >> 63u64 == (b >> 63u64) & 1) by (bit_vector);
        } else {
            let n = (k + 1) as u64;
            assert(k < 63 && n == k + 1 && a >> n == b >> n && (a >> k) & 1 == (b >> k) & 1 ==> a
                >> k == b >> k) by (bit_vector);
        }
    }
}

/// Whether the hashes `i` and `j` differ in at most `max` bits.
pub open spec fn near(hashes: Seq<u64>, max: u32, i: int, j: int) -> bool {
    distance(hashes[i], hashes[j]) <= max
}

/// Whether `chain` leads from `i` to `j` in steps between near hashes.
pub open spec fn is_chain(hashes: Seq<u64>, max: u32, chain: Seq<int>, i: int, j: int) -> bool {
    &&& chain.len() > 0
    &&& chain.first() == i
    &&& chain.last() == j
    &&& forall|k: int| 0 <= k < chain.len() ==> 0 <= #[trigger] chain[k] < hashes.len()
    &&& forall|k: int|
        0 <= k < chain.len() - 1 ==> #[trigger] near(hashes, max, chain[k], chain[k + 1])
}

/// Whether some chain of near hashes leads from `i` to `j`.
pub open spec fn linked(hashes: Seq<u64>, max: u32, i: int, j: int) -> bool {
    exists|chain: Seq<int>| is_chain(hashes, max, chain, i, j)
}

/// Near hashes are linked.
pub proof fn near_is_linked(hashes: Seq<u64>, max: u32, i: int, j: int)
    requires
        0 <= i < hashes.len(),
        0 <= j < hashes.len(),
        near(hashes, max, i, j),
    ensures
        linked(hashes, max, i, j),
{
    let chain = seq![i, j];
    assert(is_chain(hashes, max, chain, i, j)) by {
        assert forall|k: int| 0 <= k < chain.len() - 1 implies #[trigger] near(
            hashes,
            max,
            chain[k],
            chain[k + 1],
        ) by {
            assert(k == 0);
        }
    }
}

/// Being linked is an equivalence: every photo is linked to itself, links hold
/// both ways, and they combine.
pub proof fn linked_is_an_equivalence(hashes: Seq<u64>, max: u32, i: int, j: int, k: int)
    requires
        0 <= i < hashes.len(),
    ensures
        linked(hashes, max, i, i),
        linked(hashes, max, i, j) ==> linked(hashes, max, j, i),
        linked(hashes, max, i, j) && linked(hashes, max, j, k) ==> linked(hashes, max, i, k),
{
    assert(is_chain(hashes, max, seq![i], i, i));
    if linked(hashes, max, i, j) {
        let a = choose|c: Seq<int>| is_chain(hashes, max, c, i, j);
        let back = a.reverse();
        assert(is_chain(hashes, max, back, j, i)) by {
            assert forall|m: int| 0 <= m < back.len() implies 0 <= #[trigger] back[m] < hashes.len() by {
                assert(back[m] == a[a.len() - 1 - m]);
            }
            assert forall|m: int| 0 <= m < back.len() - 1 implies #[trigger] near(
                hashes,
                max,
                back[m],
                back[m + 1],
            ) by {
                let n = a.len() - 2 - m;
                assert(near(hashes, max, a[n], a[n + 1]));
                assert(back[m] == a[n + 1] && back[m + 1] == a[n]);
                distance_is_a_metric(hashes[a[n]], hashes[a[n + 1]], 0);
            }
        }
        if linked(hashes, max, j, k) {
            let b = choose|c: Seq<int>| is_chain(hashes, max, c, j, k);
            let both = a + b.subrange(1, b.len() as int);
            assert(is_chain(hashes, max, both, i, k)) by {
                if b.len() > 1 {
                    assert(both.last() == b.last());
                } else {
                    assert(both =~= a);
                }
                assert forall|m: int| 0 <= m < both.len() implies 0 <= #[trigger] both[m]
                    < hashes.len() by {
                    if m < a.len() {
                        assert(both[m] == a[m]);
                    } else {
                        assert(both[m] == b[m - a.len() + 1]);
                    }
                }
                assert forall|m: int| 0 <= m < both.len() - 1 implies #[trigger] near(
                    hashes,
                    max,
                    both[m],
                    both[m + 1],
                ) by {
                    if m + 1 < a.len() {
                        assert(both[m] == a[m] && both[m + 1] == a[m + 1]);
                        assert(near(hashes, max, a[m], a[m + 1]));
                    } else if m + 1 == a.len() {
                        assert(both[m] == j && both[m + 1] == b[1]);
                        let z: int = 0;
                        assert(near(hashes, max, b[z], b[z + 1]));
                    } else {
                        let n = m - a.len() + 1;
                        assert(both[m] == b[n] && both[m + 1] == b[n + 1]);
                        assert(near(hashes, max, b[n], b[n + 1]));
                    }
                }
            }
        }
    }
}

/// The state of the clustering: `root[x]` is the representative of the cluster
/// of `x`, and following `parent` from `x` climbs in `rank` until it gets there.
spec fn is_forest(parent: Seq<usize>, root: Seq<usize>, rank: Seq<int>, top: int) -> bool {
    &&& root.len() == parent.len()
    &&& rank.len() == parent.len()
    &&& forall|x: int|
        0 <= x < parent.len() ==> {
            &&& #[trigger] parent[x] < parent.len()
            &&& root[x] < parent.len()
            &&& 0 <= rank[x] <= top
            &&& root[parent[x] as int] == root[x]
            &&& parent[root[x] as int] == root[x]
            &&& parent[x] == x ==> root[x] == x
            &&& parent[x] != x ==> rank[x] < rank[parent[x] as int]
        }
}

/// The representative of the cluster of `x`; shortens the way there.
fn find(
    parent: &mut Vec<usize>,
    x: usize,
    Ghost(root): Ghost<Seq<usize>>,
    Ghost(rank): Ghost<Seq<int>>,
    Ghost(top): Ghost<int>,
) -> (r: usize)
    requires
        is_forest(old(parent)@, root, rank, top),
        x < old(parent)@.len(),
    ensures
        is_forest(final(parent)@, root, rank, top),
        final(parent)@.len() == old(parent)@.len(),
        r == root[x as int],
        rank[x as int] <= rank[r as int],
        final(parent)@[x as int] == r,
    decreases top - rank[x as int],
{
    let up: usize = parent[x];
    if up != x {
        assert(parent@[up as int] < parent@.len());
        let r: usize = find(parent, up, Ghost(root), Ghost(rank), Ghost(top));
        let ghost before = parent@;
        parent.set(x, r);
        assert(before[root[x as int] as int] == root[x as int]);
        assert forall|y: int| 0 <= y < parent@.len() implies {
            &&& #[trigger] parent@[y] < parent@.len()
            &&& root[y] < parent@.len()
            &&& 0 <= rank[y] <= top
            &&& root[parent@[y] as int] == root[y]
            &&& parent@[root[y] as int] == root[y]
            &&& parent@[y] == y ==> root[y] == y
            &&& parent@[y] != y ==> rank[y] < rank[parent@[y] as int]
        } by {
            assert(before[y] < before.len());
            assert(before[root[y] as int] < before.len());
        }
    } else {
        assert(root[x as int] == x);
    }
    parent[x]
}

/// Joining the cluster of `a` to that of `b` leaves a forest.
proof fn joined_is_forest(
    parent: Seq<usize>,
    root: Seq<usize>,
    rank: Seq<int>,
    top: int,
    a: usize,
    b: usize,
)
    requires
        is_forest(parent, root, rank, top),
        a < parent.len(),
        b < parent.len(),
        parent[a as int] == a,
        parent[b as int] == b,
        a != b,
    ensures
        is_forest(
            parent.update(a as int, b),
            joined_roots(root, a, b),
            rank.update(b as int, joined_rank(rank, a, b)),
            top + 1,
        ),
{
    let p = parent.update(a as int, b);
    let r = joined_roots(root, a, b);
    let k = rank.update(b as int, joined_rank(rank, a, b));
    assert forall|x: int| 0 <= x < p.len() implies {
        &&& #[trigger] p[x] < p.len()
        &&& r[x] < p.len()
        &&& 0 <= k[x] <= top + 1
        &&& r[p[x] as int] == r[x]
        &&& p[r[x] as int] == r[x]
        &&& p[x] == x ==> r[x] == x
        &&& p[x] != x ==> k[x] < k[p[x] as int]
    } by {
        assert(parent[x] < parent.len());
        assert(parent[a as int] < parent.len());
        assert(parent[b as int] < parent.len());
        assert(root[a as int] == a && root[b as int] == b);
        assert(parent[root[x] as int] < parent.len());
    }
}

spec fn joined_roots(root: Seq<usize>, a: usize, b: usize) -> Seq<usize> {
    Seq::new(
        root.len(),
        |x: int|
            if root[x] == a {
                b
            } else {
                root[x]
            },
    )
}

spec fn joined_rank(rank: Seq<int>, a: usize, b: usize) -> int {
    if rank[a as int] >= rank[b as int] {
        rank[a as int] + 1
    } else {
        rank[b as int]
    }
}

/// Only linked photos share a representative.
spec fn only_linked_share(hashes: Seq<u64>, max: u32, root: Seq<usize>) -> bool {
    forall|x: int, y: int|
        0 <= x < root.len() && 0 <= y < root.len() && #[trigger] root[x] == #[trigger] root[y]
            ==> linked(hashes, max, x, y)
}

/// The near pairs looked at so far share a representative: all pairs with a
/// first member below `i`, and those with first member `i` and second below `j`.
spec fn near_share(hashes: Seq<u64>, max: u32, root: Seq<usize>, i: int, j: int) -> bool {
    forall|x: int, y: int|
        0 <= x < y < root.len() && (x < i || x == i && y < j) && #[trigger] near(hashes, max, x, y)
            ==> root[x] == root[y]
}

proof fn joined_only_linked(
    hashes: Seq<u64>,
    max: u32,
    root: Seq<usize>,
    i: int,
    j: int,
)
    requires
        only_linked_share(hashes, max, root),
        root.len() == hashes.len(),
        0 <= i < root.len(),
        0 <= j < root.len(),
        near(hashes, max, i, j),
    ensures
        only_linked_share(hashes, max, joined_roots(root, root[i], root[j])),
{
    let r = joined_roots(root, root[i], root[j]);
    near_is_linked(hashes, max, i, j);
    linked_is_an_equivalence(hashes, max, i, j, 0);
    assert forall|x: int, y: int|
        0 <= x < r.len() && 0 <= y < r.len() && #[trigger] r[x] == #[trigger] r[y] implies linked(
        hashes,
        max,
        x,
        y,
    ) by {
        if root[x] == root[y] {
        } else if root[x] == root[i] {
            assert(root[y] == root[j]);
            linked_is_an_equivalence(hashes, max, x, i, j);
            linked_is_an_equivalence(hashes, max, x, j, y);
        } else {
            assert(root[x] == root[j] && root[y] == root[i]);
            linked_is_an_equivalence(hashes, max, x, j, i);
            linked_is_an_equivalence(hashes, max, x, i, y);
        }
    }
}

proof fn chain_shares(
    hashes: Seq<u64>,
    max: u32,
    root: Seq<usize>,
    chain: Seq<int>,
    i: int,
    j: int,
)
    requires
        near_share(hashes, max, root, hashes.len() as int, 0),
        root.len() == hashes.len(),
        is_chain(hashes, max, chain, i, j),
    ensures
        root[i] == root[j],
    decreases chain.len(),
{
    if chain.len() > 1 {
        let m = chain[chain.len() - 2];
        let shorter = chain.drop_last();
        assert(is_chain(hashes, max, shorter, i, m)) by {
            assert forall|k: int| 0 <= k < shorter.len() implies 0 <= #[trigger] shorter[k]
                < hashes.len() by {
                assert(shorter[k] == chain[k]);
            }
            assert forall|k: int| 0 <= k < shorter.len() - 1 implies #[trigger] near(
                hashes,
                max,
                shorter[k],
                shorter[k + 1],
            ) by {
                assert(near(hashes, max, chain[k], chain[k + 1]));
            }
        }
        chain_shares(hashes, max, root, shorter, i, m);
        let n = chain.len() - 2;
        assert(near(hashes, max, chain[n], chain[n + 1]));
        assert(0 <= chain[n] < hashes.len() && 0 <= chain[n + 1] < hashes.len());
        distance_is_a_metric(hashes[m], hashes[j], 0);
        assert(near(hashes, max, m, j));
        assert(near(hashes, max, j, m));
    }
}

/// For every photo the representative of its cluster: two photos share one
/// exactly if they are linked.
fn representatives(hashes: &Vec<u64>, max: u32) -> (roots: Vec<usize>)
    ensures
        roots@.len() == hashes@.len(),
        forall|x: int, y: int|
            0 <= x < roots@.len() && 0 <= y < roots@.len() ==> (#[trigger] roots@[x]
                == #[trigger] roots@[y] <==> linked(hashes@, max, x, y)),
{
    let n: usize = hashes.len();
    let mut parent: Vec<usize> = indices(n);
    let ghost mut root: Seq<usize> = parent@;
    let ghost mut rank: Seq<int> = Seq::new(n as nat, |x: int| 0int);
    let ghost mut top: int = 0;
    assert forall|x: int, y: int|
        0 <= x < root.len() && 0 <= y < root.len() && #[trigger] root[x] == #[trigger] root[y]
        implies linked(hashes@, max, x, y) by {
        linked_is_an_equivalence(hashes@, max, x, x, x);
    }
    for i in 0..n
        invariant
            n == hashes@.len(),
            parent@.len() == n,
            is_forest(parent@, root, rank, top),
            only_linked_share(hashes@, max, root),
            near_share(hashes@, max, root, i as int, 0),
    {
        for j in i + 1..n
            invariant
                n == hashes@.len(),
                i < n,
                parent@.len() == n,
                is_forest(parent@, root, rank, top),
                only_linked_share(hashes@, max, root),
                near_share(hashes@, max, root, i as int, j as int),
        {
            if hamming_distance(hashes[i], hashes[j]) <= max {
                let ri: usize = find(&mut parent, i, Ghost(root), Ghost(rank), Ghost(top));
                let rj: usize = find(&mut parent, j, Ghost(root), Ghost(rank), Ghost(top));
                if ri != rj {
                    proof {
                        assert(parent@[i as int] < parent@.len());
                        assert(parent@[j as int] < parent@.len());
                        joined_is_forest(parent@, root, rank, top, ri, rj);
                        joined_only_linked(hashes@, max, root, i as int, j as int);
                        let before = root;
                        let after = joined_roots(root, ri, rj);
                        assert(near_share(hashes@, max, after, i as int, j + 1)) by {
                            assert forall|x: int, y: int|
                                0 <= x < y < after.len() && (x < i || x == i && y < j + 1)
                                    && #[trigger] near(hashes@, max, x, y) implies after[x]
                                == after[y] by {
                                if x == i && y == j {
                                } else {
                                    assert(before[x] == before[y]);
                                }
                            }
                        }
                        rank = rank.update(rj as int, joined_rank(rank, ri, rj));
                        root = after;
                        top = top + 1;
                    }
                    parent.set(ri, rj);
                }
            }
        }
    }
    let mut roots: Vec<usize> = Vec::new();
    for i in 0..n
        invariant
            n == hashes@.len(),
            parent@.len() == n,
            is_forest(parent@, root, rank, top),
            roots@ =~= root.take(i as int),
    {
        let r: usize = find(&mut parent, i, Ghost(root), Ghost(rank), Ghost(top));
        roots.push(r);
    }
    proof {
        assert(roots@ =~= root);
        assert(near_share(hashes@, max, root, hashes@.len() as int, 0));
        assert forall|x: int, y: int|
            0 <= x < roots@.len() && 0 <= y < roots@.len() implies (#[trigger] roots@[x]
            == #[trigger] roots@[y] <==> linked(hashes@, max, x, y)) by {
            if linked(hashes@, max, x, y) {
                let chain = choose|c: Seq<int>| is_chain(hashes@, max, c, x, y);
                chain_shares(hashes@, max, root, chain, x, y);
            }
        }
    }
    roots
}

/// The photos linked to photo `i`, in their given order.
pub open spec fn cluster(hashes: Seq<u64>, max: u32, i: int) -> Seq<usize> {
    selected(hashes.len(), |j: int| linked(hashes, max, i, j))
}

/// Whether photo `i` is the first of a cluster of two or more.
pub open spec fn leads(hashes: Seq<u64>, max: u32, i: int) -> bool {
    &&& cluster(hashes, max, i).len() > 1
    &&& forall|j: int| 0 <= j < i ==> !#[trigger] linked(hashes, max, i, j)
}

/// The first photos of all clusters of two or more.
pub open spec fn leaders(hashes: Seq<u64>, max: u32) -> Seq<usize> {
    selected(hashes.len(), |i: int| leads(hashes, max, i))
}

/// How many photos the cluster of each leader has.
pub open spec fn cluster_sizes(hashes: Seq<u64>, max: u32) -> Seq<u64> {
    Seq::new(
        leaders(hashes, max).len(),
        |g: int| cluster(hashes, max, leaders(hashes, max)[g] as int).len() as u64,
    )
}

/// The clusters of two or more photos, the largest first; among clusters of
/// one size the one whose first photo comes first.
pub open spec fn duplicate_groups(hashes: Seq<u64>, max: u32) -> Seq<Seq<usize>> {
    let order = ranked(first_indices(leaders(hashes, max).len()), cluster_sizes(hashes, max));
    Seq::new(
        order.len(),
        |g: int| cluster(hashes, max, leaders(hashes, max)[order[g] as int] as int),
    )
}

/// The members of the cluster of photo `i`.
fn members(roots: &Vec<usize>, i: usize, Ghost(hashes): Ghost<Seq<u64>>, Ghost(max): Ghost<u32>) -> (r:
    Vec<usize>)
    requires
        roots@.len() == hashes.len(),
        i < roots@.len(),
        forall|x: int, y: int|
            0 <= x < roots@.len() && 0 <= y < roots@.len() ==> (#[trigger] roots@[x]
                == #[trigger] roots@[y] <==> linked(hashes, max, x, y)),
    ensures
        r@ == cluster(hashes, max, i as int),
{
    let n: usize = roots.len();
    let mut found: Vec<usize> = Vec::new();
    for j in 0..n
        invariant
            n == roots@.len(),
            n == hashes.len(),
            i < n,
            forall|x: int, y: int|
                0 <= x < roots@.len() && 0 <= y < roots@.len() ==> (#[trigger] roots@[x]
                    == #[trigger] roots@[y] <==> linked(hashes, max, x, y)),
            found@ == selected(j as nat, |k: int| linked(hashes, max, i as int, k)),
    {
        assert(roots@[i as int] == roots@[j as int] <==> linked(hashes, max, i as int, j as int));
        if roots[i] == roots[j] {
            found.push(j);
        }
    }
    found
}

/// Whether no photo before `i` is in its cluster.
fn is_first(roots: &Vec<usize>, i: usize, Ghost(hashes): Ghost<Seq<u64>>, Ghost(max): Ghost<u32>) -> (r: bool)
    requires
        roots@.len() == hashes.len(),
        i < roots@.len(),
        forall|x: int, y: int|
            0 <= x < roots@.len() && 0 <= y < roots@.len() ==> (#[trigger] roots@[x]
                == #[trigger] roots@[y] <==> linked(hashes, max, x, y)),
    ensures
        r == forall|j: int| 0 <= j < i ==> !#[trigger] linked(hashes, max, i as int, j),
{
    for j in 0..i
        invariant
            i < roots@.len(),
            roots@.len() == hashes.len(),
            forall|x: int, y: int|
                0 <= x < roots@.len() && 0 <= y < roots@.len() ==> (#[trigger] roots@[x]
                    == #[trigger] roots@[y] <==> linked(hashes, max, x, y)),
            forall|k: int| 0 <= k < j ==> !#[trigger] linked(hashes, max, i as int, k),
    {
        assert(roots@[i as int] == roots@[j as int] <==> linked(hashes, max, i as int, j as int));
        if roots[i] == roots[j] {
            return false;
        }
    }
    true
}

/// The groups of near-duplicates among photos with these hashes, as positions.
pub fn group_indices(hashes: &Vec<u64>, max_distance: u32) -> (groups: Vec<Vec<usize>>)
    ensures
        groups@.len() == duplicate_groups(hashes@, max_distance).len(),
        forall|g: int|
            0 <= g < groups@.len() ==> #[trigger] groups@[g]@ == duplicate_groups(
                hashes@,
                max_distance,
            )[g],
{
    let roots = representatives(hashes, max_distance);
    let n: usize = hashes.len();
    let mut clusters: Vec<Vec<usize>> = Vec::new();
    let mut sizes: Vec<u64> = Vec::new();
    let ghost mut firsts: Seq<usize> = Seq::empty();
    for i in 0..n
        invariant
            n == hashes@.len(),
            roots@.len() == n,
            forall|x: int, y: int|
                0 <= x < roots@.len() && 0 <= y < roots@.len() ==> (#[trigger] roots@[x]
                    == #[trigger] roots@[y] <==> linked(hashes@, max_distance, x, y)),
            firsts == selected(i as nat, |k: int| leads(hashes@, max_distance, k)),
            clusters@.len() == firsts.len(),
            sizes@.len() == firsts.len(),
            forall|g: int|
                0 <= g < firsts.len() ==> #[trigger] clusters@[g]@ == cluster(
                    hashes@,
                    max_distance,
                    firsts[g] as int,
                ),
            forall|g: int|
                0 <= g < firsts.len() ==> #[trigger] sizes@[g] == cluster(
                    hashes@,
                    max_distance,
                    firsts[g] as int,
                ).len() as u64,
    {
        if is_first(&roots, i, Ghost(hashes@), Ghost(max_distance)) {
            let group = members(&roots, i, Ghost(hashes@), Ghost(max_distance));
            if group.len() > 1 {
                sizes.push(group.len() as u64);
                clusters.push(group);
                proof {
                    assert(leads(hashes@, max_distance, i as int));
                    firsts = firsts.push(i);
                }
            } else {
                assert(!leads(hashes@, max_distance, i as int));
            }
        } else {
            assert(!leads(hashes@, max_distance, i as int));
        }
    }
    assert(firsts == leaders(hashes@, max_distance));
    assert(sizes@ =~= cluster_sizes(hashes@, max_distance));
    let all = indices(clusters.len());
    let order = rank(&all, &sizes);
    let mut groups: Vec<Vec<usize>> = Vec::new();
    for g in 0..order.len()
        invariant
            order@ == ranked(first_indices(firsts.len()), sizes@),
            in_range(order@, clusters@.len()),
            sizes@ == cluster_sizes(hashes@, max_distance),
            firsts == leaders(hashes@, max_distance),
            groups@.len() == g,
            clusters@.len() == firsts.len(),
            forall|k: int|
                0 <= k < firsts.len() ==> #[trigger] clusters@[k]@ == cluster(
                    hashes@,
                    max_distance,
                    firsts[k] as int,
                ),
            forall|k: int|
                0 <= k < g ==> #[trigger] groups@[k]@ == duplicate_groups(hashes@, max_distance)[k],
    {
        let group = clusters[order[g]].clone();
        assert(group@ =~= clusters@[order@[g as int] as int]@);
        groups.push(group);
    }
    groups
}

/// The hashes of a list of photos.
pub open spec fn hashes_of<P>(photos: Seq<(P, u64)>) -> Seq<u64> {
    photos.map_values(|photo: (P, u64)| photo.1)
}

/// Clusters `photos` (path, hash) into groups whose members are all pairwise
/// reachable within `max_distance` Hamming distance of each other (through
/// other members, not just distance to the first member, so a chain of
/// gradually drifting near-duplicates still ends up in one group). Only
/// clusters with two or more members are returned, largest first; unique
/// photos aren't groups.
pub fn group_duplicates<P: Clone>(photos: &[(P, u64)], max_distance: u32) -> (groups: Vec<Vec<P>>)
    ensures
        groups@.len() == duplicate_groups(hashes_of(photos@), max_distance).len(),
        forall|g: int|
            0 <= g < groups@.len() ==> (#[trigger] groups@[g]@).len() == duplicate_groups(
                hashes_of(photos@),
                max_distance,
            )[g].len(),
        forall|g: int, k: int|
            0 <= g < groups@.len() && 0 <= k < groups@[g]@.len() ==> cloned(
                photos@[duplicate_groups(hashes_of(photos@), max_distance)[g][k] as int].0,
                #[trigger] groups@[g]@[k],
            ),
{
    let mut hashes: Vec<u64> = Vec::new();
    for i in 0..photos.len()
        invariant
            hashes@ =~= hashes_of(photos@).take(i as int),
    {
        hashes.push(photos[i].1);
    }
    assert(hashes@ =~= hashes_of(photos@));
    let found = group_indices(&hashes, max_distance);
    let ghost wanted = duplicate_groups(hashes_of(photos@), max_distance);
    proof {
        groups_are_sound(hashes@, max_distance);
    }
    let mut groups: Vec<Vec<P>> = Vec::new();
    for g in 0..found.len()
        invariant
            found@.len() == wanted.len(),
            forall|h: int| 0 <= h < found@.len() ==> #[trigger] found@[h]@ == wanted[h],
            forall|h: int, k: int|
                0 <= h < wanted.len() && 0 <= k < wanted[h].len() ==> #[trigger] wanted[h][k]
                    < photos@.len(),
            groups@.len() == g,
            forall|h: int| 0 <= h < g ==> (#[trigger] groups@[h]@).len() == wanted[h].len(),
            forall|h: int, k: int|
                0 <= h < g && 0 <= k < groups@[h]@.len() ==> cloned(
                    photos@[wanted[h][k] as int].0,
                    #[trigger] groups@[h]@[k],
                ),
    {
        let mut group: Vec<P> = Vec::new();
        assert(found@[g as int]@ == wanted[g as int]);
        let count: usize = found[g].len();
        for k in 0..count
            invariant
                count == found@[g as int]@.len(),
                g < found@.len(),
                found@.len() == wanted.len(),
                found@[g as int]@ == wanted[g as int],
                forall|h: int, m: int|
                    0 <= h < wanted.len() && 0 <= m < wanted[h].len() ==> #[trigger] wanted[h][m]
                        < photos@.len(),
                group@.len() == k,
                forall|m: int|
                    0 <= m < k ==> cloned(
                        photos@[wanted[g as int][m] as int].0,
                        #[trigger] group@[m],
                    ),
        {
            let i: usize = found[g][k];
            assert(i == wanted[g as int][k as int]);
            group.push(photos[i].0.clone());
        }
        groups.push(group);
    }
    groups
}

/// What the groups are: each has two or more members, all of them photos,
/// every two of them linked; and groups come by falling size.
pub proof fn groups_are_sound(hashes: Seq<u64>, max: u32)
    requires
        hashes.len() <= usize::MAX,
    ensures
        forall|g: int, k: int|
            0 <= g < duplicate_groups(hashes, max).len() && 0 <= k < duplicate_groups(
                hashes,
                max,
            )[g].len() ==> #[trigger] duplicate_groups(hashes, max)[g][k] < hashes.len(),
        forall|g: int|
            0 <= g < duplicate_groups(hashes, max).len() ==> (#[trigger] duplicate_groups(
                hashes,
                max,
            )[g]).len() >= 2,
        forall|g: int, a: int, b: int|
            #![trigger duplicate_groups(hashes, max)[g][a], duplicate_groups(hashes, max)[g][b]]
            0 <= g < duplicate_groups(hashes, max).len() && 0 <= a < duplicate_groups(
                hashes,
                max,
            )[g].len() && 0 <= b < duplicate_groups(hashes, max)[g].len() ==> linked(
                hashes,
                max,
                duplicate_groups(hashes, max)[g][a] as int,
                duplicate_groups(hashes, max)[g][b] as int,
            ),
        forall|g: int, h: int|
            0 <= g <= h < duplicate_groups(hashes, max).len() ==> (#[trigger] duplicate_groups(
                hashes,
                max,
            )[g]).len() >= (#[trigger] duplicate_groups(hashes, max)[h]).len(),
{
    let groups = duplicate_groups(hashes, max);
    let lead = leaders(hashes, max);
    let sizes = cluster_sizes(hashes, max);
    let order = ranked(first_indices(lead.len()), sizes);
    selection_is_exact(hashes.len(), |i: int| leads(hashes, max, i));
    ranking_keeps_members(first_indices(lead.len()), sizes);
    ranking_falls(first_indices(lead.len()), sizes);
    assert(in_range(first_indices(lead.len()), lead.len()));
    assert(in_range(order, lead.len()));
    assert forall|g: int| 0 <= g < groups.len() implies {
        &&& (#[trigger] groups[g]).len() >= 2
        &&& groups[g] == cluster(hashes, max, lead[order[g] as int] as int)
        &&& lead[order[g] as int] < hashes.len()
        &&& groups[g].len() <= hashes.len()
        &&& sizes[order[g] as int] == groups[g].len()
    } by {
        assert(order[g] < lead.len());
        let l = lead[order[g] as int];
        assert(leads(hashes, max, l as int));
        selection_is_exact(hashes.len(), |j: int| linked(hashes, max, l as int, j));
    }
    assert forall|g: int, k: int|
        0 <= g < groups.len() && 0 <= k < groups[g].len() implies #[trigger] groups[g][k]
        < hashes.len() by {
        let l = lead[order[g] as int];
        selection_is_exact(hashes.len(), |j: int| linked(hashes, max, l as int, j));
    }
    assert forall|g: int, a: int, b: int|
        #![trigger groups[g][a], groups[g][b]]
        0 <= g < groups.len() && 0 <= a < groups[g].len() && 0 <= b < groups[g].len() implies linked(
        hashes,
        max,
        groups[g][a] as int,
        groups[g][b] as int,
    ) by {
        let l = lead[order[g] as int];
        let cond = |j: int| linked(hashes, max, l as int, j);
        selection_is_exact(hashes.len(), cond);
        assert(cond(groups[g][a] as int));
        assert(cond(groups[g][b] as int));
        linked_is_an_equivalence(hashes, max, l as int, groups[g][a] as int, 0);
        linked_is_an_equivalence(
            hashes,
            max,
            groups[g][a] as int,
            l as int,
            groups[g][b] as int,
        );
    }
    assert forall|g: int, h: int| 0 <= g <= h < groups.len() implies (#[trigger] groups[g]).len()
        >= (#[trigger] groups[h]).len() by {
        assert(sizes[order[g] as int] >= sizes[order[h] as int]);
    }
}

/// The first photo linked to photo `i`.
proof fn first_linked(hashes: Seq<u64>, max: u32, i: int, from: int) -> (l: int)
    requires
        0 <= from <= i < hashes.len(),
        linked(hashes, max, i, from),
    ensures
        0 <= l <= from,
        linked(hashes, max, i, l),
        forall|j: int| 0 <= j < l ==> !#[trigger] linked(hashes, max, l, j),
    decreases from,
{
    if exists|j: int| 0 <= j < from && #[trigger] linked(hashes, max, from, j) {
        let j = choose|j: int| 0 <= j < from && #[trigger] linked(hashes, max, from, j);
        linked_is_an_equivalence(hashes, max, i, from, j);
        first_linked(hashes, max, i, j)
    } else {
        from
    }
}

/// Two different photos that are linked stand together in one of the groups;
/// so, in particular, do any two photos within the distance of each other.
pub proof fn linked_photos_share_a_group(hashes: Seq<u64>, max: u32, i: usize, j: usize)
    requires
        hashes.len() <= usize::MAX,
        i < hashes.len(),
        j < hashes.len(),
        i != j,
        linked(hashes, max, i as int, j as int) || near(hashes, max, i as int, j as int),
    ensures
        exists|g: int|
            0 <= g < duplicate_groups(hashes, max).len() && (#[trigger] duplicate_groups(
                hashes,
                max,
            )[g]).contains(i) && duplicate_groups(hashes, max)[g].contains(j),
{
    if near(hashes, max, i as int, j as int) {
        near_is_linked(hashes, max, i as int, j as int);
    }
    linked_is_an_equivalence(hashes, max, i as int, i as int, i as int);
    let l = first_linked(hashes, max, i as int, i as int);
    linked_is_an_equivalence(hashes, max, i as int, l, l);
    linked_is_an_equivalence(hashes, max, l, i as int, j as int);
    let group = cluster(hashes, max, l);
    let cond = |k: int| linked(hashes, max, l, k);
    selection_is_exact(hashes.len(), cond);
    assert(cond(i as int) && cond(j as int));
    assert(group.contains(i) && group.contains(j));
    let a = choose|a: int| 0 <= a < group.len() && group[a] == i;
    let b = choose|b: int| 0 <= b < group.len() && group[b] == j;
    assert(group.len() > 1);
    let lead = leaders(hashes, max);
    let is_lead = |k: int| leads(hashes, max, k);
    selection_is_exact(hashes.len(), is_lead);
    assert(is_lead(l));
    assert(lead.contains(l as usize));
    let p = choose|p: int| 0 <= p < lead.len() && lead[p] == l;
    let sizes = cluster_sizes(hashes, max);
    let all = first_indices(lead.len());
    ranking_keeps_members(all, sizes);
    assert(all[p] == p);
    assert(all.contains(p as usize));
    let order = ranked(all, sizes);
    assert(order.contains(p as usize));
    let g = choose|g: int| 0 <= g < order.len() && order[g] == p;
    assert(duplicate_groups(hashes, max)[g] == group);
}

/// No photo stands in two groups.
pub proof fn groups_do_not_overlap(hashes: Seq<u64>, max: u32, g: int, h: int, v: usize)
    requires
        hashes.len() <= usize::MAX,
        0 <= g < duplicate_groups(hashes, max).len(),
        0 <= h < duplicate_groups(hashes, max).len(),
        duplicate_groups(hashes, max)[g].contains(v),
        duplicate_groups(hashes, max)[h].contains(v),
    ensures
        g == h,
{
    let lead = leaders(hashes, max);
    let sizes = cluster_sizes(hashes, max);
    let all = first_indices(lead.len());
    let order = ranked(all, sizes);
    ranking_keeps_members(all, sizes);
    ranking_is_a_rearrangement(all, sizes);
    assert(in_range(all, lead.len()));
    assert(in_range(order, lead.len()));
    let is_lead = |k: int| leads(hashes, max, k);
    selection_is_exact(hashes.len(), is_lead);
    assert(order[g] < lead.len() && order[h] < lead.len());
    let a = lead[order[g] as int] as int;
    let b = lead[order[h] as int] as int;
    let from_a = |k: int| linked(hashes, max, a, k);
    let from_b = |k: int| linked(hashes, max, b, k);
    selection_is_exact(hashes.len(), from_a);
    selection_is_exact(hashes.len(), from_b);
    assert(from_a(v as int) && from_b(v as int));
    linked_is_an_equivalence(hashes, max, a, v as int, b);
    linked_is_an_equivalence(hashes, max, b, v as int, a);
    assert(is_lead(a) && is_lead(b));
    assert(a == b) by {
        if a < b {
            assert(!linked(hashes, max, b, a));
        } else if b < a {
            assert(!linked(hashes, max, a, b));
        }
    }
    assert(order[g] == order[h]) by {
        if order[g] < order[h] {
            assert(lead[order[g] as int] < lead[order[h] as int]);
        } else if order[h] < order[g] {
            assert(lead[order[h] as int] < lead[order[g] as int]);
        }
    }
    assert(all.no_duplicates());
    all.lemma_multiset_has_no_duplicates();
    assert(forall|x: usize| order.to_multiset().contains(x) ==> order.to_multiset().count(x) == 1);
    order.lemma_multiset_has_no_duplicates_conv();
    assert(order.no_duplicates());
}

/// A larger distance never parts linked photos: groups only merge and grow.
pub proof fn larger_distance_keeps_links(hashes: Seq<u64>, max: u32, larger: u32, i: int, j: int)
    requires
        max <= larger,
        linked(hashes, max, i, j),
    ensures
        linked(hashes, larger, i, j),
{
    let chain = choose|c: Seq<int>| is_chain(hashes, max, c, i, j);
    assert(is_chain(hashes, larger, chain, i, j)) by {
        assert forall|k: int| 0 <= k < chain.len() - 1 implies #[trigger] near(
            hashes,
            larger,
            chain[k],
            chain[k + 1],
        ) by {
            assert(near(hashes, max, chain[k], chain[k + 1]));
        }
    }
}

/// What the bits of a difference hash say. Bit `8 * y + x` is set exactly if
/// the pixel in column `x` of row `y` is brighter than its right neighbour, and
/// depends on nothing else: two pictures that agree in these two pixels agree
/// in this bit.
pub proof fn bits_compare_neighbours(p: Picture, q: Picture, a: u64, b: u64, x: int, y: int)
    requires
        p.width == 9,
        q.width == 9,
        is_difference_hash(p, a),
        is_difference_hash(q, b),
        0 <= x < 8,
        0 <= y < 8,
    ensures
        (a >> (8 * y + x) as u64) & 1 == 1 <==> p.data[9 * y + x] > p.data[9 * y + x + 1],
        p.data[9 * y + x] == q.data[9 * y + x] && p.data[9 * y + x + 1] == q.data[9 * y + x + 1]
            ==> ((a >> (8 * y + x) as u64) & 1 == 1 <==> (b >> (8 * y + x) as u64) & 1 == 1),
{
    let k = (8 * y + x) as u64;
    assert(has_bit(a, k) == falls_to_the_right(p, k as int));
    assert(has_bit(b, k) == falls_to_the_right(q, k as int));
    assert(k as int % 8 == x && k as int / 8 == y);
    assert(y * 9 == 9 * y);
}

proof fn ones_of_flip(x: u64, k: u64)
    requires
        k < 64,
    ensures
        (x >> k) & 1 == 0 ==> ones(x ^ (1u64 << k)) == ones(x) + 1,
        (x >> k) & 1 != 0 ==> ones(x ^ (1u64 << k)) == ones(x) - 1,
    decreases k,
{
    let y = x ^ (1u64 << k);
    if k == 0 {
        assert((x ^ (1u64 << 0u64)) / 2 == x / 2 && (x >> 0u64) & 1 == x % 2 && (x ^ (1u64
            << 0u64)) % 2 == 1 - x % 2) by (bit_vector);
    } else {
        let j = (k - 1) as u64;
        assert(0 < k < 64 && j == k - 1 ==> (x ^ (1u64 << k)) / 2 == (x / 2) ^ (1u64 << j) && (x
            >> k) & 1 == ((x / 2) >> j) & 1 && (x ^ (1u64 << k)) % 2 == x % 2) by (bit_vector);
        ones_of_flip(x / 2, j);
    }
    assert(ones(x) == x % 2 + ones(x / 2)) by {
        reveal_with_fuel(ones, 2);
    }
    assert(ones(y) == y % 2 + ones(y / 2)) by {
        reveal_with_fuel(ones, 2);
    }
}

/// Each bit counts once in the distance: flipping a bit in which two hashes
/// agree takes them one further apart, flipping one in which they differ
/// brings them one closer.
pub proof fn each_bit_counts_once(a: u64, b: u64, k: u64)
    requires
        k < 64,
    ensures
        (a >> k) & 1 == (b >> k) & 1 ==> distance(a, b ^ (1u64 << k)) == distance(a, b) + 1,
        (a >> k) & 1 != (b >> k) & 1 ==> distance(a, b ^ (1u64 << k)) == distance(a, b) - 1,
{
    ones_of_flip(a ^ b, k);
    assert(a ^ (b ^ (1u64 << k)) == (a ^ b) ^ (1u64 << k) && (((a ^ b) >> k) & 1 == 0 <==> (a >> k)
        & 1 == (b >> k) & 1)) by (bit_vector);
}

/// Two photos whose hashes differ in no more bits than the limit stand together
/// in one of the groups.
pub proof fn close_photos_share_a_group(hashes: Seq<u64>, max: u32, i: usize, j: usize)
    requires
        hashes.len() <= usize::MAX,
        i < hashes.len(),
        j < hashes.len(),
        i != j,
        distance(hashes[i as int], hashes[j as int]) <= max,
    ensures
        exists|g: int|
            0 <= g < duplicate_groups(hashes, max).len() && (#[trigger] duplicate_groups(
                hashes,
                max,
            )[g]).contains(i) && duplicate_groups(hashes, max)[g].contains(j),
{
    linked_photos_share_a_group(hashes, max, i, j);
}

/// The first step of a chain away from its start: a different photo that is
/// near and linked.
proof fn step_away(hashes: Seq<u64>, max: u32, chain: Seq<int>, i: int, j: int) -> (next: int)
    requires
        is_chain(hashes, max, chain, i, j),
        i != j,
    ensures
        0 <= next < hashes.len(),
        next != i,
        near(hashes, max, i, next),
    decreases chain.len(),
{
    assert(chain[0] == i);
    assert(chain.len() > 1);
    assert(near(hashes, max, chain[0int], chain[0int + 1]));
    if chain[1] != i {
        chain[1]
    } else {
        let rest = chain.skip(1);
        assert(is_chain(hashes, max, rest, i, j)) by {
            assert forall|k: int| 0 <= k < rest.len() - 1 implies #[trigger] near(
                hashes,
                max,
                rest[k],
                rest[k + 1],
            ) by {
                assert(near(hashes, max, chain[k + 1], chain[k + 1 + 1]));
            }
        }
        step_away(hashes, max, rest, i, j)
    }
}

/// Every member of a group has another member of the group within the limit;
/// so a photo that is close to no other is in no group.
pub proof fn members_have_a_close_member(hashes: Seq<u64>, max: u32, g: int, a: usize)
    requires
        hashes.len() <= usize::MAX,
        0 <= g < duplicate_groups(hashes, max).len(),
        duplicate_groups(hashes, max)[g].contains(a),
    ensures
        a < hashes.len(),
        exists|b: usize|
            #[trigger] duplicate_groups(hashes, max)[g].contains(b) && b != a && b < hashes.len()
                && distance(hashes[a as int], hashes[b as int]) <= max,
{
    let group = duplicate_groups(hashes, max)[g];
    groups_are_sound(hashes, max);
    members_rise(hashes, max, g);
    let k = choose|k: int| 0 <= k < group.len() && group[k] == a;
    let l = if k == 0 {
        1
    } else {
        0
    };
    let c = group[l];
    assert(a != c) by {
        assert(group[0] < group[1]);
        if k > 1 {
            assert(group[0] < group[k]);
        }
    }
    assert(group[k] < hashes.len() && group[l] < hashes.len());
    assert(linked(hashes, max, group[k] as int, group[l] as int));
    let chain = choose|s: Seq<int>| is_chain(hashes, max, s, a as int, c as int);
    let b = step_away(hashes, max, chain, a as int, c as int);
    linked_photos_share_a_group(hashes, max, a, b as usize);
    let h = choose|h: int|
        0 <= h < duplicate_groups(hashes, max).len() && (#[trigger] duplicate_groups(
            hashes,
            max,
        )[h]).contains(a) && duplicate_groups(hashes, max)[h].contains(b as usize);
    groups_do_not_overlap(hashes, max, g, h, a);
    assert(group.contains(b as usize));
}

/// The members of a group stand in the order in which the photos came.
pub proof fn members_rise(hashes: Seq<u64>, max: u32, g: int)
    requires
        hashes.len() <= usize::MAX,
        0 <= g < duplicate_groups(hashes, max).len(),
    ensures
        forall|a: int, b: int|
            0 <= a < b < duplicate_groups(hashes, max)[g].len() ==> #[trigger] duplicate_groups(
                hashes,
                max,
            )[g][a] < #[trigger] duplicate_groups(hashes, max)[g][b],
{
    let lead = leaders(hashes, max);
    let order = ranked(first_indices(lead.len()), cluster_sizes(hashes, max));
    let l = lead[order[g] as int] as int;
    selection_is_exact(hashes.len(), |j: int| linked(hashes, max, l, j));
}

/// The picture that a photo is hashed by has nine columns and eight rows, and
/// shows the luminances of the photo resampled to that size.
pub proof fn thumbprints_are_nine_by_eight(c: ColorPicture, i: int)
    requires
        0 <= i < 72,
    ensures
        ({
            let p = thumbprint(c);
            let small = triangle_resized(c.data, c.width as u32, c.height as u32, 9, 8);
            &&& p.width == 9
            &&& p.height == 8
            &&& p.data.len() == 72
            &&& p.data[i] == luma(small[3 * i], small[3 * i + 1], small[3 * i + 2])
        }),
{
    assert(9int * 8 == 72);
}

/// Each photo is compared by the hash it came with.
pub proof fn photos_keep_their_hashes<P>(photos: Seq<(P, u64)>, i: int)
    requires
        0 <= i < photos.len(),
    ensures
        hashes_of(photos).len() == photos.len(),
        hashes_of(photos)[i] == photos[i].1,
{
}

/// A group starts with its leader.
proof fn groups_start_with_their_leader(hashes: Seq<u64>, max: u32, g: int)
    requires
        hashes.len() <= usize::MAX,
        0 <= g < duplicate_groups(hashes, max).len(),
    ensures
        ({
            let order = ranked(
                first_indices(leaders(hashes, max).len()),
                cluster_sizes(hashes, max),
            );
            &&& order[g] < leaders(hashes, max).len()
            &&& duplicate_groups(hashes, max)[g].len() >= 2
            &&& duplicate_groups(hashes, max)[g][0] == leaders(hashes, max)[order[g] as int]
            &&& cluster_sizes(hashes, max)[order[g] as int] == duplicate_groups(
                hashes,
                max,
            )[g].len()
        }),
{
    let lead = leaders(hashes, max);
    let sizes = cluster_sizes(hashes, max);
    let order = ranked(first_indices(lead.len()), sizes);
    let group = duplicate_groups(hashes, max)[g];
    groups_are_sound(hashes, max);
    ranking_keeps_members(first_indices(lead.len()), sizes);
    assert(in_range(first_indices(lead.len()), lead.len()));
    assert(in_range(order, lead.len()));
    selection_is_exact(hashes.len(), |i: int| leads(hashes, max, i));
    let l = lead[order[g] as int];
    assert(leads(hashes, max, l as int));
    let own = |j: int| linked(hashes, max, l as int, j);
    selection_is_exact(hashes.len(), own);
    linked_is_an_equivalence(hashes, max, l as int, l as int, l as int);
    assert(own(l as int));
    assert(group.contains(l));
    let k = choose|k: int| 0 <= k < group.len() && group[k] == l;
    assert(own(group[0] as int));
    if k > 0 {
        assert(group[0] < group[k]);
        assert(!linked(hashes, max, l as int, group[0] as int));
    }
}

/// Groups of one size come in the order of their first photos.
pub proof fn equal_groups_keep_their_order(hashes: Seq<u64>, max: u32, g: int, h: int)
    requires
        hashes.len() <= usize::MAX,
        0 <= g < h < duplicate_groups(hashes, max).len(),
        duplicate_groups(hashes, max)[g].len() == duplicate_groups(hashes, max)[h].len(),
    ensures
        duplicate_groups(hashes, max)[g][0] < duplicate_groups(hashes, max)[h][0],
{
    let lead = leaders(hashes, max);
    let sizes = cluster_sizes(hashes, max);
    let all = first_indices(lead.len());
    groups_start_with_their_leader(hashes, max, g);
    groups_start_with_their_leader(hashes, max, h);
    ranking_is_stable(all, sizes, g, h);
    let order = ranked(all, sizes);
    let (a, b) = choose|a: int, b: int|
        0 <= a < b < all.len() && #[trigger] all[a] == order[g] && #[trigger] all[b] == order[h];
    selection_is_exact(hashes.len(), |i: int| leads(hashes, max, i));
    assert(lead.len() <= usize::MAX);
    assert(all[a] == a && all[b] == b);
    assert(lead[a] < lead[b]);
}

} // verus!
