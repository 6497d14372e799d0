use std::path::PathBuf;

use photo2cull::dedupe::{
    dhash, dhash_gray, group_duplicates, group_indices, hamming_distance,
};
use photo2cull::raster::{GrayImage, RgbImage};

#[test]
fn hamming_distance_counts_differing_bits() {
    assert_eq!(hamming_distance(0b0000, 0b0000), 0);
    assert_eq!(hamming_distance(0b0000, 0b1111), 4);
    assert_eq!(hamming_distance(u64::MAX, 0), 64);
}

#[test]
fn groups_close_hashes_and_excludes_singletons() {
    let photos = vec![
        (PathBuf::from("a"), 0b0000_0000u64),
        (PathBuf::from("b"), 0b0000_0001u64), // distance 1 from a
        (PathBuf::from("c"), 0b1111_1111u64), // distance 8 from a -- excluded
    ];
    let groups = group_duplicates(&photos, 2);
    assert_eq!(groups.len(), 1);
    assert_eq!(groups[0].len(), 2);
}

#[test]
fn chains_transitively_through_union_find() {
    // a-b close, b-c close, but a-c alone would exceed max_distance --
    // should still all land in one group via the b bridge.
    let photos = vec![
        (PathBuf::from("a"), 0b0000_0000u64),
        (PathBuf::from("b"), 0b0000_0011u64), // distance 2 from a
        (PathBuf::from("c"), 0b0000_1111u64), // distance 2 from b, distance 4 from a
    ];
    let groups = group_duplicates(&photos, 2);
    assert_eq!(groups.len(), 1);
    assert_eq!(groups[0].len(), 3);
}

#[test]
fn distances_obey_the_triangle() {
    let hashes = [0u64, 1, 0xff, 0xf0f0, u64::MAX, 0x1234_5678_9abc_def0];
    for a in hashes {
        assert_eq!(hamming_distance(a, a), 0);
        for b in hashes {
            assert_eq!(hamming_distance(a, b), hamming_distance(b, a));
            for c in hashes {
                assert!(
                    hamming_distance(a, c) <= hamming_distance(a, b) + hamming_distance(b, c)
                );
            }
        }
    }
}

#[test]
fn larger_groups_come_first() {
    let hashes = vec![0, 1, 0xff00, 0xff01, 0xff03, 0xffff_0000_0000_0000];
    assert_eq!(group_indices(&hashes, 1), vec![vec![2, 3, 4], vec![0, 1]]);
    // A larger distance keeps what was linked.
    assert_eq!(group_indices(&hashes, 8), vec![vec![0, 1, 2, 3, 4]]);
    assert_eq!(group_indices(&hashes, 0), Vec::<Vec<usize>>::new());
    assert_eq!(group_indices(&vec![], 64), Vec::<Vec<usize>>::new());
    // Equal hashes are duplicates at distance zero.
    assert_eq!(group_indices(&vec![5, 5], 0), vec![vec![0, 1]]);
}

#[test]
fn groups_hold_the_photos_themselves() {
    let photos = vec![("x", 0u64), ("y", 0xffff), ("z", 1)];
    assert_eq!(group_duplicates(&photos, 3), vec![vec!["x", "z"]]);
}

#[test]
fn the_hash_compares_neighbours() {
    // Falling to the right everywhere: all bits set.
    let falling = (0..8).flat_map(|_| (0..9u8).map(|x| 200 - 10 * x)).collect();
    assert_eq!(dhash_gray(&GrayImage::from_raw(9, 8, falling).unwrap()), u64::MAX);
    let rising = (0..8).flat_map(|_| (0..9u8).map(|x| 10 * x)).collect();
    assert_eq!(dhash_gray(&GrayImage::from_raw(9, 8, rising).unwrap()), 0);
    // One falling step in the top left corner.
    let mut data = vec![50u8; 72];
    data[0] = 60;
    let hash = dhash_gray(&GrayImage::from_raw(9, 8, data).unwrap());
    assert_eq!(hash.count_ones(), 1);
}

#[test]
fn similar_pictures_have_close_hashes() {
    let picture = |lift: u8| {
        let mut data = Vec::new();
        for y in 0..60u32 {
            for x in 0..90u32 {
                let v = (x * 2 + (x / 20) * (y / 10) * 3) as u8 / 2 + lift;
                data.extend_from_slice(&[v, v, v]);
            }
        }
        RgbImage::from_raw(90, 60, data).unwrap()
    };
    let mirrored = {
        let p = picture(0);
        let mut data = Vec::new();
        for row in p.data.chunks(270) {
            for px in row.chunks(3).rev() {
                data.extend_from_slice(px);
            }
        }
        RgbImage::from_raw(90, 60, data).unwrap()
    };
    let a = dhash(&picture(0));
    assert!(hamming_distance(a, dhash(&picture(3))) <= 6);
    assert!(hamming_distance(a, dhash(&mirrored)) > 32);
}
