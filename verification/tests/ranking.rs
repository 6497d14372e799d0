use photo2cull::pipeline::funnel;
use photo2cull::rank::{last_best, rank};

#[test]
fn ranking_falls_and_keeps_ties_in_order() {
    assert_eq!(rank(&vec![0, 1, 2, 3, 4], &vec![5, 9, 5, 1, 9]), vec![1, 4, 0, 2, 3]);
    assert_eq!(rank(&vec![2, 0], &vec![7, 0, 7]), vec![2, 0]);
    assert_eq!(rank(&vec![], &vec![1]), Vec::<usize>::new());
}

#[test]
fn the_last_of_the_best_wins() {
    assert_eq!(last_best(&vec![0, 1, 2], &vec![3, 8, 8]), Some(2));
    assert_eq!(last_best(&vec![1, 0], &vec![8, 8]), Some(0));
    assert_eq!(last_best(&vec![], &vec![]), None);
}

#[test]
fn the_funnel_narrows() {
    let dropped = vec![false, true, false, false, false];
    let hashes = vec![0, 0, 0, 0xffff, 0xffff];
    let keys = vec![4, 9, 5, 7, 7];
    let r = funnel(&dropped, &hashes, &keys, 2, 10);
    assert_eq!((r.total, r.after_technical, r.after_dedupe), (5, 4, 2));
    assert_eq!(r.shortlist, vec![4, 2]);
    assert_eq!(funnel(&dropped, &hashes, &keys, 2, 1).shortlist, vec![4]);
    assert_eq!(funnel(&dropped, &hashes, &keys, 2, 0).shortlist, Vec::<usize>::new());
    let nothing = funnel(&vec![], &vec![], &vec![], 6, 150);
    assert_eq!((nothing.total, nothing.shortlist.len()), (0, 0));
}
