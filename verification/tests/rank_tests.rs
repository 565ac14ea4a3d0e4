use gridwords::grid::Point;
use gridwords::rank::{rank, top_n, TOP_COUNT};

fn path_of(len: i16, tag: i16) -> Vec<Point> {
    (0..len).map(|i| Point { x: i, y: tag }).collect()
}

#[test]
fn ranking_is_by_length_descending_and_stable() {
    let p5 = path_of(5, 0);
    let p3_first = path_of(3, 1);
    let p3_second = path_of(3, 2);
    let p4 = path_of(4, 3);
    let ranked = rank(vec![p5.clone(), p3_first.clone(), p3_second.clone(), p4.clone()]);
    let lengths: Vec<usize> = ranked.iter().map(|p| p.len()).collect();
    assert_eq!(lengths, [5, 4, 3, 3]);
    assert_eq!(ranked[0], p5);
    assert_eq!(ranked[1], p4);
    // The two length-3 paths keep their original relative order.
    assert_eq!(ranked[2], p3_first);
    assert_eq!(ranked[3], p3_second);
}

#[test]
fn ranking_an_empty_collection() {
    let ranked = rank(Vec::new());
    assert!(ranked.is_empty());
}

#[test]
fn top_n_truncates_the_ranked_list() {
    let ranked = rank(vec![path_of(2, 0), path_of(6, 1), path_of(4, 2)]);
    let top = top_n(&ranked, 2);
    assert_eq!(top.len(), 2);
    assert_eq!(top[0], path_of(6, 1));
    assert_eq!(top[1], path_of(4, 2));
}

#[test]
fn top_n_with_fewer_results_keeps_them_all() {
    assert_eq!(TOP_COUNT, 9);
    let ranked = rank(vec![path_of(1, 0), path_of(2, 1)]);
    let top = top_n(&ranked, TOP_COUNT);
    assert_eq!(top.len(), 2);
    assert_eq!(top[0], path_of(2, 1));
    assert_eq!(top[1], path_of(1, 0));
}
