use rcpsp_wcnf::floyd_warshall::{
    floyd_warshall_fast, segment_to_distance_vec, segment_to_negative_distance_vec,
    segments_dist_longest_vec, segments_dist_shortest_vec, UNREACHABLE,
};
use rcpsp_wcnf::segment::Segment;

const INF: i32 = UNREACHABLE;

fn chain() -> Vec<Segment> {
    // 0 <- 1 <- 2, and 3 depends on both 1 and 2; spans 2, 3, 4, 5.
    vec![
        Segment::new(2, 2, vec![], 0, 1, vec![]),
        Segment::new(2, 3, vec![0], 1, 2, vec![]),
        Segment::new(2, 4, vec![1], 2, 3, vec![]),
        Segment::new(2, 5, vec![1, 2], 3, 4, vec![]),
    ]
}

#[test]
fn sentinel_is_a_third_of_the_largest_i32() {
    assert_eq!(UNREACHABLE, i32::MAX / 3);
}

#[test]
fn shortest_paths_of_a_small_matrix() {
    let mut dist = vec![vec![0, 3, INF], vec![INF, 0, 2], vec![1, INF, 0]];
    floyd_warshall_fast(&mut dist);
    assert_eq!(dist, vec![vec![0, 3, 5], vec![3, 0, 2], vec![1, 4, 0]]);
}

#[test]
fn relaxed_matrix_is_a_metric() {
    let mut dist = vec![
        vec![0, 7, INF, 2],
        vec![INF, 0, 1, INF],
        vec![4, INF, 0, INF],
        vec![INF, 3, 9, 0],
    ];
    floyd_warshall_fast(&mut dist);
    let n = dist.len();
    for i in 0..n {
        assert_eq!(dist[i][i], 0);
        for j in 0..n {
            for k in 0..n {
                assert!(dist[i][j] <= dist[i][k] + dist[k][j]);
            }
        }
    }
    assert_eq!(dist[0], vec![0, 5, 6, 2]);
    assert_eq!(dist[1], vec![5, 0, 1, 7]);
}

#[test]
fn unreachable_pairs_keep_the_sentinel() {
    let mut dist = vec![vec![0, INF], vec![5, 0]];
    floyd_warshall_fast(&mut dist);
    assert_eq!(dist, vec![vec![0, INF], vec![5, 0]]);
}

#[test]
fn columns_right_of_the_block_are_untouched() {
    let mut dist = vec![vec![0, 4, 99], vec![1, 0, -7]];
    floyd_warshall_fast(&mut dist);
    assert_eq!(dist, vec![vec![0, 4, 99], vec![1, 0, -7]]);
}

#[test]
fn negative_weights_give_longest_chains() {
    let mut dist = vec![vec![0, INF, INF], vec![-2, 0, INF], vec![-1, -3, 0]];
    floyd_warshall_fast(&mut dist);
    assert_eq!(dist[2][0], -5);
    assert_eq!(dist[1][0], -2);
    assert_eq!(dist[0][0], 0);
}

#[test]
fn empty_matrix_stays_empty() {
    let mut dist: Vec<Vec<i32>> = Vec::new();
    floyd_warshall_fast(&mut dist);
    assert!(dist.is_empty());
}

#[test]
fn distance_row_holds_spans_of_predecessors() {
    let arena = chain();
    assert_eq!(segment_to_distance_vec(&arena[3], &arena), vec![INF, 3, 4, 0]);
    assert_eq!(segment_to_distance_vec(&arena[0], &arena), vec![0, INF, INF, INF]);
}

#[test]
fn negative_distance_row_negates_the_spans() {
    let arena = chain();
    assert_eq!(segment_to_negative_distance_vec(&arena[3], &arena), vec![INF, -3, -4, 0]);
    assert_eq!(segment_to_negative_distance_vec(&arena[1], &arena), vec![-2, 0, INF, INF]);
}

#[test]
fn shortest_chains_over_segments() {
    let arena = chain();
    let dist = segments_dist_shortest_vec(&arena);
    assert_eq!(dist[0], vec![0, INF, INF, INF]);
    assert_eq!(dist[1], vec![2, 0, INF, INF]);
    assert_eq!(dist[2], vec![5, 3, 0, INF]);
    assert_eq!(dist[3], vec![5, 3, 4, 0]);
}

#[test]
fn longest_chains_over_segments() {
    let arena = chain();
    let dist = segments_dist_longest_vec(&arena).unwrap();
    assert_eq!(dist[1][0], -2);
    assert_eq!(dist[2][0], -5);
    assert_eq!(dist[3][0], -9);
    assert_eq!(dist[3][1], -7);
    assert_eq!(dist[3][2], -4);
}

#[test]
fn longest_chains_overflow_on_a_heavy_cycle() {
    let arena = vec![
        Segment::new(2, 0, vec![], 0, 1, vec![]),
        Segment::new(2, 715_827_882, vec![2], 1, 1, vec![]),
        Segment::new(2, 715_827_882, vec![3], 2, 1, vec![]),
        Segment::new(2, 715_827_882, vec![1], 3, 1, vec![]),
    ];
    assert_eq!(segments_dist_longest_vec(&arena), None);
}
