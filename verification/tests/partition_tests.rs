use collage_maker::partition::{
    best_partition, candidate_partitions, first_min_index, optimal_partition, partition_dp,
    MAX_ROWS, UNREACHABLE,
};
use collage_maker::rows::reconstruct;

/// Group cost table from integer weights: `sums[m][i]` is the sum of `w[m..i]`.
fn sums_of(w: &[u64]) -> Vec<Vec<u64>> {
    let n = w.len();
    let mut prefix = vec![0u64; n + 1];
    for i in 0..n {
        prefix[i + 1] = prefix[i] + w[i];
    }
    let mut t = vec![vec![0u64; n + 1]; n + 1];
    for m in 0..=n {
        for i in m..=n {
            t[m][i] = prefix[i] - prefix[m];
        }
    }
    t
}

fn max_cost(sums: &[Vec<u64>], rows: &[Vec<usize>]) -> u64 {
    rows.iter()
        .map(|r| sums[r[0]][r[r.len() - 1] + 1])
        .max()
        .unwrap_or(0)
}

/// Best largest-group cost over every split of `n` items into `k` groups.
fn brute_force(sums: &[Vec<u64>], n: usize, k: usize) -> u64 {
    let mut best = u64::MAX;
    for mask in 0u32..(1u32 << (n - 1)) {
        if mask.count_ones() as usize != k - 1 {
            continue;
        }
        let mut start = 0;
        let mut worst = 0;
        for i in 1..=n {
            if i == n || mask & (1 << (i - 1)) != 0 {
                worst = worst.max(sums[start][i]);
                start = i;
            }
        }
        best = best.min(worst);
    }
    best
}

fn flatten(rows: &[Vec<usize>]) -> Vec<usize> {
    rows.iter().flat_map(|r| r.iter().copied()).collect()
}

#[test]
fn dp_finds_balanced_split() {
    let sums = sums_of(&[3, 1, 2, 2]);
    let (dp, spl) = partition_dp(&sums, 4, 2);
    assert_eq!(dp[4][2], 4);
    assert_eq!(spl[4][2], 2);
    assert_eq!(dp[0][0], 0);
    assert_eq!(dp[1][0], UNREACHABLE);
    assert_eq!(dp[1][2], UNREACHABLE);
    assert_eq!(dp[4][1], 8);
}

#[test]
fn dp_keeps_first_of_equal_splits() {
    // [2 | 2 2] and [2 2 | 2] both have a largest group of 4; the first wins.
    let sums = sums_of(&[2, 2, 2]);
    let (dp, spl) = partition_dp(&sums, 3, 2);
    assert_eq!(dp[3][2], 4);
    assert_eq!(spl[3][2], 1);
}

#[test]
fn reconstruct_reads_back_groups() {
    let sums = sums_of(&[3, 1, 2, 2]);
    let (_dp, spl) = partition_dp(&sums, 4, 2);
    let rows = reconstruct(&spl, 4, 2);
    assert_eq!(rows, vec![vec![0, 1], vec![2, 3]]);
}

#[test]
fn optimal_partition_single_row_takes_everything() {
    let sums = sums_of(&[1, 2, 3]);
    assert_eq!(optimal_partition(&sums, 3, 1), vec![vec![0, 1, 2]]);
}

#[test]
fn optimal_partition_one_per_row_when_rows_reach_count() {
    let sums = sums_of(&[1, 2, 3]);
    let expected = vec![vec![0], vec![1], vec![2]];
    assert_eq!(optimal_partition(&sums, 3, 3), expected);
    assert_eq!(optimal_partition(&sums, 3, 7), expected);
}

#[test]
fn optimal_partition_of_nothing_is_empty() {
    let sums = sums_of(&[]);
    assert!(optimal_partition(&sums, 0, 1).is_empty());
}

#[test]
fn optimal_partition_matches_exhaustive_search() {
    let weights: [&[u64]; 4] = [
        &[5, 1, 1, 1, 5, 2, 9],
        &[1, 1, 1, 1, 1, 1],
        &[10, 3, 7, 2, 2, 8, 1, 4],
        &[4, 4, 1, 9],
    ];
    for w in weights {
        let n = w.len();
        let sums = sums_of(w);
        for k in 1..=n {
            let rows = optimal_partition(&sums, n, k);
            assert_eq!(rows.len(), k);
            assert!(rows.iter().all(|r| !r.is_empty()));
            assert_eq!(flatten(&rows), (0..n).collect::<Vec<_>>());
            assert_eq!(max_cost(&sums, &rows), brute_force(&sums, n, k));
        }
    }
}

#[test]
fn every_item_placed_even_with_unreachable_costs() {
    let n = 4;
    let t = vec![vec![UNREACHABLE; n + 1]; n + 1];
    for k in 1..=n {
        let rows = optimal_partition(&t, n, k);
        assert_eq!(flatten(&rows), (0..n).collect::<Vec<_>>());
    }
}

#[test]
fn candidates_cover_each_row_count() {
    let sums = sums_of(&[2, 1, 3]);
    let c = candidate_partitions(&sums, 3);
    assert_eq!(c.len(), 3);
    for (t, rows) in c.iter().enumerate() {
        assert_eq!(rows.len(), t + 1);
    }
    let many: Vec<u64> = (1..=25).collect();
    let sums = sums_of(&many);
    assert_eq!(candidate_partitions(&sums, 25).len(), MAX_ROWS);
    assert!(candidate_partitions(&sums_of(&[]), 0).is_empty());
}

#[test]
fn first_min_index_takes_first_smallest() {
    assert_eq!(first_min_index(&vec![5, 3, 3, 7]), Some(1));
    assert_eq!(first_min_index(&vec![9]), Some(0));
    assert_eq!(first_min_index(&vec![4, 8, 1]), Some(2));
    assert_eq!(first_min_index(&vec![]), None);
}

#[test]
fn best_partition_picks_lowest_score() {
    let cands = vec![vec![vec![0, 1]], vec![vec![0], vec![1]]];
    assert_eq!(best_partition(cands, &vec![7, 2]), vec![vec![0], vec![1]]);
    let cands = vec![vec![vec![0, 1]], vec![vec![0], vec![1]]];
    assert_eq!(best_partition(cands, &vec![2, 2]), vec![vec![0, 1]]);
    assert!(best_partition(vec![], &vec![]).is_empty());
}

#[test]
fn unreachable_is_half_the_largest_double() {
    assert_eq!((f64::MAX / 2.0).to_bits(), UNREACHABLE);
}

#[test]
fn bit_patterns_order_non_negative_doubles() {
    let xs = [0.0f64, 1e-300, 0.25, 1.0, 1.5, 2.0, 1e10, f64::MAX / 2.0, f64::MAX, f64::INFINITY];
    for a in xs {
        for b in xs {
            assert_eq!(a < b, a.to_bits() < b.to_bits());
            assert_eq!(a.max(b).to_bits(), a.to_bits().max(b.to_bits()));
        }
    }
}
