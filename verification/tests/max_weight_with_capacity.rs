use intervals_core::capacity::{capacity_keys, components, concurrency, prepare, solve_component};
use intervals_core::network::Network;
use intervals_core::{max_weight_non_overlapping, max_weight_with_capacity as solve, IntervalError};

/// Feasibility checked independently by an event sweep (ends before starts).
fn verify(s: &[i64], e: &[i64], w: &[i64], k: usize, mask: &[bool]) -> i128 {
    assert_eq!(mask.len(), s.len());
    let mut objective = 0;
    let mut events = Vec::new();
    for i in 0..s.len() {
        assert!(s[i] <= e[i]);
        if s[i] == e[i] && w[i] > 0 {
            assert!(mask[i]);
        }
        if mask[i] {
            assert!(w[i] > 0);
            objective += i128::from(w[i]);
            if s[i] < e[i] {
                events.extend([(s[i], 1i64), (e[i], -1)]);
            }
        }
    }
    events.sort_unstable();
    let mut live = 0;
    for (_, delta) in events {
        live += delta;
        assert!(live >= 0 && live as usize <= k);
    }
    assert_eq!(live, 0);
    objective
}

/// Independent exhaustive oracle: count coverage at each selected start.
fn brute_force(s: &[i64], e: &[i64], w: &[i64], k: usize) -> i128 {
    assert!(s.len() <= 24);
    (0usize..1 << s.len())
        .filter_map(|bits| {
            for &t in s {
                let live = (0..s.len())
                    .filter(|&i| bits & (1 << i) != 0 && s[i] <= t && t < e[i])
                    .count();
                if live > k {
                    return None;
                }
            }
            Some(
                (0..s.len())
                    .filter(|&i| bits & (1 << i) != 0)
                    .map(|i| i128::from(w[i]))
                    .sum(),
            )
        })
        .max()
        .unwrap()
}

fn check(s: &[i64], e: &[i64], w: &[i64], k: usize) -> (Vec<bool>, i128) {
    let expected = brute_force(s, e, w, k);
    let mask = solve(s, e, w, k).unwrap();
    assert_eq!(verify(s, e, w, k, &mask), expected);
    assert_eq!(mask, solve(s, e, w, k).unwrap());
    (mask, expected)
}

#[test]
fn empty_zero_capacity_and_nonpositive() {
    for k in [0, 1, 2, 64, usize::MAX] {
        assert_eq!(check(&[], &[], &[], k), (vec![], 0));
        assert_eq!(check(&[0, 1], &[4, 1], &[-1, -2], k).0, [false; 2]);
        assert_eq!(
            check(&[0; 4], &[0, 0, 0, 4], &[3, -1, 0, 10], 0).0,
            [true, false, false, false]
        );
        assert_eq!(check(&[0, 0], &[0, 3], &[0, 0], k).0, [false; 2]);
    }
}

#[test]
fn disjoint_touching_and_sufficient_capacity() {
    for k in [1, 2, 64, usize::MAX] {
        assert_eq!(check(&[0, 1, 4], &[1, 2, 5], &[1, 2, 3], k).0, [true; 3]);
    }
    for k in [2, 3, 64, usize::MAX] {
        assert_eq!(check(&[0, 1, 2, 3], &[2, 3, 4, 5], &[3, 2, 2, 3], k).0, [true; 4]);
    }
}

#[test]
fn clique_duplicates_top_k_and_saturated_empties() {
    for ends in [[10; 5], [6, 7, 8, 9, 10]] {
        assert_eq!(
            check(&[0; 5], &ends, &[1, 50, 3, 40, 5], 2).0,
            [false, true, false, true, false]
        );
    }
    let s = [0, 0, 0, 0, 0, 3, 4, 4, 4, 4];
    let e = [10, 10, 10, 10, 10, 3, 4, 4, 4, 4];
    let w = [1, 50, 3, 40, 5, 8, 7, 6, -1, 0];
    assert_eq!(
        check(&s, &e, &w, 2).0,
        [false, true, false, true, false, true, true, true, false, false]
    );
}

#[test]
fn nested_greedy_counterexample_and_shuffled_reconstruction() {
    let s = [0, 0, 4, 7, 1, 2];
    let e = [10, 4, 7, 10, 9, 3];
    let w = [15, 10, 10, 10, 25, 9];
    let (mask, _) = check(&s, &e, &w, 2);
    let order = [4, 1, 5, 0, 3, 2];
    let shuffled = check(&order.map(|i| s[i]), &order.map(|i| e[i]), &order.map(|i| w[i]), 2).0;
    assert_eq!(shuffled, order.map(|i| mask[i]));
    // Descending weight picks the long 15 first, losing the schedule of 30.
    assert_eq!(check(&s[..4], &e[..4], &w[..4], 1).1, 30);
    assert_eq!(check(&s[..4], &e[..4], &w[..4], 2).1, 45);
    assert_eq!(check(&[0, 1, 2, 3, 4], &[10, 9, 8, 7, 6], &[9, 20, 2, 17, 6], 2).1, 37);
}

#[test]
fn repeated_single_resource_is_suboptimal() {
    // Unique best first schedule is A+D (6), leaving overlapping B+C.
    // Repeated scheduling gets 8, while capacity two selects A+B+C+D (10).
    let (s, e, w) = ([0, 1, 2, 3, 0], [2, 3, 4, 5, 5], [3, 2, 2, 3, 1]);
    let first = max_weight_non_overlapping(&s, &e, &w).unwrap();
    assert_eq!(first, [true, false, false, true, false]);
    let remaining: Vec<_> = w.iter().zip(&first).map(|(&w, &v)| if v { 0 } else { w }).collect();
    let second = max_weight_non_overlapping(&s, &e, &remaining).unwrap();
    let repeated = verify(&s, &e, &w, 1, &first) + verify(&s, &e, &remaining, 1, &second);
    assert_eq!(repeated, 8);
    assert_eq!(check(&s, &e, &w, 2).1, 10);
}

#[test]
fn independent_components() {
    assert_eq!(
        check(&[0, 0, 0, 10, 10, 10], &[2, 2, 2, 12, 12, 12], &[5, 8, 2, 4, 1, 9], 2).1,
        26
    );
}

#[test]
fn parallel_component_batches_preserve_order_and_exact_top_k() {
    let mut s: Vec<i64> = (0..8192).map(|i| i / 32 * 100).collect();
    let mut e: Vec<i64> = s.iter().map(|s| s + 10).collect();
    let mut w: Vec<i64> = (0..8192).map(|i| i % 32 + 1).collect();
    s.reverse();
    e.reverse();
    w.reverse();
    let expected: Vec<_> = w.iter().map(|&w| w > 24).collect();
    for _ in 0..3 {
        assert_eq!(solve(&s, &e, &w, 8).unwrap(), expected);
    }
}

#[test]
fn validation_and_integer_boundaries() {
    for k in [0, 1, 2, usize::MAX] {
        assert_eq!(
            solve(&[0], &[], &[1], k),
            Err(IntervalError::LengthMismatch { starts_len: 1, ends_len: 0 })
        );
        for weights in [vec![], vec![1, 2]] {
            assert_eq!(
                solve(&[0], &[1], &weights, k),
                Err(IntervalError::WeightLengthMismatch { intervals_len: 1, weights_len: weights.len() })
            );
        }
        assert_eq!(
            solve(&[0, 4, 8], &[1, 3, 7], &[1, -2, 0], k),
            Err(IntervalError::InvalidInterval { index: 1 })
        );
    }
    assert_eq!(solve(&[i64::MIN, 0], &[0, i64::MAX], &[u64::MAX; 2], 2).unwrap(), [true; 2]);
    assert_eq!(solve(&[0; 3], &[1; 3], &[u64::MAX, u64::MAX - 1, 1], 2).unwrap(), [true, true, false]);
    assert_eq!(solve(&[0; 3], &[1; 3], &[i64::MAX, i64::MIN, i64::MAX], 2).unwrap(), [true, false, true]);
    assert_eq!(solve(&['a'; 3], &['z'; 3], &[1, 2, 3], 2).unwrap(), [false, true, true]);
    let cases: [(Vec<i32>, Vec<i32>, Vec<i128>, usize); 4] = [
        (vec![0, 0], vec![0, 0], vec![i128::MAX, 1], 0),
        (vec![0, 0], vec![1, 1], vec![i128::MAX, 1], 2),
        (vec![0; 3], vec![1; 3], vec![i128::MAX, 1, 1], 2),
        (vec![0, 0, 0, 2, 2, 2], vec![1, 1, 1, 3, 3, 3], vec![i128::MAX / 2; 6], 2),
    ];
    for (s, e, w, k) in cases {
        assert_eq!(solve(&s, &e, &w, k), Err(IntervalError::WeightOverflow));
    }
    assert_eq!(
        solve(&[0; 3], &[1; 3], &[i128::MAX - 1, 1, 1], 2).unwrap().iter().filter(|&&v| v).count(),
        2
    );
}

/// Runs the network of the prepared rows directly and checks the residual
/// pairs, conservation, the cost of the flow and determinism.
fn invariants(s: &[i32], e: &[i32], w: &[i64], k: usize) {
    let s: Vec<i128> = s.iter().map(|&x| i128::from(x)).collect();
    let e: Vec<i128> = e.iter().map(|&x| i128::from(x)).collect();
    let w: Vec<i128> = w.iter().map(|&x| i128::from(x)).collect();
    let (rows, _) = prepare(&s, &e, &w, k).unwrap();
    if rows.is_empty() {
        return;
    }
    let mut net = Network::new(&rows, 0, rows.len(), &w, k);
    let initial = net.capacity.clone();
    net.solve(k).unwrap();
    let n = net.offsets.len() - 1;
    let mut balance = vec![0i128; n];
    let mut cost = 0;
    for edge in (0..net.to.len()).step_by(2) {
        assert_eq!(net.cost[edge], -net.cost[edge ^ 1]);
        assert_eq!(net.capacity[edge] + net.capacity[edge ^ 1], initial[edge]);
        assert!(net.capacity[edge] <= initial[edge]);
        let flow = net.capacity[edge ^ 1] as i128;
        balance[net.to[edge ^ 1]] -= flow;
        balance[net.to[edge]] += flow;
        cost += flow * net.cost[edge];
    }
    assert_eq!(balance[0], -(k as i128));
    assert_eq!(balance[n - 1], k as i128);
    assert!(balance[1..n - 1].iter().all(|&v| v == 0));
    for v in 0..n {
        for &edge in &net.adjacent[net.offsets[v]..net.offsets[v + 1]] {
            assert_eq!(net.to[edge ^ 1], v);
        }
    }
    let mut mask = vec![false; s.len()];
    net.reconstruct(&rows, 0, rows.len(), &mut mask);
    let selected: i128 = (0..s.len()).filter(|&i| mask[i]).map(|i| w[i]).sum();
    assert_eq!(cost, -selected);
    for (j, row) in rows.iter().enumerate() {
        assert_eq!(mask[row.2], net.capacity[net.interval_start + 2 * j + 1] == 1);
    }
    let mut again = Network::new(&rows, 0, rows.len(), &w, k);
    again.solve(k).unwrap();
    assert_eq!(net.capacity, again.capacity);
}

#[test]
fn residual_capacity_conservation_cost_and_ties() {
    for k in [1, 2, 4, 16, 64] {
        invariants(&[0, 0, 1, 2, 3], &[5, 2, 3, 4, 5], &[4, 3, 2, 2, 3], k);
        invariants(&[0; 8], &[1; 8], &[2; 8], k);
    }
}

#[test]
fn components_solved_one_by_one_match_the_whole() {
    let s: Vec<i128> = (0..128).map(|i| i / 8 * 20 + i % 8).collect();
    let e: Vec<i128> = s.iter().map(|s| s + 5).collect();
    let w: Vec<i128> = (0..128).map(|i| i % 7 + 1).collect();
    let (rows, base) = prepare(&s, &e, &w, 2).unwrap();
    let ranges = components(&rows);
    assert_eq!(ranges.len(), 16);
    let mut serial = base.clone();
    for &(lo, hi) in &ranges {
        solve_component(&rows, lo, hi, &w, 2, &mut serial).unwrap();
    }
    assert_eq!(capacity_keys(&s, &e, &w, 2).unwrap(), serial);
    let w = vec![1, 1, i128::MAX, 2];
    let (rows, base) = prepare(&vec![0, 0, 0, 1], &vec![2, 2, 1, 2], &w, 2).unwrap();
    let ranges = components(&rows);
    let mut mask = base;
    let (lo, hi) = ranges[0];
    assert_eq!(
        solve_component(&rows, lo, hi, &w, 2, &mut mask),
        Err(IntervalError::WeightOverflow)
    );
}

#[test]
fn concurrency_is_the_deepest_point() {
    let rows = vec![(0i128, 10i128, 0usize), (1, 3, 1), (2, 4, 2), (3, 5, 3), (10, 12, 4)];
    assert_eq!(concurrency(&rows, 0, rows.len()), 3);
    assert_eq!(concurrency(&rows, 4, 5), 1);
    assert_eq!(concurrency(&rows, 0, 0), 0);
    let touching = vec![(0i128, 1i128, 0usize), (1, 2, 1), (2, 3, 2)];
    assert_eq!(concurrency(&touching, 0, 3), 1);
    assert_eq!(components(&touching), vec![(0, 1), (1, 2), (2, 3)]);
    assert_eq!(components(&rows), vec![(0, 4), (4, 5)]);
}

#[test]
fn capacity_monotone_and_zero_keeps_empties() {
    let s = [0, 0, 1, 2, 3, 5, 5];
    let e = [4, 2, 3, 4, 5, 5, 6];
    let w = [7, 3, 2, 4, 6, 9, -1];
    let mut previous = 0;
    for k in 0..=5 {
        let (mask, objective) = check(&s, &e, &w, k);
        assert!(objective >= previous);
        previous = objective;
        if k == 0 {
            assert_eq!(mask, [false, false, false, false, false, true, false]);
        }
    }
    assert_eq!(previous, 31);
}

#[test]
fn shifting_keeps_mask_and_optimum() {
    let s = [0, 0, 4, 7, 1, 2];
    let e = [10, 4, 7, 10, 9, 3];
    let w = [15, 10, 10, 10, 25, 9];
    for k in 0..=4 {
        let base = check(&s, &e, &w, k);
        let shifted = check(&s.map(|x| x + 1000), &e.map(|x| x + 1000), &w, k);
        assert_eq!(base, shifted);
    }
}

#[test]
fn capacity_of_the_lane_count_selects_every_positive_row() {
    let s = [0, 1, 2, 6, 6, 8, 3];
    let e = [5, 7, 3, 9, 6, 10, 4];
    let w = [4, 1, 2, -3, 5, 6, 0];
    let lanes = intervals_core::assign_lanes(&s, &e).unwrap();
    let count = lanes.iter().max().map_or(0, |&l| l as usize + 1);
    assert_eq!(count, 3);
    for k in count..count + 3 {
        let mask = solve(&s, &e, &w, k).unwrap();
        assert_eq!(mask, w.map(|x| x > 0));
    }
    // One lane fewer is no longer enough for every positive row.
    assert_ne!(solve(&s, &e, &w, count - 1).unwrap(), w.map(|x| x > 0));
}

#[test]
fn capacity_one_returns_the_very_same_result() {
    let cases: [(&[i64], &[i64], &[i64]); 4] = [
        (&[0, 0, 5, 5, 0, 3], &[5, 5, 10, 10, 10, 3], &[4, 4, 6, 6, 10, 2]),
        (&[0, 1, 2, 3], &[4, 3, 9, 5], &[7, 3, 3, 2]),
        (&[0, 5, 2], &[3, 4, 9], &[1, 1, 1]),
        (&[], &[], &[]),
    ];
    for (s, e, w) in cases {
        assert_eq!(solve(s, e, w, 1), max_weight_non_overlapping(s, e, w));
    }
    assert_eq!(solve(&[0i64], &[1i64, 2], &[1i64], 1), max_weight_non_overlapping(&[0i64], &[1i64, 2], &[1i64]));
}

#[test]
fn network_vertices_are_the_distinct_endpoints() {
    let s = vec![0i128, 0, 0];
    let e = vec![2i128, 2, 2];
    let w = vec![5i128, 3, 1];
    let (rows, _) = prepare(&s, &e, &w, 2).unwrap();
    let mut net = Network::new(&rows, 0, rows.len(), &w, 2);
    assert_eq!(net.offsets.len() - 1, 2);
    net.solve(2).unwrap();
    // The one timeline arc keeps both units; rows 0 and 1 carry the flow.
    assert_eq!(net.capacity[0], 2);
    let residual: Vec<usize> = (0..3).map(|j| net.capacity[net.interval_start + 2 * j]).collect();
    assert_eq!(residual, [0, 0, 1]);
    let mut mask = vec![false; 3];
    net.reconstruct(&rows, 0, rows.len(), &mut mask);
    assert_eq!(mask, [true, true, false]);
}

#[test]
fn components_start_exactly_where_every_earlier_row_has_ended() {
    let s = vec![0i128, 1, 3, 3, 6, 9, 9];
    let e = vec![3i128, 2, 5, 6, 9, 12, 10];
    let w = vec![1i128; 7];
    let (rows, _) = prepare(&s, &e, &w, 2).unwrap();
    let ranges = components(&rows);
    let starts: Vec<usize> = ranges.iter().map(|r| r.0).collect();
    for q in 1..rows.len() {
        let clear = (0..q).all(|p| rows[p].1 <= rows[q].0);
        assert_eq!(starts.contains(&q), clear);
    }
    assert_eq!(ranges, [(0, 2), (2, 4), (4, 5), (5, 7)]);
}
