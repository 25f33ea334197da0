use intervals_core::{max_weight_non_overlapping as solve, IntervalError};

// Deliberately independent: enumerate every subset and every selected pair.
fn brute_force(s: &[i64], e: &[i64], w: &[i64]) -> i128 {
    let mut best = 0;
    for bits in 0usize..1 << s.len() {
        let mut valid = true;
        let mut weight = 0i128;
        for i in 0..s.len() {
            if bits & (1 << i) == 0 {
                continue;
            }
            weight += i128::from(w[i]);
            for j in 0..i {
                if bits & (1 << j) != 0 && s[i] < e[i] && s[j] < e[j] && s[i] < e[j] && s[j] < e[i] {
                    valid = false;
                }
            }
        }
        if valid {
            best = best.max(weight);
        }
    }
    best
}

/// Checks feasibility of a mask and returns its objective.
fn verify(s: &[i64], e: &[i64], w: &[i64], mask: &[bool]) -> i128 {
    assert_eq!(s.len(), mask.len());
    let mut chosen = Vec::new();
    let mut objective = 0i128;
    for i in 0..s.len() {
        if mask[i] {
            assert!(w[i] > 0);
            objective = objective.checked_add(i128::from(w[i])).unwrap();
            if s[i] < e[i] {
                chosen.push((s[i], e[i]));
            }
        }
        if s[i] == e[i] && w[i] > 0 {
            assert!(mask[i]);
        }
    }
    chosen.sort_unstable();
    assert!(chosen.windows(2).all(|pair| pair[0].1 <= pair[1].0));
    objective
}

/// Independent start-ordered suffix recurrence.
fn suffix_optimum(s: &[i64], e: &[i64], w: &[i64]) -> i128 {
    let mut rows = Vec::new();
    let mut empty = 0i128;
    for i in 0..s.len() {
        if s[i] == e[i] {
            empty += i128::from(w[i].max(0));
        } else {
            rows.push((s[i], e[i], w[i]));
        }
    }
    rows.sort_unstable();
    let mut suffix = vec![0i128; rows.len() + 1];
    for i in (0..rows.len()).rev() {
        let next = rows.partition_point(|row| row.0 < rows[i].1);
        suffix[i] = suffix[i + 1].max(i128::from(rows[i].2) + suffix[next]);
    }
    empty + suffix[0]
}

fn check(s: &[i64], e: &[i64], w: &[i64]) -> (Vec<bool>, i128) {
    let expected = brute_force(s, e, w);
    assert_eq!(suffix_optimum(s, e, w), expected);
    let mask = solve(s, e, w).unwrap();
    assert_eq!(verify(s, e, w, &mask), expected);
    assert_eq!(mask, solve(s, e, w).unwrap());
    (mask, expected)
}

#[test]
fn empty_and_single_rows() {
    assert_eq!(check(&[], &[], &[]), (vec![], 0));
    assert_eq!(check(&[1], &[5], &[10]), (vec![true], 10));
    assert_eq!(check(&[1], &[5], &[-10]), (vec![false], 0));
    assert_eq!(check(&[1], &[5], &[0]), (vec![false], 0));
}

#[test]
fn negative_disjoint_touching_and_conflict() {
    assert_eq!(check(&[0, 2], &[1, 3], &[-1, -2]), (vec![false; 2], 0));
    assert_eq!(check(&[0, 2], &[1, 3], &[10, 20]), (vec![true; 2], 30));
    assert_eq!(check(&[0, 1], &[1, 2], &[10, 20]), (vec![true; 2], 30));
    assert_eq!(check(&[0, 2], &[5, 4], &[10, 20]), (vec![false, true], 20));
}

#[test]
fn greedy_counterexamples() {
    // Largest-weight-first chooses 15; the optimum combines three tens.
    assert_eq!(
        check(&[0, 0, 4, 7], &[10, 4, 7, 10], &[15, 10, 10, 10]),
        (vec![false, true, true, true], 30)
    );
    // Earliest-finish chooses weight 1 instead of the overlapping weight 20.
    assert_eq!(check(&[0, 0], &[1, 4], &[1, 20]), (vec![false, true], 20));
}

#[test]
fn predecessor_chain_and_original_order() {
    let s = [1, 2, 4, 6, 5, 7];
    let e = [3, 5, 6, 7, 8, 9];
    let w = [5, 6, 5, 4, 11, 2];
    assert_eq!(check(&s, &e, &w), (vec![false, true, false, false, true, false], 17));
    let order = [4, 0, 5, 2, 1, 3];
    let s = order.map(|i| s[i]);
    let e = order.map(|i| e[i]);
    let w = order.map(|i| w[i]);
    assert_eq!(check(&s, &e, &w), (vec![true, false, false, false, true, false], 17));
}

#[test]
fn duplicates_and_empty_intervals() {
    let (mask, objective) = check(&[1; 4], &[5; 4], &[10; 4]);
    assert_eq!(objective, 10);
    assert_eq!(mask.iter().filter(|&&v| v).count(), 1);
    assert_eq!(check(&[2; 4], &[2; 4], &[3, -4, 0, 5]), (vec![true, false, false, true], 8));
    // Empty intervals inside an ordinary interval remain compatible with it.
    assert_eq!(
        check(&[0, 2, 2, 2, 2, 5], &[5, 2, 2, 2, 2, 8], &[10, 3, -4, 0, 5, -9]),
        (vec![true, true, false, false, true, false], 18)
    );
}

#[test]
fn integer_boundaries_and_generic_endpoints() {
    assert_eq!(solve(&[i64::MIN, 0], &[0, i64::MAX], &[u64::MAX; 2]), Ok(vec![true; 2]));
    assert_eq!(solve(&[0, 1, 2], &[1, 2, 3], &[i64::MAX, i64::MIN, i64::MAX]), Ok(vec![true, false, true]));
    assert_eq!(solve(&['a', 'b'], &['b', 'c'], &[1u8, 2]), Ok(vec![true; 2]));
    assert_eq!(solve(&[u64::MAX - 1, u64::MAX], &[u64::MAX; 2], &[1, 2]), Ok(vec![true; 2]));
    let tied = solve(&[0, 0], &[1, 1], &[i128::MAX; 2]).unwrap();
    assert_eq!(tied.iter().filter(|&&selected| selected).count(), 1);
    for (s, e) in [([0, 1], [1, 2]), ([0, 0], [0, 0]), ([0, 0], [1, 0])] {
        assert_eq!(solve(&s, &e, &[i128::MAX, 1]), Err(IntervalError::WeightOverflow));
    }
}

#[test]
fn validation_and_error_messages() {
    assert_eq!(solve(&[1], &[], &[0]), Err(IntervalError::LengthMismatch { starts_len: 1, ends_len: 0 }));
    for w in [vec![], vec![1, 2]] {
        assert_eq!(
            solve(&[1], &[2], &w),
            Err(IntervalError::WeightLengthMismatch { intervals_len: 1, weights_len: w.len() })
        );
    }
    assert_eq!(
        solve(&[9, 0, 5, 3], &[10, 0, 4, 2], &[1, 0, -1, 2]),
        Err(IntervalError::InvalidInterval { index: 2 })
    );
    assert!(IntervalError::WeightOverflow.to_string().contains("i128"));
    assert!(IntervalError::WeightLengthMismatch { intervals_len: 1, weights_len: 2 }
        .to_string()
        .contains("1 intervals, 2 weights"));
}

#[test]
fn shifted_negative_rows_and_empties() {
    let s = [0, 0, 4, 7, 1, 2];
    let e = [10, 4, 7, 10, 9, 3];
    let w = [15, 10, 10, 10, 25, 9];
    let (mask, optimum) = check(&s, &e, &w);
    assert_eq!(check(&s.map(|x| x - 40), &e.map(|x| x - 40), &w), (mask, optimum));
    // A negative row is never selected; a positive empty row adds its weight.
    let (mask, objective) = check(&[0, 0, 4, 7, 1, 2, 3], &[10, 4, 7, 10, 9, 3, 8], &[15, 10, 10, 10, 25, 9, -4]);
    assert_eq!(objective, optimum);
    assert!(!mask[6]);
    assert_eq!(check(&[0, 0, 4, 7, 1, 2, 3], &[10, 4, 7, 10, 9, 3, 3], &[15, 10, 10, 10, 25, 9, 4]).1, optimum + 4);
}

#[test]
fn error_messages_render_numbers() {
    assert_eq!(
        IntervalError::LengthMismatch { starts_len: 1234567, ends_len: 0 }.to_string(),
        "start and end lengths differ: 1234567 starts, 0 ends"
    );
    assert_eq!(
        IntervalError::InvalidInterval { index: 40 }.to_string(),
        "interval at index 40 has start greater than end"
    );
    assert_eq!(IntervalError::TooManyLanes.to_string(), "lane IDs exceed u32::MAX");
}

#[test]
fn shifted_ties_keep_the_very_same_mask() {
    // Several optimal masks tie; moving every endpoint keeps the one returned.
    let s = [0i64, 0, 5, 5, 0, 3];
    let e = [5i64, 5, 10, 10, 10, 3];
    let w = [4i64, 4, 6, 6, 10, 2];
    let base = solve(&s, &e, &w).unwrap();
    for d in [-1000i64, -1, 1, 77, 1 << 40] {
        assert_eq!(solve(&s.map(|x| x + d), &e.map(|x| x + d), &w).unwrap(), base);
    }
    // Errors move along unchanged too.
    assert_eq!(solve(&[0i64, 5], &[3i64, 4], &[1i64, 1]), solve(&[9i64, 14], &[12i64, 13], &[1i64, 1]));
}

#[test]
fn more_endpoint_and_weight_types() {
    let s = [0u128, u128::MAX - 5, 3];
    let e = [4u128, u128::MAX, 9];
    assert_eq!(solve(&s, &e, &[1i64, 1, 2]).unwrap(), [false, true, true]);
    assert_eq!(solve(&[0usize, 2], &[3usize, 5], &[true, true]).unwrap().iter().filter(|&&m| m).count(), 1);
    assert_eq!(solve(&[-3isize, 0], &[0isize, 1], &[1i8, 1]).unwrap(), [true, true]);
    assert_eq!(solve(&[false, false], &[true, false], &[1u8, 1]).unwrap(), [true, true]);
}

#[test]
fn reordered_rows_keep_the_optimum() {
    let s = [0i64, 0, 4, 7, 1, 2, 3];
    let e = [10i64, 4, 7, 10, 9, 3, 3];
    let w = [15i64, 10, 10, 10, 25, 9, 4];
    let (_, optimum) = check(&s, &e, &w);
    let order = [6usize, 2, 0, 5, 3, 1, 4];
    let (_, reordered) = check(&order.map(|k| s[k]), &order.map(|k| e[k]), &order.map(|k| w[k]));
    assert_eq!(reordered, optimum);
}
