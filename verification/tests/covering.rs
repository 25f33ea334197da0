use intervals_core::{minimum_cost_cover, minimum_cover, Fenwick, IntervalError};

/// The selected intervals, taken by start, continuously cover `[left, right)`.
fn covers<T: Ord + Copy>(starts: &[T], ends: &[T], mask: &[bool], left: T, right: T) -> bool {
    let mut selected: Vec<_> = (0..starts.len()).filter(|&i| mask[i]).collect();
    selected.sort_by_key(|&i| starts[i]);
    let mut frontier = left;
    for i in selected {
        if starts[i] > frontier {
            break;
        }
        frontier = frontier.max(ends[i]);
    }
    frontier >= right
}

/// Total cost and count of the selected rows.
fn objective(costs: &[i128], mask: &[bool]) -> (i128, usize) {
    mask.iter()
        .enumerate()
        .filter(|&(_, &selected)| selected)
        .fold((0, 0), |(cost, count), (i, _)| (cost + costs[i], count + 1))
}

/// Exhaustive oracle: the least `(cost, count)` of any covering subset.
fn brute_force(starts: &[i32], ends: &[i32], costs: &[i128], left: i32, right: i32) -> Option<(i128, usize)> {
    (0..1usize << starts.len())
        .filter_map(|bits| {
            let mask: Vec<_> = (0..starts.len()).map(|i| bits & (1 << i) != 0).collect();
            if covers(starts, ends, &mask, left, right) {
                Some(objective(costs, &mask))
            } else {
                None
            }
        })
        .min()
}

fn check(s: &[i32], e: &[i32], w: &[i128], l: i32, r: i32) -> Option<(i128, usize)> {
    let expected = brute_force(s, e, w, l, r);
    let actual = minimum_cost_cover(s, e, w, l, r);
    match expected {
        Some(optimum) => {
            let mask = actual.unwrap();
            assert_eq!(mask.len(), s.len());
            assert!(covers(s, e, &mask, l, r));
            assert_eq!(objective(w, &mask), optimum);
            assert!(mask.iter().enumerate().all(|(i, &m)| !m || s[i] < e[i]));
            assert_eq!(minimum_cost_cover(s, e, w, l, r).unwrap(), mask);
        }
        None => assert_eq!(actual, Err(IntervalError::InfeasibleCover)),
    }
    let unit = vec![1; s.len()];
    let cardinality = brute_force(s, e, &unit, l, r);
    let greedy = minimum_cover(s, e, l, r);
    assert_eq!(greedy.as_ref().ok().map(|mask| objective(&unit, mask)), cardinality);
    assert_eq!(greedy, minimum_cover(s, e, l, r));
    if let Ok(mask) = &greedy {
        assert_eq!(mask.len(), s.len());
        assert!(covers(s, e, mask, l, r));
        let weighted = minimum_cost_cover(s, e, &unit, l, r).unwrap();
        assert_eq!(objective(&unit, mask), objective(&unit, &weighted));
    }
    expected
}

#[test]
fn deterministic_regressions() {
    for (s, e, w, l, r) in [
        (vec![], vec![], vec![], 5, 5),
        (vec![0], vec![10], vec![1], 0, 10),
        (vec![-100], vec![100], vec![1], 0, 10),
        (vec![0, 3, 7], vec![3, 7, 10], vec![1, 1, 1], 0, 10),
        (vec![0, 5], vec![4, 10], vec![1, 1], 0, 10),
        (vec![0, 0, 4, 6, 7], vec![4, 6, 7, 10, 10], vec![1; 5], 0, 10),
        (vec![0, 0, 5], vec![10, 5, 10], vec![100, 10, 10], 0, 10),
        (vec![0, 0, 4, 6], vec![4, 6, 10, 10], vec![1, 5, 100, 5], 0, 10),
        (vec![0, 0, 0, 5], vec![10, 10, 5, 10], vec![0, 0, 0, 0], 0, 10),
        (vec![0, 0], vec![10, 10], vec![9, 1], 0, 10),
        (vec![7, -1, 3, 2, 10], vec![12, 3, 7, 2, 10], vec![2; 5], 0, 10),
        (vec![0, 5, 10], vec![0, 5, 10], vec![0; 3], 0, 10),
        (vec![1, 2], vec![2, 3], vec![1; 2], 0, 3),
        (vec![0, 1], vec![1, 2], vec![1; 2], 0, 3),
    ] {
        check(&s, &e, &w, l, r);
    }
    assert_eq!(
        minimum_cover(&[0, 0, 4, 6, 7], &[4, 6, 7, 10, 10], 0, 10).unwrap(),
        [false, true, false, true, false]
    );
    assert_eq!(minimum_cover(&[0, 0], &[10, 10], 0, 10).unwrap(), [true, false]);
    assert_eq!(
        minimum_cost_cover(&[0, 0, 5], &[10, 5, 10], &[0, 0, 0], 0, 10).unwrap(),
        [true, false, false]
    );
    assert_eq!(
        minimum_cover(&[i128::MIN, 0], &[0, i128::MAX], i128::MIN, i128::MAX).unwrap(),
        [true, true]
    );
    assert_eq!(minimum_cover(&[0u64], &[u64::MAX], 0, u64::MAX).unwrap(), [true]);
}

#[test]
fn validation_and_overflow() {
    assert_eq!(minimum_cover(&['a', 'c'], &['c', 'z'], 'a', 'z').unwrap(), [true, true]);
    assert_eq!(
        minimum_cover(&[1], &[], 0, 1),
        Err(IntervalError::LengthMismatch { starts_len: 1, ends_len: 0 })
    );
    assert_eq!(minimum_cover(&[0], &[1], 2, 1), Err(IntervalError::InvalidTarget));
    assert_eq!(minimum_cover(&[2], &[1], 0, 0), Err(IntervalError::InvalidInterval { index: 0 }));
    assert_eq!(minimum_cost_cover(&[0], &[1], &[-1], 0, 0), Err(IntervalError::NegativeCost { index: 0 }));
    assert_eq!(
        minimum_cost_cover(&[0], &[1], &[] as &[i32], 0, 1),
        Err(IntervalError::CostLengthMismatch { intervals_len: 1, costs_len: 0 })
    );
    assert_eq!(minimum_cost_cover(&[0, 1], &[1, 2], &[i128::MAX, 1], 0, 2), Err(IntervalError::CostOverflow));
    assert_eq!(minimum_cost_cover(&[0, 1], &[1, 2], &[i128::MAX, 1], 0, 3), Err(IntervalError::InfeasibleCover));
    assert_eq!(
        minimum_cost_cover(&[0, 1, 0], &[1, 2, 2], &[i128::MAX, 1, 5], 0, 2).unwrap(),
        [false, false, true]
    );
    assert_eq!(minimum_cost_cover(&[0, 1], &[1, 2], &[u64::MAX, u64::MAX], 0, 2).unwrap(), [true, true]);
    assert_eq!(minimum_cost_cover(&[0, 1], &[1, 2], &[i128::MAX - 1, 1], 0, 2).unwrap(), [true, true]);
}

#[test]
fn covers_shifted_and_scaled_targets() {
    let s = [0, 0, 4, 6, 7, -3];
    let e = [4, 6, 7, 10, 10, 2];
    let w: [i128; 6] = [3, 5, 1, 2, 1, 1];
    let base = check(&s, &e, &w, 0, 10);
    assert_eq!(base, Some((5, 3)));
    let shifted = check(&s.map(|x| x + 50), &e.map(|x| x + 50), &w, 50, 60);
    assert_eq!(shifted, base);
    let scaled = check(&s, &e, &w.map(|x| x * 7), 0, 10);
    assert_eq!(scaled, Some((35, 3)));
    // An empty target needs nothing, and a point target is covered by nothing.
    assert_eq!(minimum_cover(&s, &e, 3, 3).unwrap(), [false; 6]);
    assert_eq!(minimum_cost_cover(&s, &e, &w, 12, 12).unwrap(), [false; 6]);
    assert_eq!(minimum_cover(&s, &e, 0, 11), Err(IntervalError::InfeasibleCover));
}

#[test]
fn zero_costs_give_fewest_rows() {
    let s = [0, 0, 0, 5, 2];
    let e = [10, 10, 5, 10, 8];
    let zero = [0i128; 5];
    let mask = minimum_cost_cover(&s, &e, &zero, 0, 10).unwrap();
    assert_eq!(mask.iter().filter(|&&m| m).count(), 1);
    assert_eq!(minimum_cover(&s, &e, 0, 10).unwrap().iter().filter(|&&m| m).count(), 1);
}

#[test]
fn error_messages_name_the_problem() {
    assert!(IntervalError::InfeasibleCover.to_string().contains("cannot be covered"));
    assert!(IntervalError::InvalidTarget.to_string().contains("target start"));
    assert!(IntervalError::NegativeCost { index: 3 }.to_string().contains("index 3 is negative"));
    assert_eq!(
        IntervalError::CostLengthMismatch { intervals_len: 12, costs_len: 0 }.to_string(),
        "interval and cost lengths differ: 12 intervals, 0 costs"
    );
    assert!(IntervalError::CostOverflow.to_string().contains("i128"));
}

#[test]
fn furthest_reach_ties_prefer_the_lowest_row() {
    // Rows 0 and 1 reach the target end alike once clipped; row 0 wins.
    assert_eq!(minimum_cover(&[0, -5], &[10, 12], 0, 10).unwrap(), [true, false]);
    assert_eq!(minimum_cover(&[-5, 0], &[12, 10], 0, 10).unwrap(), [true, false]);
    // From frontier 4, rows 2 and 3 both reach 9; the lower row is taken.
    assert_eq!(
        minimum_cover(&[0, 1, 3, 4], &[4, 3, 9, 9], 0, 9).unwrap(),
        [true, false, true, false]
    );
}

#[test]
fn cost_cover_against_fewest_rows() {
    let s = [0, 0, 5, 0];
    let e = [10, 5, 10, 10];
    let w = [100i128, 10, 10, 30];
    let fewest = minimum_cover(&s, &e, 0, 10).unwrap();
    let cheapest = minimum_cost_cover(&s, &e, &w, 0, 10).unwrap();
    let count = |m: &[bool]| m.iter().filter(|&&x| x).count();
    assert!(count(&fewest) <= count(&cheapest));
    assert!(objective(&w, &cheapest).0 <= objective(&w, &fewest).0);
    assert_eq!(cheapest, [false, true, true, false]);
    // The same errors for an invalid or uncoverable request.
    assert_eq!(minimum_cover(&s, &e, 3, 2), minimum_cost_cover(&s, &e, &w, 3, 2));
    assert_eq!(minimum_cover(&s, &e, 0, 11), minimum_cost_cover(&s, &e, &w, 0, 11));
    assert_eq!(
        minimum_cover(&[0, 4, 3], &[5, 3, 2], 0, 5),
        minimum_cost_cover(&[0, 4, 3], &[5, 3, 2], &[1i128, 1, 1], 0, 5)
    );
}

#[test]
fn empty_target_selects_nothing() {
    let s = [0, 2, 4];
    let e = [5, 2, 9];
    for x in [-3, 0, 2, 5, 20] {
        assert_eq!(minimum_cover(&s, &e, x, x).unwrap(), [false; 3]);
        assert_eq!(minimum_cost_cover(&s, &e, &[1i128, 2, 3], x, x).unwrap(), [false; 3]);
    }
}

#[test]
fn fenwick_suffix_is_the_best_offer_from_the_coordinate_on() {

    let n = 9;
    let offers: [(usize, Option<(i128, usize, usize)>); 8] = [
        (3, Some((5, 1, 0))),
        (7, Some((2, 4, 1))),
        (0, Some((1, 9, 2))),
        (3, Some((5, 0, 3))),
        (8, None),
        (5, Some((2, 4, 0))),
        (7, Some((9, 0, 4))),
        (1, Some((1, 9, 1))),
    ];
    let mut tree = Fenwick::new(n);
    for (k, &(c, v)) in offers.iter().enumerate() {
        tree.update(c, v);
        for l in 0..=n {
            let naive = offers[..=k].iter().filter(|(c, _)| *c >= l).filter_map(|(_, v)| *v).min();
            assert_eq!(tree.suffix(l), naive, "after {} offers, from {}", k + 1, l);
        }
    }
}
