use intervals_core::{assign_lanes, IntervalError};

/// Independent optimality oracle: signed endpoint deltas, end before start.
fn optimum(starts: &[i64], ends: &[i64]) -> usize {
    let mut events = Vec::new();
    for (&start, &end) in starts.iter().zip(ends) {
        if start < end {
            events.extend([(start, 1i64), (end, -1)]);
        }
    }
    events.sort_unstable();
    let (mut active, mut peak) = (0, 0);
    for (_, delta) in events {
        active += delta;
        peak = peak.max(active);
    }
    (peak as usize).max(usize::from(!starts.is_empty()))
}

/// Within each lane, adjacent non-empty intervals sorted by start must not
/// overlap; lane IDs are contiguous from zero.
fn verify(starts: &[i64], ends: &[i64], lanes: &[u32], expected: usize) {
    assert_eq!(lanes.len(), starts.len());
    let mut ids = lanes.to_vec();
    ids.sort_unstable();
    ids.dedup();
    assert_eq!(ids.len(), expected);
    assert!(ids.iter().enumerate().all(|(i, &lane)| i == lane as usize));
    let mut order: Vec<_> = (0..starts.len()).filter(|&i| starts[i] < ends[i]).collect();
    order.sort_unstable_by_key(|&i| (lanes[i], starts[i], i));
    for pair in order.windows(2) {
        let (i, j) = (pair[0], pair[1]);
        assert!(lanes[i] != lanes[j] || ends[i] <= starts[j]);
    }
}

/// Fixed pseudo-random shuffle for reproducible inputs.
fn shuffle<T>(values: &mut [T], state: &mut u64) {
    for i in (1..values.len()).rev() {
        *state ^= *state << 13;
        *state ^= *state >> 7;
        *state ^= *state << 17;
        values.swap(i, (*state % (i as u64 + 1)) as usize);
    }
}

fn check(starts: &[i64], ends: &[i64]) -> usize {
    let expected = optimum(starts, ends);
    let lanes = assign_lanes(starts, ends).unwrap();
    verify(starts, ends, &lanes, expected);
    // Independent quadratic conflict check, in original row order.
    for i in 0..starts.len() {
        for j in 0..i {
            if starts[i] < ends[i] && starts[j] < ends[j] && starts[i] < ends[j] && starts[j] < ends[i] {
                assert_ne!(lanes[i], lanes[j], "rows {i} and {j} overlap");
            }
        }
    }
    assert_eq!(lanes, assign_lanes(starts, ends).unwrap());
    expected
}

#[test]
fn deterministic_cases() {
    for (starts, ends, expected) in [
        (vec![], vec![], 0),
        (vec![1], vec![3], 1),
        (vec![0, 1, 2], vec![1, 2, 3], 1),
        (vec![0, 1], vec![1, 2], 1),
        (vec![0, 1, 2, 3], vec![10, 9, 8, 7], 4),
        (vec![1; 4], vec![5; 4], 4),
        (vec![0, 1, 2, 3, 4], vec![2, 3, 4, 5, 6], 2),
        (vec![0, 1, 2, 3, 20, 21], vec![10, 9, 8, 7, 23, 24], 4),
        (vec![5], vec![5], 1),
        (vec![5; 30], vec![5; 30], 1),
        (vec![0, 0, 2, 4, 1], vec![4, 0, 2, 4, 3], 2),
        (vec![8, 3, 0, 1, 1], vec![9, 5, 10, 2, 2], 3),
        (vec![i64::MIN, 0, i64::MAX], vec![0, i64::MAX, i64::MAX], 1),
    ] {
        assert_eq!(check(&starts, &ends), expected);
    }
}

#[test]
fn equal_endpoints_and_shuffled_rows() {
    let mut intervals: Vec<_> = (0..100).map(|i| (i / 10, i / 10 + 1)).collect();
    shuffle(&mut intervals, &mut 42);
    let (starts, ends): (Vec<_>, Vec<_>) = intervals.into_iter().unzip();
    assert_eq!(check(&starts, &ends), 10);
}

#[test]
fn generic_endpoints_need_only_order_and_copy() {
    let lanes = assign_lanes(&['a', 'c', 'd'], &['d', 'f', 'd']).unwrap();
    assert_eq!(lanes.len(), 3);
    assert_ne!(lanes[0], lanes[1]);
    assert_eq!(lanes[2], 0);
    let lanes = assign_lanes(&[u64::MAX - 2, u64::MAX - 1], &[u64::MAX; 2]).unwrap();
    assert_ne!(lanes[0], lanes[1]);
}

#[test]
fn validation_uses_original_indices() {
    assert_eq!(assign_lanes(&[9, 0, 5, 3], &[10, 0, 4, 2]), Err(IntervalError::InvalidInterval { index: 2 }));
    for (starts, ends) in [(&[1][..], &[][..]), (&[][..], &[1][..])] {
        assert_eq!(
            assign_lanes(starts, ends),
            Err(IntervalError::LengthMismatch { starts_len: starts.len(), ends_len: ends.len() })
        );
    }
}

#[test]
fn shifted_and_empty_rows_keep_lanes() {
    let starts = [0i64, 1, 2, 3, 20, 21, 5];
    let ends = [10i64, 9, 8, 7, 23, 24, 5];
    let lanes = assign_lanes(&starts, &ends).unwrap();
    let shifted = assign_lanes(&starts.map(|x| x - 1000), &ends.map(|x| x - 1000)).unwrap();
    assert_eq!(lanes, shifted);
    assert_eq!(lanes[6], 0);
    assert_eq!(check(&starts, &ends), 4);
}

#[test]
fn lane_reuse_follows_the_earliest_free_lane() {
    // Touching intervals reuse the lane that frees first.
    assert_eq!(assign_lanes(&[0, 0, 2, 3], &[2, 3, 5, 6]).unwrap(), [0, 1, 0, 1]);
}
