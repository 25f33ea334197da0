use intervals_core::{overlap_counts, IntervalError};

fn naive_overlap_counts(starts: &[i32], ends: &[i32]) -> Vec<usize> {
    let mut counts = vec![0; starts.len()];
    for (i, count) in counts.iter_mut().enumerate() {
        for j in 0..starts.len() {
            if i != j
                && starts[i] < ends[i]
                && starts[j] < ends[j]
                && starts[i] < ends[j]
                && starts[j] < ends[i]
            {
                *count += 1;
            }
        }
    }
    counts
}

fn assert_counts(starts: &[i32], ends: &[i32], expected: &[usize]) {
    assert_eq!(naive_overlap_counts(starts, ends), expected);
    assert_eq!(overlap_counts(starts, ends).unwrap(), expected);
}

#[test]
fn empty_input() {
    assert_counts(&[], &[], &[]);
}

#[test]
fn one_interval() {
    assert_counts(&[1], &[3], &[0]);
}

#[test]
fn disjoint_intervals() {
    assert_counts(&[1, 4, 7], &[2, 5, 8], &[0, 0, 0]);
}

#[test]
fn touching_intervals() {
    assert_counts(&[1, 3, 5], &[3, 5, 7], &[0, 0, 0]);
}

#[test]
fn partially_overlapping_intervals() {
    assert_counts(&[1, 3, 5], &[4, 6, 8], &[1, 2, 1]);
}

#[test]
fn nested_intervals() {
    assert_counts(&[0, 1, 2, 6], &[10, 5, 3, 9], &[3, 2, 2, 1]);
}

#[test]
fn identical_intervals() {
    assert_counts(&[1, 1, 1], &[4, 4, 4], &[2, 2, 2]);
}

#[test]
fn shared_starts() {
    assert_counts(&[1, 1, 1, 3], &[2, 4, 6, 5], &[2, 3, 3, 2]);
}

#[test]
fn shared_ends() {
    assert_counts(&[1, 3, 5, 0], &[6, 6, 6, 2], &[3, 2, 2, 1]);
}

#[test]
fn empty_intervals() {
    assert_counts(&[1, 1, 3], &[1, 1, 3], &[0, 0, 0]);
}

#[test]
fn empty_intervals_inside_and_at_boundaries() {
    assert_counts(&[0, 0, 2, 4, 1], &[4, 0, 2, 4, 3], &[1, 0, 0, 0, 1]);
}

#[test]
fn preserves_input_order() {
    assert_counts(&[8, 3, 0, 1], &[9, 5, 10, 2], &[1, 1, 3, 1]);
}

#[test]
fn extreme_endpoints() {
    assert_counts(
        &[i32::MIN, i32::MIN, 0, i32::MAX],
        &[i32::MAX, 0, i32::MAX, i32::MAX],
        &[2, 1, 1, 0],
    );
}

#[test]
fn nonnumeric_endpoints() {
    assert_eq!(
        overlap_counts(&['a', 'c', 'd'], &['d', 'f', 'd']),
        Ok(vec![1, 1, 0])
    );
}

#[test]
fn rejects_invalid_intervals() {
    assert_eq!(
        overlap_counts(&[2], &[1]),
        Err(IntervalError::InvalidInterval { index: 0 })
    );
    assert_eq!(
        overlap_counts(&[0, 3, 4], &[0, 2, 1]),
        Err(IntervalError::InvalidInterval { index: 1 })
    );
}

#[test]
fn rejects_mismatched_lengths() {
    for (starts, ends) in [(&[1][..], &[][..]), (&[][..], &[1][..])] {
        assert_eq!(
            overlap_counts(starts, ends),
            Err(IntervalError::LengthMismatch {
                starts_len: starts.len(),
                ends_len: ends.len(),
            })
        );
    }
}

#[test]
fn exhaustive_small_collections_match_naive() {
    let intervals: Vec<_> = (-1..=2)
        .flat_map(|start| (start..=2).map(move |end| (start, end)))
        .collect();
    for len in 0..=5u32 {
        for mut code in 0..intervals.len().pow(len) {
            let mut starts = Vec::new();
            let mut ends = Vec::new();
            for _ in 0..len {
                let (start, end) = intervals[code % intervals.len()];
                code /= intervals.len();
                starts.push(start);
                ends.push(end);
            }
            assert_eq!(
                overlap_counts(&starts, &ends).unwrap(),
                naive_overlap_counts(&starts, &ends),
                "starts={starts:?}, ends={ends:?}"
            );
        }
    }
}

#[test]
fn readme_example_counts() {
    assert_eq!(overlap_counts(&[1, 3, 2, 2], &[3, 5, 4, 2]), Ok(vec![1, 1, 2, 0]));
}

#[test]
fn overlap_is_mutual_and_empty_rows_count_zero() {
    let starts = [0, 2, 2, 4, 7, 1, 3];
    let ends = [5, 2, 6, 4, 9, 8, 3];
    let counts = overlap_counts(&starts, &ends).unwrap();
    // Each overlapping pair is counted from both sides.
    assert_eq!(counts.iter().sum::<usize>() % 2, 0);
    for (i, (&s, &e)) in starts.iter().zip(&ends).enumerate() {
        if s == e {
            assert_eq!(counts[i], 0);
        }
    }
    assert_eq!(counts, naive_overlap_counts(&starts, &ends));
}

#[test]
fn order_preserving_relabeling_keeps_counts() {
    let starts = [1, 3, 2, 2, 0];
    let ends = [3, 5, 4, 2, 9];
    let relabel = |x: i32| i64::from(x) * 1000 - 5;
    let counts = overlap_counts(&starts, &ends).unwrap();
    let relabeled = overlap_counts(&starts.map(relabel), &ends.map(relabel)).unwrap();
    assert_eq!(counts, relabeled);
    assert_eq!(counts, [2, 2, 3, 0, 3]);
}
