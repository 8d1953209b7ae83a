use wave_collapse::{slice_into_patterns, GenerationError, MultiVec, Pattern};

fn grid(rows: &[&[i32]]) -> MultiVec<i32> {
    let h = rows.len();
    let w = rows[0].len();
    let data: Vec<i32> = rows.iter().flat_map(|r| r.iter().copied()).collect();
    MultiVec::from_data(data, w, h)
}

fn defs(ps: &[Pattern]) -> Vec<([i32; 4], usize)> {
    ps.iter().map(|p| (p.flat_definition, p.occurrences)).collect()
}

#[test]
fn two_by_two_grid_is_one_pattern() {
    let ps = slice_into_patterns(grid(&[&[0, 1], &[1, 0]]), 2).unwrap();
    assert_eq!(defs(&ps), vec![([0, 1, 1, 0], 1)]);
}

#[test]
fn windows_touching_an_empty_corner_are_skipped() {
    let ps = slice_into_patterns(grid(&[&[-1, 0, 0], &[0, 0, 0], &[0, 0, 0]]), 2).unwrap();
    assert_eq!(defs(&ps), vec![([0, 0, 0, 0], 3)]);
    let ps = slice_into_patterns(grid(&[&[0, 0, 0], &[0, 0, 0], &[0, 0, -1]]), 2).unwrap();
    assert_eq!(defs(&ps), vec![([0, 0, 0, 0], 3)]);
}

#[test]
fn patterns_in_order_of_first_occurrence_with_counts() {
    let ps = slice_into_patterns(grid(&[&[1, 2, 1], &[3, 4, 3], &[1, 2, 1]]), 2).unwrap();
    assert_eq!(
        defs(&ps),
        vec![([1, 2, 3, 4], 1), ([2, 1, 4, 3], 1), ([3, 4, 1, 2], 1), ([4, 3, 2, 1], 1)]
    );
    let ps = slice_into_patterns(grid(&[&[5, 5, 5, 5], &[5, 5, 5, 5]]), 2).unwrap();
    assert_eq!(defs(&ps), vec![([5, 5, 5, 5], 3)]);
}

#[test]
fn probabilities_sum_to_one() {
    let ps = slice_into_patterns(grid(&[&[0, 0, 1, 1], &[0, 0, 1, 1], &[1, 1, 0, 0], &[2, 1, 0, 0]]), 2).unwrap();
    let total: usize = ps.iter().map(|p| p.occurrences).sum();
    assert_eq!(total, 9);
    let sum: f64 = ps.iter().map(|p| p.occurrences as f64 / total as f64).sum();
    assert!((sum - 1.0).abs() < 1e-6);
    for (i, a) in ps.iter().enumerate() {
        assert!(a.occurrences >= 1);
        for b in &ps[i + 1..] {
            assert_ne!(a.flat_definition, b.flat_definition);
        }
    }
}

#[test]
fn no_usable_window_is_malformed() {
    assert_eq!(
        slice_into_patterns(grid(&[&[-1, -1], &[-1, -1]]), 2).unwrap_err(),
        GenerationError::MalformedTrainingData
    );
    assert_eq!(
        slice_into_patterns(grid(&[&[0, 1, 2]]), 2).unwrap_err(),
        GenerationError::MalformedTrainingData
    );
    assert_eq!(
        slice_into_patterns(grid(&[&[0, -1], &[1, 2]]), 2).unwrap_err(),
        GenerationError::MalformedTrainingData
    );
}

#[test]
fn pattern_new_keeps_its_fields() {
    let p = Pattern::new([1, 2, 3, 4], 7);
    assert_eq!(p.flat_definition, [1, 2, 3, 4]);
    assert_eq!(p.occurrences, 7);
}
