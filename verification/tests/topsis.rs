use topsis::{calculate, Alternative, TopsisError, SCALE};

/// A whole number in fixed-point nano units.
fn nano(x: i64) -> i64 {
    x * 1_000_000_000
}

fn ids(ranking: &[Alternative]) -> Vec<usize> {
    ranking.iter().map(|a| a.id).collect()
}

#[test]
fn it_ranks_correctly() {
    let result = calculate(
        &vec![643_390_000, 282_840_000, 73_770_000],
        &vec![true, true, true],
        &vec![
            nano(80),
            nano(70),
            nano(91),
            nano(90),
            nano(80),
            nano(71),
            nano(90),
            nano(78),
            nano(0),
            nano(1),
            nano(0),
            nano(4),
        ],
    )
    .unwrap();

    let rs: Vec<usize> = result.into_iter().map(|e| e.id).collect();

    assert_eq!(rs, &[3, 2, 0, 1]);
}

#[test]
fn worked_example_scores() {
    let result = calculate(
        &vec![643_390_000, 282_840_000, 73_770_000],
        &vec![true, true, true],
        &vec![
            nano(80),
            nano(70),
            nano(91),
            nano(90),
            nano(80),
            nano(71),
            nano(90),
            nano(78),
            nano(0),
            nano(1),
            nano(0),
            nano(4),
        ],
    )
    .unwrap();

    assert_eq!(ids(&result), vec![3, 2, 0, 1]);
    let expected = [831_200_000i64, 551_100_000, 329_400_000, 148_000_000];
    for (entry, want) in result.iter().zip(expected.iter()) {
        assert!((entry.value as i64 - want).abs() <= 100_000);
    }
}

#[test]
fn ranking_is_permutation() {
    let result = calculate(
        &vec![643_390_000, 282_840_000, 73_770_000],
        &vec![true, false, true],
        &vec![
            nano(80),
            nano(70),
            nano(91),
            nano(90),
            nano(80),
            nano(71),
            nano(90),
            nano(78),
            nano(3),
            nano(1),
            nano(7),
            nano(4),
        ],
    )
    .unwrap();

    let mut seen = ids(&result);
    seen.sort();
    assert_eq!(seen, vec![0, 1, 2, 3]);
}

#[test]
fn scores_within_unit_interval() {
    let result = calculate(
        &vec![nano(1) as u64, nano(2) as u64],
        &vec![true, false],
        &vec![nano(-1), nano(2), nano(9), nano(4), nano(1), nano(-6)],
    )
    .unwrap();

    for entry in &result {
        assert!(entry.value <= SCALE);
    }
}

#[test]
fn ranking_sorted_descending() {
    let result = calculate(
        &vec![nano(1) as u64, nano(2) as u64],
        &vec![true, false],
        &vec![nano(-1), nano(2), nano(9), nano(4), nano(1), nano(-6)],
    )
    .unwrap();

    for pair in result.windows(2) {
        assert!(pair[0].value >= pair[1].value);
    }
}

#[test]
fn single_criterion_direction_flip() {
    let column = vec![nano(5), nano(1), nano(3)];
    let benefit = calculate(&vec![SCALE], &vec![true], &column).unwrap();
    let cost = calculate(&vec![SCALE], &vec![false], &column).unwrap();

    assert_eq!(ids(&benefit), vec![0, 2, 1]);
    assert_eq!(ids(&cost), vec![1, 2, 0]);
    let mut reversed = ids(&cost);
    reversed.reverse();
    assert_eq!(ids(&benefit), reversed);
}

#[test]
fn zero_weight_column_removed() {
    let full = calculate(
        &vec![700_000_000, 0],
        &vec![true, true],
        &vec![nano(80), nano(70), nano(91), nano(5), nano(9), nano(2)],
    )
    .unwrap();
    let reduced = calculate(
        &vec![700_000_000],
        &vec![true],
        &vec![nano(80), nano(70), nano(91)],
    )
    .unwrap();

    assert_eq!(full, reduced);
}

#[test]
fn column_scaling_keeps_ranking() {
    let base = calculate(
        &vec![500_000_000, 500_000_000],
        &vec![true, true],
        &vec![nano(3), nano(4), nano(0), nano(2), nano(7), nano(5)],
    )
    .unwrap();
    let scaled = calculate(
        &vec![500_000_000, 500_000_000],
        &vec![true, true],
        &vec![nano(30), nano(40), nano(0), nano(2), nano(7), nano(5)],
    )
    .unwrap();

    assert_eq!(ids(&base), ids(&scaled));
}

#[test]
fn single_alternative_scores_half() {
    let result = calculate(
        &vec![SCALE, SCALE],
        &vec![true, false],
        &vec![nano(7), nano(3)],
    )
    .unwrap();

    assert_eq!(result.len(), 1);
    assert_eq!(result[0].id, 0);
    assert_eq!(result[0].value, SCALE / 2);
}

#[test]
fn shape_mismatch_error() {
    let result = calculate(&vec![SCALE, SCALE], &vec![true], &vec![nano(1), nano(2)]);
    assert_eq!(result, Err(TopsisError::ShapeMismatch));
}

#[test]
fn invalid_shape_no_criteria() {
    let result = calculate(&vec![], &vec![], &vec![nano(1), nano(2)]);
    assert_eq!(result, Err(TopsisError::InvalidShape));
}

#[test]
fn invalid_shape_not_divisible() {
    let result = calculate(
        &vec![SCALE, SCALE],
        &vec![true, true],
        &vec![nano(1), nano(2), nano(3)],
    );
    assert_eq!(result, Err(TopsisError::InvalidShape));
}

#[test]
fn invalid_shape_empty_matrix() {
    let result = calculate(&vec![SCALE], &vec![true], &vec![]);
    assert_eq!(result, Err(TopsisError::InvalidShape));
}

#[test]
fn degenerate_column_error() {
    let result = calculate(
        &vec![SCALE, SCALE],
        &vec![true, true],
        &vec![nano(1), nano(2), nano(0), nano(0)],
    );
    assert_eq!(result, Err(TopsisError::DegenerateColumn));
}

#[test]
fn ties_keep_row_order() {
    let result = calculate(
        &vec![SCALE],
        &vec![true],
        &vec![nano(5), nano(5), nano(2)],
    )
    .unwrap();

    assert_eq!(ids(&result), vec![0, 1, 2]);
    assert_eq!(result[0].value, result[1].value);
}

#[test]
fn cost_direction_prefers_smaller_values() {
    let result = calculate(
        &vec![SCALE, nano(2) as u64],
        &vec![true, false],
        &vec![nano(-1), nano(2), nano(4), nano(1)],
    )
    .unwrap();

    assert_eq!(ids(&result), vec![1, 0]);
}

#[test]
fn alternative_carries_value_and_id() {
    let a = Alternative::new(123, 7);
    assert_eq!(a.value, 123);
    assert_eq!(a.id, 7);
}
