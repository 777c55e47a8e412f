use gh_univiewer::vector_of_leds;

#[test]
fn test_vector_of_leds() {
    let cases: Vec<(Vec<u32>, Vec<u64>)> = vec![
        (vec![0, 1, 3], vec![0, 4, 12]),
        (vec![62, 6, 4], vec![14, 1, 1]),
        (vec![14, 2, 3], vec![12, 1, 3]),
        (vec![0, 5], vec![0, 16]),
        (vec![47], vec![16]),
        (vec![0], vec![0]),
        (vec![0, 0], vec![0, 0]),
    ];
    for (input_vals, expected_counts) in cases {
        let result = vector_of_leds(input_vals.clone());
        assert_eq!(
            result, expected_counts,
            "vector_of_leds({:?}) -> {:?} (Expected: {:?})",
            input_vals, result, expected_counts
        );
    }
}

#[test]
fn quantized_length_matches_input() {
    for vals in [vec![], vec![3], vec![1, 2, 3, 4, 5], vec![0; 40]] {
        assert_eq!(vector_of_leds(vals.clone()).len(), vals.len());
    }
}

#[test]
fn quantized_sum_never_exceeds_capacity() {
    let inputs: Vec<Vec<u32>> = vec![
        vec![1; 32],
        vec![1; 17],
        vec![7, 7, 7, 7, 7, 7, 7],
        vec![u32::MAX, u32::MAX, 1],
        vec![14, 2, 3],
    ];
    for vals in inputs {
        let sum: u64 = vector_of_leds(vals.clone()).iter().sum();
        assert!(sum <= 16, "{:?} gave {}", vals, sum);
    }
}

#[test]
fn zero_total_gives_zeros() {
    assert_eq!(vector_of_leds(vec![0, 0, 0, 0]), vec![0, 0, 0, 0]);
    assert_eq!(vector_of_leds(vec![]), Vec::<u64>::new());
}

#[test]
fn single_positive_value_fills_the_column() {
    assert_eq!(vector_of_leds(vec![1]), vec![16]);
    assert_eq!(vector_of_leds(vec![u32::MAX]), vec![16]);
}

#[test]
fn rounding_goes_half_away_from_zero() {
    // 16 * 1 / 32 = 0.5 rounds to 1; 16 * 31 / 32 = 15.5 rounds to 16.
    // The overflow of one comes off the smallest share above 1.5: index 1.
    assert_eq!(vector_of_leds(vec![1, 31]), vec![1, 15]);
    // 16 * 3 / 32 = 1.5 rounds to 2, 16 * 29 / 32 = 14.5 rounds to 15.
    // 1.5 is not above 1.5, so the 14.5 share gives up the unit.
    assert_eq!(vector_of_leds(vec![3, 29]), vec![2, 14]);
}

#[test]
fn overflow_tie_goes_to_first_index() {
    // Shares 16 * 5 / 22 = 3.64 each for the first three, 16 * 7 / 22 = 5.09:
    // rounded 4, 4, 4, 5 = 17; the first of the equal smallest shares pays.
    assert_eq!(vector_of_leds(vec![5, 5, 5, 7]), vec![3, 4, 4, 5]);
}

#[test]
fn overflow_without_candidates_is_trimmed_from_largest() {
    // Seventeen equal shares of 0.94 all round to 1; none is above 1.5, so
    // the first entry gives up the extra unit.
    let mut expected = vec![1u64; 17];
    expected[0] = 0;
    assert_eq!(vector_of_leds(vec![1; 17]), expected);
    // Thirty-two shares of exactly 0.5 round to 1 each: sixteen come off, one
    // at a time from the first largest entry.
    let mut expected = vec![1u64; 32];
    for e in expected.iter_mut().take(16) {
        *e = 0;
    }
    assert_eq!(vector_of_leds(vec![1; 32]), expected);
}
