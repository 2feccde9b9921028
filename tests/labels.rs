use quant_features::labels::{
    calculate_labels, calculate_labels_fixed_horizon, calculate_price_path_return, get_label, get_slice_range, horizontal_barriers, triple_barrier_label,
    LabelError, SliceRangeError, TripleBarrierLabels, RETURN_SCALE,
};

/// A return written as a decimal, in fixed-point units.
fn fx(x: f64) -> i128 {
    (x * RETURN_SCALE as f64).round() as i128
}

fn fx_path(xs: &[f64]) -> Vec<i128> {
    xs.iter().map(|&x| fx(x)).collect()
}

/// A fixed-point return lies within one unit of the decimal one.
fn assert_ret(actual: i128, expected: f64) {
    let scaled = expected * RETURN_SCALE as f64;
    assert!(
        (actual as f64 - scaled).abs() <= 1.0,
        "return {} is not {}",
        actual,
        expected
    );
}

fn labels_of(result: Result<TripleBarrierLabels, LabelError>) -> TripleBarrierLabels {
    match result {
        Ok(l) => l,
        Err(e) => panic!("labeling failed: {:?}", e),
    }
}

#[test]
fn test_get_slice_range_normal() {
    let data = vec![1, 2, 3, 4, 5];
    assert_eq!(get_slice_range(&data, 2, 4), Ok((1, 4)));
}

#[test]
fn test_get_slice_range_same_start_end() {
    let data = vec![1, 2, 3, 4, 5];
    assert_eq!(get_slice_range(&data, 3, 3), Ok((2, 3)));
}

#[test]
fn test_get_slice_range_full_range() {
    let data = vec![1, 2, 3, 4, 5];
    assert_eq!(get_slice_range(&data, 1, 5), Ok((0, 5)));
    assert_eq!(data[0..5], [1, 2, 3, 4, 5]);
}

#[test]
fn test_get_slice_range_start_not_found() {
    let data = vec![1, 2, 3, 4, 5];
    assert_eq!(
        get_slice_range(&data, 0, 4).map_err(|e| e.message()),
        Err("Start index 0 not found in index".to_string())
    );
}

#[test]
fn test_get_slice_range_end_not_found() {
    let data = vec![1, 2, 3, 4, 5];
    assert_eq!(
        get_slice_range(&data, 2, 6).map_err(|e| e.message()),
        Err("End index 6 not found in index".to_string())
    );
}

#[test]
fn test_get_slice_range_both_not_found() {
    let data = vec![1, 2, 3, 4, 5];
    assert_eq!(
        get_slice_range(&data, 0, 6).map_err(|e| e.message()),
        Err("Both start index 0 and end index 6 not found in index".to_string())
    );
}

#[test]
fn test_get_slice_range_empty_vector() {
    let data: Vec<i64> = vec![];
    assert_eq!(
        get_slice_range(&data, 1, 2).map_err(|e| e.message()),
        Err("Both start index 1 and end index 2 not found in index".to_string())
    );
}

#[test]
fn slice_range_errors_carry_the_keys() {
    let data = vec![1, 2, 3];
    assert_eq!(get_slice_range(&data, 9, 2), Err(SliceRangeError::StartNotFound(9)));
    assert_eq!(get_slice_range(&data, 1, 9), Err(SliceRangeError::EndNotFound(9)));
    assert_eq!(get_slice_range(&data, 8, 9), Err(SliceRangeError::BothNotFound(8, 9)));
}

#[test]
fn slice_range_uses_first_occurrence() {
    let data = vec![7, 3, 7, 3];
    assert_eq!(get_slice_range(&data, 7, 3), Ok((0, 2)));
}

#[test]
fn test_calculate_price_path_return_normal() {
    let prices = vec![1, 2, 3];
    assert_eq!(calculate_price_path_return(prices), vec![fx(0.0), fx(1.0), fx(2.0)]);
}

#[test]
fn test_calculate_price_path_return_single_price() {
    let prices = vec![1];
    assert_eq!(calculate_price_path_return(prices), vec![fx(0.0)]);
}

#[test]
fn test_calculate_price_path_return_decreasing_prices() {
    let prices = vec![3, 2, 1];
    let result = calculate_price_path_return(prices);
    let expected = vec![0.0, -1.0 / 3.0, -2.0 / 3.0];
    for (r, e) in result.iter().zip(expected.iter()) {
        let got = *r as f64 / RETURN_SCALE as f64;
        assert!((got - e).abs() <= 1e-5 * e.abs().max(got.abs()));
    }
}

#[test]
fn price_path_return_rounds_down() {
    // -1/3 is -33333333.33 units; rounding down gives -33333334
    assert_eq!(calculate_price_path_return(vec![3, 2]), vec![0, -33_333_334]);
    // 1/3 is 33333333.33 units
    assert_eq!(calculate_price_path_return(vec![3, 4]), vec![0, 33_333_333]);
}

#[test]
fn test_get_label_profit_taking() {
    let returns = fx_path(&[0.0, 0.1, 0.2, 0.3]);
    let label = get_label(&returns, Some(fx(0.25)), Some(fx(-0.1)), false, None);
    assert_eq!(label.label, Some(1));
    assert_eq!(label.barrier_touch, 3);
    assert_eq!(label.ret, fx(0.3));
}

#[test]
fn test_get_label_stop_loss() {
    let returns = fx_path(&[0.0, -0.05, -0.1, -0.15]);
    let label = get_label(&returns, Some(fx(0.2)), Some(fx(-0.1)), false, None);
    assert_eq!(label.label, Some(-1));
    assert_eq!(label.barrier_touch, 2);
    assert_eq!(label.ret, fx(-0.1));
}

#[test]
fn test_get_label_no_barrier_touch_zero_vertical() {
    let returns = fx_path(&[0.0, 0.05, 0.08, 0.09]);
    let label = get_label(&returns, Some(fx(0.1)), Some(fx(-0.1)), true, None);
    assert_eq!(label.label, Some(0));
    assert_eq!(label.barrier_touch, 3);
    assert_eq!(label.ret, fx(0.09));
}

#[test]
fn test_get_label_no_barrier_touch_non_zero_vertical() {
    let returns = fx_path(&[0.0, 0.05, 0.08, 0.09]);
    let label = get_label(&returns, Some(fx(0.1)), Some(fx(-0.1)), false, None);
    assert_eq!(label.label, Some(1));
    assert_eq!(label.barrier_touch, 3);
    assert_eq!(label.ret, fx(0.09));
}

#[test]
fn test_get_label_only_profit_taking() {
    let returns = fx_path(&[0.0, 0.1, 0.2, 0.3]);
    let label = get_label(&returns, Some(fx(0.25)), None, false, None);
    assert_eq!(label.label, Some(1));
    assert_eq!(label.barrier_touch, 3);
    assert_eq!(label.ret, fx(0.3));
}

#[test]
fn test_get_label_only_stop_loss() {
    let returns = fx_path(&[0.0, -0.05, -0.1, -0.15]);
    let label = get_label(&returns, None, Some(fx(-0.1)), false, None);
    assert_eq!(label.label, Some(-1));
    assert_eq!(label.barrier_touch, 2);
    assert_eq!(label.ret, fx(-0.1));
}

#[test]
fn test_get_label_no_barriers() {
    let returns = fx_path(&[0.0, 0.05, -0.05, 0.1]);
    let label = get_label(&returns, None, None, false, None);
    assert_eq!(label.label, Some(1));
    assert_eq!(label.barrier_touch, 3);
    assert_eq!(label.ret, fx(0.1));
}

#[test]
fn test_get_label_touches_pt_then_sl() {
    let returns = fx_path(&[0.0, 0.1, -0.1, -0.15]);
    let label = get_label(&returns, Some(fx(0.1)), Some(fx(-0.1)), false, None);
    assert_eq!(label.label, Some(1));
    assert_eq!(label.barrier_touch, 1);
    assert_eq!(label.ret, fx(0.1));
}

#[test]
fn test_get_label_touches_sl_then_pt() {
    let returns = fx_path(&[0.0, -0.1, 0.1, -0.15]);
    let label = get_label(&returns, Some(fx(0.1)), Some(fx(-0.1)), false, None);
    assert_eq!(label.label, Some(-1));
    assert_eq!(label.barrier_touch, 1);
    assert_eq!(label.ret, fx(-0.1));
}

#[test]
fn labeler_priority_with_zero_deadband() {
    let returns = fx_path(&[0.0, 0.1, 0.2, 0.3]);
    let label = get_label(&returns, Some(fx(0.25)), Some(fx(-0.1)), false, Some(0));
    assert_eq!(label.label, Some(1));
    assert_eq!(label.barrier_touch, 3);
    assert_eq!(label.ret, fx(0.3));
}

#[test]
fn labeler_tie_at_one_index_goes_to_stop_loss() {
    // a degenerate pair of barriers that the same return reaches
    let returns = fx_path(&[0.0, 0.05]);
    let label = get_label(&returns, Some(fx(0.0)), Some(fx(0.1)), false, None);
    assert_eq!(label.label, Some(-1));
    assert_eq!(label.barrier_touch, 0);
}

#[test]
fn deadband_blocks_small_touches() {
    let returns = fx_path(&[0.0, 0.02, 0.06, 0.01]);
    // 0.02 reaches the barrier but not the deadband of 0.05
    let label = get_label(&returns, Some(fx(0.02)), None, false, Some(fx(0.05) as u64));
    assert_eq!(label.label, Some(1));
    assert_eq!(label.barrier_touch, 2);
}

#[test]
fn vertical_expiry_inside_deadband() {
    let returns = fx_path(&[0.0, 0.01, -0.01, 0.02]);
    let min = Some(fx(0.03) as u64);
    let signed = get_label(&returns, Some(fx(0.1)), Some(fx(-0.1)), false, min);
    assert_eq!(signed.label, None);
    assert_eq!(signed.barrier_touch, 3);
    assert_eq!(signed.ret, fx(0.02));
    let neutral = get_label(&returns, Some(fx(0.1)), Some(fx(-0.1)), true, min);
    assert_eq!(neutral.label, Some(0));
}

#[test]
fn vertical_expiry_outside_deadband_keeps_sign() {
    let returns = fx_path(&[0.0, -0.01, -0.04]);
    let label = get_label(&returns, Some(fx(0.1)), Some(fx(-0.1)), false, Some(fx(0.03) as u64));
    assert_eq!(label.label, Some(-1));
    assert_eq!(label.barrier_touch, 2);
}

#[test]
fn test_calculate_labels_basic() {
    let index = vec![1, 2, 3, 4, 5];
    let prices = vec![100, 101, 102, 103, 104];
    let profit_taking = vec![Some(fx(0.02)); 5];
    let stop_loss = vec![Some(fx(-0.01)); 5];
    let vertical_barriers = vec![Some(5), Some(5), Some(5), None, None];
    let validity_mask = vec![true; 5];
    let zero_vertical_barrier = false;

    let result = labels_of(calculate_labels(
        index,
        prices,
        profit_taking,
        stop_loss,
        vertical_barriers,
        validity_mask,
        zero_vertical_barrier,
        None,
    ));

    let expected = vec![
        102.0 / 100.0 - 1.0,
        104.0 / 101.0 - 1.0,
        104.0 / 102.0 - 1.0,
        104.0 / 103.0 - 1.0,
        0.0,
    ];
    assert_eq!(result.rets.len(), expected.len());
    for (r, e) in result.rets.iter().zip(expected.iter()) {
        assert_ret(*r, *e);
    }
    assert_eq!(result.labels, vec![Some(1), Some(1), Some(1), Some(1), Some(1)]);
    assert_eq!(result.barrier_touches, vec![2, 4, 4, 4, 4]);
}

#[test]
fn test_calculate_labels_with_zero_vertical_barrier() {
    let index = vec![1, 2, 3, 4, 5];
    let prices = vec![100, 99, 98, 97, 96];
    let profit_taking = vec![Some(fx(0.02)); 5];
    let stop_loss = vec![Some(fx(-0.01)); 5];
    let vertical_barriers = vec![Some(5); 5];
    let validity_mask = vec![true; 5];
    let zero_vertical_barrier = true;

    let result = labels_of(calculate_labels(
        index,
        prices,
        profit_taking,
        stop_loss,
        vertical_barriers,
        validity_mask,
        zero_vertical_barrier,
        None,
    ));

    let expected = vec![
        99.0 / 100.0 - 1.0,
        98.0 / 99.0 - 1.0,
        97.0 / 98.0 - 1.0,
        96.0 / 97.0 - 1.0,
        0.0,
    ];
    assert_eq!(result.rets.len(), expected.len());
    for (r, e) in result.rets.iter().zip(expected.iter()) {
        assert_ret(*r, *e);
    }
    assert_eq!(result.labels, vec![Some(-1), Some(-1), Some(-1), Some(-1), Some(0)]);
    assert_eq!(result.barrier_touches, vec![1, 2, 3, 4, 4]);
}

#[test]
fn test_calculate_labels_with_mixed_barriers() {
    let index = vec![1, 2, 3, 4, 5];
    let prices = vec![100, 102, 99, 103, 101];
    let profit_taking = vec![Some(fx(0.03)), Some(fx(0.02)), None, Some(fx(0.01)), Some(fx(0.02))];
    let stop_loss = vec![Some(fx(-0.02)), None, Some(fx(-0.01)), Some(fx(-0.02)), Some(fx(-0.01))];
    let vertical_barriers = vec![Some(3), Some(4), None, Some(5), None];
    let validity_mask = vec![true, true, false, true, true];
    let zero_vertical_barrier = false;

    let result = labels_of(calculate_labels(
        index,
        prices,
        profit_taking,
        stop_loss,
        vertical_barriers,
        validity_mask,
        zero_vertical_barrier,
        None,
    ));

    assert_eq!(result.rets.len(), 5);
    assert_eq!(result.labels.len(), 5);
    assert_eq!(result.barrier_touches.len(), 5);
    assert_eq!(result.labels[2], Some(0)); // Invalid due to validity_mask
}

#[test]
fn test_calculate_labels_no_barriers_hit() {
    let index = vec![1, 2, 3, 4, 5];
    // prices in ticks of 0.1: 100.0, 101.0, 100.5, 101.5, 102.0
    let prices = vec![1000, 1010, 1005, 1015, 1020];
    let profit_taking = vec![Some(fx(0.05)); 5];
    let stop_loss = vec![Some(fx(-0.05)); 5];
    let vertical_barriers = vec![None; 5];
    let validity_mask = vec![true; 5];
    let zero_vertical_barrier = false;

    let result = labels_of(calculate_labels(
        index,
        prices,
        profit_taking,
        stop_loss,
        vertical_barriers,
        validity_mask,
        zero_vertical_barrier,
        None,
    ));

    assert!(result.rets.iter().all(|&r| r >= 0));
    assert!(result.labels.iter().all(|&l| l == Some(1)));
    assert_eq!(result.barrier_touches, vec![4, 4, 4, 4, 4]);
}

#[test]
fn test_calculate_labels_empty_input() {
    let result = labels_of(calculate_labels(
        vec![],
        vec![],
        vec![],
        vec![],
        vec![],
        vec![],
        false,
        None,
    ));

    assert!(result.rets.is_empty());
    assert!(result.labels.is_empty());
    assert!(result.barrier_touches.is_empty());
}

#[test]
fn test_calculate_labels_all_invalid() {
    let index = vec![1, 2, 3];
    let prices = vec![100, 101, 102];
    let profit_taking = vec![Some(fx(0.02)); 3];
    let stop_loss = vec![Some(fx(-0.01)); 3];
    let vertical_barriers = vec![Some(3); 3];
    let validity_mask = vec![false; 3];
    let zero_vertical_barrier = false;

    let result = labels_of(calculate_labels(
        index,
        prices,
        profit_taking,
        stop_loss,
        vertical_barriers,
        validity_mask,
        zero_vertical_barrier,
        None,
    ));

    assert_eq!(result.rets, vec![0, 0, 0]);
    assert_eq!(result.labels, vec![Some(0), Some(0), Some(0)]);
    assert_eq!(result.barrier_touches, vec![0, 0, 0]);
}

#[test]
fn calculate_labels_missing_horizon_key_fails() {
    let result = calculate_labels(
        vec![1, 2, 3],
        vec![100, 101, 102],
        vec![None; 3],
        vec![None; 3],
        vec![None, Some(9), None],
        vec![true; 3],
        false,
        None,
    );
    assert!(matches!(
        result,
        Err(LabelError::Lookup(SliceRangeError::EndNotFound(9)))
    ));
}

#[test]
fn calculate_labels_horizon_before_start_fails() {
    let result = calculate_labels(
        vec![1, 2, 3],
        vec![100, 101, 102],
        vec![None; 3],
        vec![None; 3],
        vec![None, None, Some(1)],
        vec![true; 3],
        false,
        None,
    );
    assert!(matches!(result, Err(LabelError::EmptyWindow(3, 1))));
}

#[test]
fn invalid_rows_skip_horizon_lookup() {
    let result = labels_of(calculate_labels(
        vec![1, 2],
        vec![100, 101],
        vec![None; 2],
        vec![None; 2],
        vec![Some(9), None],
        vec![false, true],
        false,
        None,
    ));
    assert_eq!(result.labels, vec![Some(0), Some(1)]);
}

#[test]
fn null_index_fails_before_labeling() {
    let result = triple_barrier_label(
        vec![Some(1), None],
        vec![None, Some(100)],
        vec![None; 2],
        vec![None; 2],
        vec![None; 2],
        vec![true; 2],
        false,
        None,
    );
    assert!(matches!(result, Err(LabelError::NullIndex)));
}

#[test]
fn null_price_fails_before_labeling() {
    let result = triple_barrier_label(
        vec![Some(1), Some(2)],
        vec![Some(100), None],
        vec![None; 2],
        vec![None; 2],
        vec![Some(9), None],
        vec![true; 2],
        false,
        None,
    );
    assert!(matches!(result, Err(LabelError::NullPrice)));
}

#[test]
fn zero_price_is_rejected() {
    let result = triple_barrier_label(
        vec![Some(1), Some(2)],
        vec![Some(100), Some(0)],
        vec![None; 2],
        vec![None; 2],
        vec![None; 2],
        vec![true; 2],
        false,
        None,
    );
    assert!(matches!(result, Err(LabelError::ZeroPrice)));
}

#[test]
fn complete_columns_are_labeled() {
    let result = labels_of(triple_barrier_label(
        vec![Some(1), Some(2), Some(3)],
        vec![Some(100), Some(110), Some(90)],
        vec![Some(fx(0.05)); 3],
        vec![Some(fx(-0.05)); 3],
        vec![Some(3), None, None],
        vec![true; 3],
        false,
        None,
    ));
    assert_eq!(result.labels, vec![Some(1), Some(-1), Some(1)]);
    assert_eq!(result.barrier_touches, vec![1, 2, 2]);
    assert_eq!(result.rets, vec![fx(0.1), -18_181_819, 0]);
}

#[test]
fn new_label_columns_are_empty() {
    let a = TripleBarrierLabels::new();
    let b = TripleBarrierLabels::new_with_capacity(8);
    assert!(a.rets.is_empty() && a.labels.is_empty() && a.barrier_touches.is_empty());
    assert!(b.rets.is_empty() && b.labels.is_empty() && b.barrier_touches.is_empty());
}

#[test]
fn fixed_horizon_windows_look_ahead() {
    let prices = vec![100, 101, 99, 104, 100];
    let result = calculate_labels_fixed_horizon(
        prices.clone(),
        vec![Some(fx(0.02)); 5],
        vec![Some(fx(-0.015)); 5],
        2,
        vec![true; 5],
        false,
        None,
    );
    assert_eq!(result.labels, vec![Some(-1), Some(-1), Some(1), Some(-1), Some(1)]);
    assert_eq!(result.barrier_touches, vec![2, 2, 3, 4, 4]);
    assert_eq!(result.rets[0], fx(-0.01));

    let unbounded = calculate_labels_fixed_horizon(
        prices,
        vec![None; 5],
        vec![None; 5],
        usize::MAX,
        vec![true, false, true, true, true],
        true,
        None,
    );
    assert_eq!(unbounded.barrier_touches, vec![4, 0, 4, 4, 4]);
    assert_eq!(unbounded.labels, vec![Some(0); 5]);
}

#[test]
fn barriers_scale_with_width() {
    let widths = vec![Some(fx(0.01) as i64), None, Some(-1), Some(1)];
    assert_eq!(
        horizontal_barriers(Some(fx(2.0) as i64), &widths),
        vec![Some(fx(0.02)), None, Some(-2), Some(2)]
    );
    // products are rounded down
    assert_eq!(horizontal_barriers(Some(1), &vec![Some(1)]), vec![Some(0)]);
    assert_eq!(horizontal_barriers(Some(-1), &vec![Some(1)]), vec![Some(-1)]);
    // no rate, no barrier
    assert_eq!(horizontal_barriers(None, &widths), vec![None; 4]);
    let extreme = horizontal_barriers(Some(i64::MIN), &vec![Some(i64::MIN), Some(i64::MAX)]);
    assert_eq!(extreme[0], Some((1i128 << 126) / RETURN_SCALE));
    assert_eq!(extreme[1], Some((i64::MIN as i128 * i64::MAX as i128).div_euclid(RETURN_SCALE)));
}
