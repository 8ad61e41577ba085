use lexrank_ndarray::ranking::{
    is_nan_bits, partial_order_key, rank_by_partial_order, rank_by_total_order, rank_descending,
    total_order_key,
};

fn bits(v: &[f32]) -> Vec<u32> {
    v.iter().map(|x| x.to_bits()).collect()
}

#[test]
fn total_order_key_orders_like_total_cmp() {
    let values = [
        f32::NEG_INFINITY,
        -1.5,
        -0.0,
        0.0,
        f32::MIN_POSITIVE,
        1.0,
        f32::INFINITY,
        f32::NAN,
    ];
    for a in values {
        for b in values {
            let by_key = total_order_key(a.to_bits()).cmp(&total_order_key(b.to_bits()));
            assert_eq!(by_key, a.total_cmp(&b));
        }
    }
    assert_eq!(total_order_key(0.0f32.to_bits()), 0);
    assert_eq!(total_order_key((-0.0f32).to_bits()), -1);
    assert_eq!(total_order_key(1.0f32.to_bits()), 0x3F80_0000);
}

#[test]
fn partial_order_key_orders_like_partial_cmp() {
    let values = [f32::NEG_INFINITY, -2.0, -0.0, 0.0, 0.25, 3.0, f32::INFINITY];
    for a in values {
        for b in values {
            let by_key = partial_order_key(a.to_bits()).cmp(&partial_order_key(b.to_bits()));
            assert_eq!(Some(by_key), a.partial_cmp(&b));
        }
    }
    assert_eq!(partial_order_key((-0.0f32).to_bits()), partial_order_key(0.0f32.to_bits()));
    assert_eq!(partial_order_key((-1.0f32).to_bits()), -0x3F80_0000);
}

#[test]
fn nan_patterns_are_recognised() {
    assert!(is_nan_bits(f32::NAN.to_bits()));
    assert!(is_nan_bits((-f32::NAN).to_bits()));
    assert!(!is_nan_bits(f32::INFINITY.to_bits()));
    assert!(!is_nan_bits(f32::NEG_INFINITY.to_bits()));
    assert!(!is_nan_bits(0.0f32.to_bits()));
}

#[test]
fn rank_descending_keeps_ties_in_index_order() {
    assert_eq!(rank_descending(&vec![3, 1, 3, 7, 1]), vec![3, 0, 2, 1, 4]);
    assert_eq!(rank_descending(&vec![]), Vec::<usize>::new());
    assert_eq!(rank_descending(&vec![-5]), vec![0]);
}

#[test]
fn rank_by_total_order_sorts_most_central_first() {
    let scores = [0.2f32, 0.5, 0.1, 0.5, 0.2];
    let order = rank_by_total_order(&bits(&scores));
    assert_eq!(order, vec![1, 3, 0, 4, 2]);
    // same result as a stable descending sort by total_cmp
    let mut expected: Vec<(usize, f32)> = scores.iter().copied().enumerate().collect();
    expected.sort_by(|a, b| b.1.total_cmp(&a.1));
    let got: Vec<usize> = expected.iter().map(|p| p.0).collect();
    assert_eq!(order, got);
}

#[test]
fn rank_by_total_order_puts_positive_zero_above_negative_zero() {
    let order = rank_by_total_order(&bits(&[-0.0, 0.0, f32::NAN, -1.0]));
    assert_eq!(order, vec![2, 1, 0, 3]);
}

#[test]
fn rank_by_partial_order_treats_signed_zeros_as_equal() {
    let order = rank_by_partial_order(&bits(&[-0.0, 0.0, 2.0, -1.0])).unwrap();
    assert_eq!(order, vec![2, 0, 1, 3]);
}

#[test]
fn rank_by_partial_order_refuses_nan_among_several() {
    assert_eq!(rank_by_partial_order(&bits(&[1.0, f32::NAN])), None);
    assert_eq!(rank_by_partial_order(&bits(&[f32::NAN])), Some(vec![0]));
    assert_eq!(rank_by_partial_order(&vec![]), Some(vec![]));
}
