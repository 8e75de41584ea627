use gaussian_integral::simpson::simpson_intervals;
use gaussian_integral::simpson::simpson_weight;

#[test]
fn even_counts_are_kept() {
    assert_eq!(simpson_intervals(0), 0);
    assert_eq!(simpson_intervals(2), 2);
    assert_eq!(simpson_intervals(200), 200);
}

#[test]
fn odd_counts_are_rounded_up() {
    assert_eq!(simpson_intervals(1), 2);
    assert_eq!(simpson_intervals(51), 52);
    assert_eq!(simpson_intervals(usize::MAX - 2), usize::MAX - 1);
}

#[test]
fn weights_follow_the_one_four_two_pattern() {
    let n = 6;
    let w: Vec<u32> = (0..=n).map(|i| simpson_weight(i, n)).collect();
    assert_eq!(w, vec![1, 4, 2, 4, 2, 4, 1]);
}

#[test]
fn single_interval_pair_weights() {
    let w: Vec<u32> = (0..=2).map(|i| simpson_weight(i, 2)).collect();
    assert_eq!(w, vec![1, 4, 1]);
}

#[test]
fn zero_intervals_weight_is_one() {
    assert_eq!(simpson_weight(0, 0), 1);
}

#[test]
fn weights_total_three_n() {
    for n in (2..=300usize).step_by(2) {
        let total: u64 = (0..=n).map(|i| simpson_weight(i, n) as u64).sum();
        assert_eq!(total, 3 * n as u64);
    }
}

#[test]
fn weights_integrate_cubics_exactly() {
    for n in (2..=60i128).step_by(2) {
        let moment = |k: u32| -> i128 {
            (0..=n).map(|i| simpson_weight(i as usize, n as usize) as i128 * i.pow(k)).sum()
        };
        assert_eq!(moment(0), 3 * n);
        assert_eq!(2 * moment(1), 3 * n * n);
        assert_eq!(moment(2), n * n * n);
        assert_eq!(4 * moment(3), 3 * n * n * n * n);
    }
}

#[test]
fn weights_are_symmetric() {
    let n = 10;
    for i in 0..=n {
        assert_eq!(simpson_weight(i, n), simpson_weight(n - i, n));
    }
}

#[test]
fn gaussian_integral_is_close_to_sqrt_pi() {
    let limit = 5.0f32;
    let n = simpson_intervals(199);
    let a = -limit;
    let b = limit;
    let h = (b - a) / n as f32;
    let mut sum = (-a * a).exp() * simpson_weight(0, n) as f32 + (-b * b).exp() * simpson_weight(n, n) as f32;
    for i in 1..n {
        let x = a + i as f32 * h;
        sum += simpson_weight(i, n) as f32 * (-x * x).exp();
    }
    let integral = sum * h / 3.0;
    assert!((integral - std::f32::consts::PI.sqrt()).abs() < 1e-4);
}
