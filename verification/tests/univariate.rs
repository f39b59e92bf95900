use sumcheck_arguments::field::Scalar;
use sumcheck_arguments::univariate::eval_ule;

fn scalars(values: &[u64]) -> Vec<Scalar> {
    values.iter().map(|&v| Scalar::from_u64(v)).collect()
}

#[test]
fn test_ule() {
    let points = vec![Scalar::from_u64(0), Scalar::from_u64(1), Scalar::from_u64(4)];
    assert_eq!(eval_ule(&points, Scalar::from_u64(1)), Scalar::from_u64(1));
    assert_eq!(eval_ule(&points, Scalar::from_u64(3)), Scalar::from_u64(9))
}

#[test]
fn ule_returns_each_point_at_its_node() {
    let points = scalars(&[7, 3, 19, 2, 11]);
    for k in 0..points.len() {
        assert_eq!(eval_ule(&points, Scalar::from_u64(k as u64)), points[k]);
    }
}

#[test]
fn ule_follows_a_cubic_beyond_its_nodes() {
    // x^3 + 2x + 5 at 0, 1, 2, 3
    let points = scalars(&[5, 8, 17, 38]);
    assert_eq!(eval_ule(&points, Scalar::from_u64(4)), Scalar::from_u64(77));
    assert_eq!(eval_ule(&points, Scalar::from_u64(10)), Scalar::from_u64(1025));
}

#[test]
fn ule_of_a_line_at_minus_one() {
    // 3x + 4 at 0 and 1, evaluated at -1
    let points = scalars(&[4, 7]);
    let minus_one = Scalar::from_u64(1).neg();
    assert_eq!(eval_ule(&points, minus_one), Scalar::from_u64(1));
}

#[test]
fn ule_of_a_single_point_is_constant() {
    let points = scalars(&[42]);
    assert_eq!(eval_ule(&points, Scalar::from_u64(0)), Scalar::from_u64(42));
    assert_eq!(eval_ule(&points, Scalar::from_u64(1000)), Scalar::from_u64(42));
}

#[test]
fn ule_reads_a_point_off_only_at_a_small_integer() {
    // x^2 at 0, 1, 2; the low limb of the argument is 1, its value is not
    let points = scalars(&[0, 1, 4]);
    let r = Scalar::from_limbs([1, 1, 0, 0]).unwrap();
    assert_eq!(eval_ule(&points, r), r.mul(&r));
    let minus_two = Scalar::from_u64(2).neg();
    assert_eq!(eval_ule(&points, minus_two), Scalar::from_u64(4));
}

#[test]
fn ule_just_past_the_last_node() {
    // x^2 + 1 at 0, 1, 2, evaluated at 3
    let points = scalars(&[1, 2, 5]);
    assert_eq!(eval_ule(&points, Scalar::from_u64(3)), Scalar::from_u64(10));
}
