use sumcheck_arguments::field::Scalar;
use sumcheck_arguments::multilinear::{
    chis, eval_chis, eval_eq, eval_mle, ilog2, pad_next_power_of_two, pad_with,
    set_variable_high, set_variable_low,
};

fn list(values: &[u64]) -> Vec<Scalar> {
    values.iter().map(|&v| Scalar::from_u64(v)).collect()
}

fn minus(value: u64) -> Scalar {
    Scalar::from_u64(value).neg()
}

#[test]
fn chis_of_no_variable_is_one() {
    assert_eq!(chis(&[]), list(&[1]));
}

#[test]
fn chis_of_one_variable() {
    // (1 - 5, 5)
    assert_eq!(chis(&list(&[5])), vec![minus(4), Scalar::from_u64(5)]);
}

#[test]
fn chis_puts_the_first_variable_in_the_highest_bit() {
    // r = (2, 3): (1-2)(1-3), (1-2)3, 2(1-3), 2*3
    assert_eq!(
        chis(&list(&[2, 3])),
        vec![Scalar::from_u64(2), minus(3), minus(4), Scalar::from_u64(6)]
    );
}

#[test]
fn chis_at_a_corner_picks_one_entry() {
    let table = chis(&list(&[1, 0, 1]));
    for (b, entry) in table.iter().enumerate() {
        let expected = if b == 0b101 { 1 } else { 0 };
        assert_eq!(*entry, Scalar::from_u64(expected));
    }
}

#[test]
fn chis_entries_are_products_over_the_bits() {
    let r = list(&[7, 11, 13, 17]);
    let table = chis(&r);
    assert_eq!(table.len(), 16);
    for b in 0..16usize {
        let mut expected = Scalar::one();
        for i in 0..4 {
            let bit = (b >> (3 - i)) & 1;
            let factor = if bit == 1 { r[i] } else { Scalar::one().sub(&r[i]) };
            expected = expected.mul(&factor);
        }
        assert_eq!(table[b], expected);
    }
}

#[test]
fn chis_sum_to_one() {
    let table = chis(&list(&[123, 456, 789]));
    let mut sum = Scalar::zero();
    for entry in &table {
        sum = sum.add(entry);
    }
    assert_eq!(sum, Scalar::one());
}

#[test]
fn eq_of_points() {
    assert_eq!(eval_eq(&[], &[]), Scalar::one());
    // 2*3 + (1-2)(1-3) = 8
    assert_eq!(eval_eq(&list(&[2]), &list(&[3])), Scalar::from_u64(8));
    // 8 * (5*7 + (1-5)(1-7)) = 8 * 59
    assert_eq!(eval_eq(&list(&[2, 5]), &list(&[3, 7])), Scalar::from_u64(472));
    assert_eq!(eval_eq(&list(&[1, 0, 1]), &list(&[1, 0, 1])), Scalar::one());
    assert_eq!(eval_eq(&list(&[1, 0, 1]), &list(&[1, 1, 1])), Scalar::zero());
}

#[test]
fn eq_of_a_point_with_bits_is_the_entry_of_chis() {
    let r = list(&[21, 34, 55]);
    let table = chis(&r);
    for b in 0..8usize {
        let bits = list(&[(b >> 2) as u64 & 1, (b >> 1) as u64 & 1, b as u64 & 1]);
        assert_eq!(eval_eq(&bits, &r), table[b]);
    }
}

#[test]
fn inner_product() {
    assert_eq!(eval_chis(&[], &[]), Scalar::zero());
    assert_eq!(
        eval_chis(&list(&[1, 2, 3]), &list(&[4, 5, 6])),
        Scalar::from_u64(32)
    );
}

#[test]
fn mle_at_a_corner_is_the_entry() {
    let evals = list(&[10, 20, 30, 40, 50, 60, 70, 80]);
    for b in 0..8usize {
        let point = list(&[(b >> 2) as u64 & 1, (b >> 1) as u64 & 1, b as u64 & 1]);
        assert_eq!(eval_mle(&point, &evals), evals[b]);
    }
}

#[test]
fn mle_is_the_inner_product_with_chis() {
    let point = list(&[2, 3]);
    let evals = list(&[5, 7, 11, 13]);
    // 2*5 - 3*7 - 4*11 + 6*13 = 23
    assert_eq!(eval_mle(&point, &evals), Scalar::from_u64(23));
    assert_eq!(eval_mle(&point, &evals), eval_chis(&chis(&point), &evals));
    assert_eq!(eval_mle(&[], &list(&[9])), Scalar::from_u64(9));
}

#[test]
fn padding_fills_with_zeros() {
    assert_eq!(pad_next_power_of_two(&[]), list(&[0]));
    assert_eq!(pad_next_power_of_two(&list(&[4])), list(&[4]));
    assert_eq!(pad_next_power_of_two(&list(&[4, 5])), list(&[4, 5]));
    assert_eq!(pad_next_power_of_two(&list(&[4, 5, 6])), list(&[4, 5, 6, 0]));
    assert_eq!(
        pad_next_power_of_two(&list(&[1, 2, 3, 4, 5])),
        list(&[1, 2, 3, 4, 5, 0, 0, 0])
    );
    assert_eq!(pad_next_power_of_two(&list(&[0; 8])).len(), 8);
    assert_eq!(pad_next_power_of_two(&list(&[0; 9])).len(), 16);
}

#[test]
fn padding_with_another_value() {
    assert_eq!(
        pad_with(&list(&[4, 5, 6]), Scalar::from_u64(1)),
        list(&[4, 5, 6, 1])
    );
}

#[test]
fn setting_the_first_variable() {
    // entry i is (1 - r) * mle[i] + r * mle[i + half]
    let mle = list(&[1, 2, 3, 4]);
    assert_eq!(set_variable_low(&mle, Scalar::from_u64(0)), list(&[1, 2]));
    assert_eq!(set_variable_low(&mle, Scalar::from_u64(1)), list(&[3, 4]));
    assert_eq!(set_variable_low(&mle, Scalar::from_u64(5)), list(&[11, 12]));
    assert!(set_variable_low(&list(&[9]), Scalar::from_u64(5)).is_empty());
}

#[test]
fn setting_the_last_variable() {
    // entry i is (1 - r) * mle[2i] + r * mle[2i + 1]
    let mle = list(&[1, 2, 3, 5]);
    assert_eq!(set_variable_high(&mle, Scalar::from_u64(0)), list(&[1, 3]));
    assert_eq!(set_variable_high(&mle, Scalar::from_u64(1)), list(&[2, 5]));
    assert_eq!(set_variable_high(&mle, Scalar::from_u64(4)), list(&[5, 11]));
}

#[test]
fn setting_variables_evaluates_the_extension() {
    let evals = list(&[3, 1, 4, 1, 5, 9, 2, 6]);
    let point = list(&[10, 20, 30]);
    let mut low = evals.clone();
    for r in &point {
        low = set_variable_low(&low, *r);
    }
    assert_eq!(low, vec![eval_mle(&point, &evals)]);
    let mut high = evals.clone();
    for r in point.iter().rev() {
        high = set_variable_high(&high, *r);
    }
    assert_eq!(high, vec![eval_mle(&point, &evals)]);
}

#[test]
fn halvings() {
    assert_eq!(ilog2(0), 0);
    assert_eq!(ilog2(1), 0);
    assert_eq!(ilog2(2), 1);
    assert_eq!(ilog2(3), 1);
    assert_eq!(ilog2(8), 3);
    assert_eq!(ilog2(1000), 9);
}
