use merlin::Transcript;
use sumcheck_arguments::fiatshamir::ProtocolTranscript;
use sumcheck_arguments::field::Scalar;
use sumcheck_arguments::linearsumcheck::{prove, verify};
use sumcheck_arguments::multilinear::{chis, eval_chis};
use sumcheck_arguments::sumcheck::SumcheckProof;

fn table(values: &[u64]) -> Vec<Scalar> {
    values.iter().map(|&v| Scalar::from_u64(v)).collect()
}

fn sum_of_products(tables: &[Vec<Scalar>]) -> Scalar {
    let mut total = Scalar::zero();
    for i in 0..tables[0].len() {
        let mut product = Scalar::one();
        for t in tables {
            product = product.mul(&t[i]);
        }
        total = total.add(&product);
    }
    total
}

#[test]
fn test() {
    let a = table(&[9, 91, 34, 5, 34, 5, 34, 5]);
    let b = table(&[2, 61, 4, 64, 34, 5, 34, 5]);
    let mut transcript = Transcript::new(b"test_transcript");
    let mut verify_transcript = Transcript::new(b"test_transcript");

    let claim = sum_of_products(&[a.clone(), b.clone()]);
    let mles = vec![a.clone(), b.clone()];

    let proof = SumcheckProof::prove(claim, mles, &mut transcript);
    let (vrs, expected_eval) = proof.verify(&mut verify_transcript).unwrap();

    let rchis = chis(&vrs);
    let final_eval = eval_chis(&rchis, &a).mul(&eval_chis(&rchis, &b));
    assert_eq!(final_eval, expected_eval);
}

#[test]
fn quadratic() {
    let a = table(&[9, 91, 34, 5, 34, 5, 34, 5]);
    let b = table(&[2, 61, 4, 64, 34, 5, 34, 5]);

    let claim = sum_of_products(&[a.clone(), b.clone()]);
    let mles = vec![a.clone(), b.clone()];

    let mut transcript = Transcript::new(b"test_transcript");

    let (polys, _rs) = prove(claim, mles, &mut transcript);

    let mut verify_transcript = Transcript::new(b"test_transcript");
    let (vrs, expected_eval) =
        verify(claim, &polys, 2, polys.len(), &mut verify_transcript).unwrap();

    let rchis = chis(&vrs);
    let final_eval = eval_chis(&rchis, &a).mul(&eval_chis(&rchis, &b));
    assert_eq!(final_eval, expected_eval);
}

#[test]
fn cubic() {
    let a = table(&[9, 91, 34, 5, 34, 5, 34, 5]);
    let b = table(&[2, 61, 4, 64, 34, 5, 34, 5]);
    let c = table(&[2, 61, 4, 64, 34, 5, 34, 5]);

    let claim = sum_of_products(&[a.clone(), b.clone(), c.clone()]);
    let mles = vec![a.clone(), b.clone(), c.clone()];
    let mut transcript = Transcript::new(b"test_transcript");
    let (polys, _rs) = prove(claim, mles, &mut transcript);

    let mut verify_transcript = Transcript::new(b"test_transcript");
    let (vrs, expected_eval) =
        verify(claim, &polys, 3, polys.len(), &mut verify_transcript).unwrap();

    let rchis = chis(&vrs);
    let final_eval = eval_chis(&rchis, &a)
        .mul(&eval_chis(&rchis, &b))
        .mul(&eval_chis(&rchis, &c));
    assert_eq!(expected_eval, final_eval);
}

fn example() -> (Scalar, Vec<Vec<Scalar>>) {
    let a = table(&[9, 91, 34, 5, 34, 5, 34, 5]);
    let b = table(&[2, 61, 4, 64, 34, 5, 34, 5]);
    let claim = sum_of_products(&[a.clone(), b.clone()]);
    (claim, vec![a, b])
}

#[test]
fn final_terms_multiply_to_the_expected_value() {
    let (claim, mles) = example();
    let mut transcript = Transcript::new(b"test_transcript");
    let proof = SumcheckProof::prove(claim, mles.clone(), &mut transcript);
    assert_eq!(proof.degree, 2);
    assert_eq!(proof.rounds, 3);
    assert_eq!(proof.claim, claim);
    assert_eq!(proof.polynomials.len(), 3);
    assert_eq!(proof.rands.len(), 3);
    assert_eq!(proof.final_terms.len(), 2);
    let mut verify_transcript = Transcript::new(b"test_transcript");
    let (vrs, expected_eval) = proof.verify(&mut verify_transcript).unwrap();
    assert_eq!(vrs, proof.rands);
    assert_eq!(proof.final_terms[0].mul(&proof.final_terms[1]), expected_eval);
    let rchis = chis(&vrs);
    assert_eq!(proof.final_terms[0], eval_chis(&rchis, &mles[0]));
    assert_eq!(proof.final_terms[1], eval_chis(&rchis, &mles[1]));
}

#[test]
fn round_polynomials_sum_to_the_claims() {
    let (claim, mles) = example();
    let mut transcript = Transcript::new(b"test_transcript");
    let (polys, rs) = prove(claim, mles, &mut transcript);
    assert_eq!(polys[0][0].add(&polys[0][1]), claim);
    for j in 1..polys.len() {
        assert_eq!(polys[j].len(), 3);
        assert_eq!(
            polys[j][0].add(&polys[j][1]),
            sumcheck_arguments::univariate::eval_ule(&polys[j - 1], rs[j - 1])
        );
    }
}

#[test]
fn first_round_polynomial_has_the_expected_values() {
    // one variable, two tables: g(t) = ((1-t)*2 + t*3) * ((1-t)*5 + t*7)
    let mles = vec![table(&[2, 3]), table(&[5, 7])];
    let claim = Scalar::from_u64(2 * 5 + 3 * 7);
    let points = sumcheck_arguments::linearsumcheck::derive_points(&mles, claim);
    assert_eq!(points, table(&[10, 21, 36]));
}

#[test]
fn every_changed_coefficient_is_rejected() {
    let (claim, mles) = example();
    let mut transcript = Transcript::new(b"test_transcript");
    let proof = SumcheckProof::prove(claim, mles, &mut transcript);
    for j in 0..proof.polynomials.len() {
        for i in 0..proof.polynomials[j].len() {
            let mut changed = proof.clone();
            changed.polynomials[j][i] = changed.polynomials[j][i].add(&Scalar::one());
            let mut verify_transcript = Transcript::new(b"test_transcript");
            assert!(changed.verify(&mut verify_transcript).is_none());
        }
    }
}

#[test]
fn a_changed_claim_is_rejected() {
    let (claim, mles) = example();
    let mut transcript = Transcript::new(b"test_transcript");
    let (polys, _) = prove(claim, mles, &mut transcript);
    let mut verify_transcript = Transcript::new(b"test_transcript");
    let wrong = claim.add(&Scalar::one());
    assert!(verify(wrong, &polys, 2, 3, &mut verify_transcript).is_none());
}

#[test]
fn a_wrong_shape_is_rejected() {
    let (claim, mles) = example();
    let mut transcript = Transcript::new(b"test_transcript");
    let (polys, _) = prove(claim, mles, &mut transcript);
    let mut t = Transcript::new(b"test_transcript");
    assert!(verify(claim, &polys, 3, 3, &mut t).is_none());
    let mut t = Transcript::new(b"test_transcript");
    assert!(verify(claim, &polys, 2, 2, &mut t).is_none());
    let mut t = Transcript::new(b"test_transcript");
    assert!(verify(claim, &polys, 2, 4, &mut t).is_none());
    let mut short = polys.clone();
    short[1].pop();
    let mut t = Transcript::new(b"test_transcript");
    assert!(verify(claim, &short, 2, 3, &mut t).is_none());
    let mut t = Transcript::new(b"test_transcript");
    assert!(verify(claim, &polys, usize::MAX, 3, &mut t).is_none());
}

#[test]
fn changed_challenges_are_rejected() {
    let (claim, mles) = example();
    let mut transcript = Transcript::new(b"test_transcript");
    let mut proof = SumcheckProof::prove(claim, mles, &mut transcript);
    proof.rands[1] = proof.rands[1].add(&Scalar::one());
    let mut verify_transcript = Transcript::new(b"test_transcript");
    assert!(proof.verify(&mut verify_transcript).is_none());
}

#[test]
fn another_transcript_is_rejected() {
    let (claim, mles) = example();
    let mut transcript = Transcript::new(b"test_transcript");
    let (polys, _) = prove(claim, mles, &mut transcript);
    let mut verify_transcript = Transcript::new(b"other_transcript");
    assert!(verify(claim, &polys, 2, 3, &mut verify_transcript).is_none());
}

#[test]
fn no_round_returns_the_claim() {
    let claim = Scalar::from_u64(77);
    let mut t = Transcript::new(b"test_transcript");
    let (rs, value) = verify(claim, &vec![], 5, 0, &mut t).unwrap();
    assert!(rs.is_empty());
    assert_eq!(value, claim);
}

#[test]
fn one_table_of_two_entries() {
    let mles = vec![table(&[4, 9])];
    let claim = Scalar::from_u64(13);
    let mut transcript = Transcript::new(b"test_transcript");
    let proof = SumcheckProof::prove(claim, mles.clone(), &mut transcript);
    assert_eq!(proof.polynomials, vec![table(&[4, 9])]);
    let mut verify_transcript = Transcript::new(b"test_transcript");
    let (vrs, expected) = proof.verify(&mut verify_transcript).unwrap();
    assert_eq!(expected, eval_chis(&chis(&vrs), &mles[0]));
    assert_eq!(proof.final_terms, vec![expected]);
}

#[test]
fn two_provers_agree() {
    let (claim, mles) = example();
    let mut first = Transcript::new(b"test_transcript");
    let mut second = Transcript::new(b"test_transcript");
    let one = SumcheckProof::prove(claim, mles.clone(), &mut first);
    let other = SumcheckProof::prove(claim, mles, &mut second);
    assert_eq!(one.polynomials, other.polynomials);
    assert_eq!(one.rands, other.rands);
    assert_eq!(one.final_terms, other.final_terms);
    assert_eq!(
        first.challenge_scalar(b"after"),
        second.challenge_scalar(b"after")
    );
}
