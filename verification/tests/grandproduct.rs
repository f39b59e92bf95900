use merlin::Transcript;
use sumcheck_arguments::field::Scalar;
use sumcheck_arguments::grandproduct::{compute_tree, factor, prove, verify, GrandProductProof};
use sumcheck_arguments::multilinear::eval_mle;

fn list(values: &[u64]) -> Vec<Scalar> {
    values.iter().map(|&v| Scalar::from_u64(v)).collect()
}

#[test]
fn grandproduct_test() {
    let v2 = list(&[2, 1, 2, 2, 2, 1, 7, 1]);
    let claim = Scalar::from_u64(2 * 4 * 2 * 7);

    let mut transcript = Transcript::new(b"test_transcript");
    let (claims, left, right, sc_proofs) = prove(&v2, claim, &mut transcript);
    let mut vtranscript = Transcript::new(b"test_transcript");
    let (final_claim, rands) =
        verify(&claims, &left, &right, &sc_proofs, &mut vtranscript).unwrap();
    assert_eq!(final_claim, eval_mle(&rands, &v2));
}

#[test]
fn grandproduct_proof_value_verifies() {
    let w = list(&[3, 5, 7, 11, 13, 17, 19, 23, 29, 31, 37, 41, 43, 47, 53, 59]);
    let mut claim = Scalar::one();
    for x in &w {
        claim = claim.mul(x);
    }
    let mut transcript = Transcript::new(b"test_transcript");
    let proof = GrandProductProof::prove(&w, claim, &mut transcript);
    assert_eq!(proof.claims.len(), 5);
    assert_eq!(proof.left_evals.len(), 4);
    assert_eq!(proof.right_evals.len(), 4);
    assert_eq!(proof.sumcheck_proofs.len(), 3);
    assert_eq!(proof.claims[0], claim);
    let mut vtranscript = Transcript::new(b"test_transcript");
    let (final_claim, point) = proof.verify(&mut vtranscript).unwrap();
    assert_eq!(point.len(), 4);
    assert_eq!(final_claim, eval_mle(&point, &w));
}

#[test]
fn grandproduct_of_two_values() {
    let w = list(&[6, 7]);
    let mut transcript = Transcript::new(b"test_transcript");
    let (claims, left, right, sc_proofs) = prove(&w, Scalar::from_u64(42), &mut transcript);
    assert_eq!(claims.len(), 2);
    assert_eq!(left, list(&[6]));
    assert_eq!(right, list(&[7]));
    assert!(sc_proofs.is_empty());
    let mut vtranscript = Transcript::new(b"test_transcript");
    let (final_claim, point) =
        verify(&claims, &left, &right, &sc_proofs, &mut vtranscript).unwrap();
    assert_eq!(point.len(), 1);
    assert_eq!(final_claim, eval_mle(&point, &w));
}

#[test]
fn grandproduct_rejects_a_wrong_product() {
    let w = list(&[2, 1, 2, 2, 2, 1, 7, 1]);
    let mut transcript = Transcript::new(b"test_transcript");
    let (claims, left, right, sc_proofs) = prove(&w, Scalar::from_u64(113), &mut transcript);
    let mut vtranscript = Transcript::new(b"test_transcript");
    assert!(verify(&claims, &left, &right, &sc_proofs, &mut vtranscript).is_none());
}

#[test]
fn grandproduct_rejects_a_changed_claim() {
    let w = list(&[2, 1, 2, 2, 2, 1, 7, 1]);
    let mut transcript = Transcript::new(b"test_transcript");
    let (mut claims, left, right, sc_proofs) = prove(&w, Scalar::from_u64(112), &mut transcript);
    let last = claims.len() - 1;
    claims[last] = claims[last].add(&Scalar::one());
    let mut vtranscript = Transcript::new(b"test_transcript");
    assert!(verify(&claims, &left, &right, &sc_proofs, &mut vtranscript).is_none());
}

#[test]
fn grandproduct_rejects_a_changed_evaluation() {
    let w = list(&[2, 1, 2, 2, 2, 1, 7, 1]);
    let mut transcript = Transcript::new(b"test_transcript");
    let (claims, mut left, right, sc_proofs) = prove(&w, Scalar::from_u64(112), &mut transcript);
    left[1] = left[1].add(&Scalar::one());
    let mut vtranscript = Transcript::new(b"test_transcript");
    assert!(verify(&claims, &left, &right, &sc_proofs, &mut vtranscript).is_none());
}

#[test]
fn grandproduct_rejects_parts_that_do_not_fit() {
    let w = list(&[2, 1, 2, 2, 2, 1, 7, 1]);
    let mut transcript = Transcript::new(b"test_transcript");
    let (claims, left, right, sc_proofs) = prove(&w, Scalar::from_u64(112), &mut transcript);
    let mut vtranscript = Transcript::new(b"test_transcript");
    assert!(verify(&claims[..1], &left, &right, &sc_proofs, &mut vtranscript).is_none());
    let mut vtranscript = Transcript::new(b"test_transcript");
    assert!(verify(&claims, &left[..2], &right, &sc_proofs, &mut vtranscript).is_none());
    let mut vtranscript = Transcript::new(b"test_transcript");
    assert!(verify(&claims, &left, &right, &sc_proofs[..1], &mut vtranscript).is_none());
    let mut vtranscript = Transcript::new(b"test_transcript");
    assert!(verify(&[], &[], &[], &[], &mut vtranscript).is_none());
}

#[test]
fn tree_has_the_products_of_pairs() {
    let w = list(&[2, 1, 2, 2, 2, 1, 7, 1]);
    let layers = compute_tree(&w);
    assert_eq!(layers.len(), 3);
    assert_eq!(layers[0], list(&[8, 14]));
    assert_eq!(layers[1], list(&[2, 4, 2, 7]));
    assert_eq!(layers[2], w);
}

#[test]
fn factor_splits_even_and_odd() {
    let (l, r) = factor(&list(&[10, 11, 12, 13, 14, 15]));
    assert_eq!(l, list(&[10, 12, 14]));
    assert_eq!(r, list(&[11, 13, 15]));
}

#[test]
fn two_grandproduct_provers_agree() {
    let w = list(&[2, 1, 2, 2, 2, 1, 7, 1]);
    let mut first = Transcript::new(b"test_transcript");
    let mut second = Transcript::new(b"test_transcript");
    let one = prove(&w, Scalar::from_u64(112), &mut first);
    let other = prove(&w, Scalar::from_u64(112), &mut second);
    assert_eq!(one, other);
    let mut left = [0u8; 32];
    let mut right = [0u8; 32];
    first.challenge_bytes(b"after", &mut left);
    second.challenge_bytes(b"after", &mut right);
    assert_eq!(left, right);
}

#[test]
fn grandproduct_claims_follow_the_tree() {
    let w = list(&[2, 1, 2, 2, 2, 1, 7, 1]);
    let mut transcript = Transcript::new(b"test_transcript");
    let (claims, left, right, _) = prove(&w, Scalar::from_u64(112), &mut transcript);
    // the pair below the root
    assert_eq!(left[0], Scalar::from_u64(8));
    assert_eq!(right[0], Scalar::from_u64(14));
    assert_eq!(claims[0], left[0].mul(&right[0]));
}
