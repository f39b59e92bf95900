use merlin::Transcript;
use sumcheck_arguments::field::Scalar;
use sumcheck_arguments::spark::{densify, SparkProof};

fn list(values: &[u64]) -> Vec<Scalar> {
    values.iter().map(|&v| Scalar::from_u64(v)).collect()
}

fn example_matrix() -> Vec<Scalar> {
    list(&[0, 2, 7, 0, 0, 0, 10, 0, 0, 2, 0, 0, 0, 0, 0, 0])
}

#[test]
fn test_spark() {
    let matrix = example_matrix();
    let (vals, rows, cols) = densify(&matrix, 4, 4);

    println!("{:?}", vals);
    println!("{:?}", rows);
    println!("{:?}", cols);
    let mut transcript = Transcript::new(b"test_transcript");
    let proof = SparkProof::prove(&vals, &rows, &cols, matrix.len(), &mut transcript);
    let mut v_transcript = Transcript::new(b"test_transcript");
    assert!(proof.verify(&mut v_transcript));
}

#[test]
fn densify_lists_the_nonzero_entries() {
    let (vals, rows, cols) = densify(&example_matrix(), 4, 4);
    assert_eq!(vals, list(&[2, 7, 10, 2]));
    assert_eq!(rows, vec![0, 0, 1, 2]);
    assert_eq!(cols, vec![1, 2, 2, 1]);
}

#[test]
fn densify_of_zeros_is_empty() {
    let (vals, rows, cols) = densify(&list(&[0, 0, 0, 0, 0, 0]), 2, 3);
    assert!(vals.is_empty());
    assert!(rows.is_empty());
    assert!(cols.is_empty());
}

#[test]
fn spark_records_times_and_counts() {
    let matrix = example_matrix();
    let (vals, rows, cols) = densify(&matrix, 4, 4);
    let mut transcript = Transcript::new(b"test_transcript");
    let proof = SparkProof::prove(&vals, &rows, &cols, 16, &mut transcript);
    assert_eq!(proof.memory, 16);
    assert_eq!(proof.read_rows, list(&[0, 0, 1, 2]));
    assert_eq!(proof.read_cols, list(&[1, 2, 2, 1]));
    assert_eq!(proof.times_rows, list(&[0, 1, 0, 0]));
    assert_eq!(proof.times_cols, list(&[0, 0, 1, 1]));
    assert_eq!(
        proof.counts_rows,
        list(&[2, 1, 1, 0, 0, 0, 0, 0, 0, 0, 0, 0, 0, 0, 0, 0])
    );
    assert_eq!(
        proof.counts_cols,
        list(&[0, 2, 2, 0, 0, 0, 0, 0, 0, 0, 0, 0, 0, 0, 0, 0])
    );
    assert_eq!(proof.primary_sumcheck_proof.degree, 3);
    assert_eq!(proof.primary_sumcheck_proof.rounds, 2);
    assert_eq!(proof.row_grand_product_proof.claims.len(), 6);
}

#[test]
fn spark_claim_is_the_sum_over_the_entries() {
    let matrix = example_matrix();
    let (vals, rows, cols) = densify(&matrix, 4, 4);
    let mut transcript = Transcript::new(b"test_transcript");
    let proof = SparkProof::prove(&vals, &rows, &cols, 16, &mut transcript);
    let mut sum = Scalar::zero();
    for i in 0..vals.len() {
        sum = sum.add(&vals[i].mul(&proof.e_rx[i]).mul(&proof.e_ry[i]));
    }
    assert_eq!(proof.primary_sumcheck_proof.claim, sum);
}

#[test]
fn spark_with_entries_that_are_no_power_of_two() {
    let vals = list(&[5, 6, 7]);
    let rows = vec![3, 3, 3];
    let cols = vec![0, 1, 0];
    let mut transcript = Transcript::new(b"test_transcript");
    let proof = SparkProof::prove(&vals, &rows, &cols, 4, &mut transcript);
    let mut v_transcript = Transcript::new(b"test_transcript");
    assert!(proof.verify(&mut v_transcript));
}

#[test]
fn spark_rejects_a_changed_value() {
    let matrix = example_matrix();
    let (vals, rows, cols) = densify(&matrix, 4, 4);
    let mut transcript = Transcript::new(b"test_transcript");
    let mut proof = SparkProof::prove(&vals, &rows, &cols, 16, &mut transcript);
    proof.vals[0] = proof.vals[0].add(&Scalar::one());
    let mut v_transcript = Transcript::new(b"test_transcript");
    assert!(!proof.verify(&mut v_transcript));
}

#[test]
fn spark_rejects_a_changed_lookup() {
    let matrix = example_matrix();
    let (vals, rows, cols) = densify(&matrix, 4, 4);
    let mut transcript = Transcript::new(b"test_transcript");
    let mut proof = SparkProof::prove(&vals, &rows, &cols, 16, &mut transcript);
    proof.e_rx[2] = proof.e_rx[2].add(&Scalar::one());
    let mut v_transcript = Transcript::new(b"test_transcript");
    assert!(!proof.verify(&mut v_transcript));
}

#[test]
fn spark_rejects_a_changed_time() {
    let matrix = example_matrix();
    let (vals, rows, cols) = densify(&matrix, 4, 4);
    let mut transcript = Transcript::new(b"test_transcript");
    let mut proof = SparkProof::prove(&vals, &rows, &cols, 16, &mut transcript);
    proof.times_cols[3] = Scalar::from_u64(5);
    let mut v_transcript = Transcript::new(b"test_transcript");
    assert!(!proof.verify(&mut v_transcript));
}

#[test]
fn spark_rejects_a_changed_count() {
    let matrix = example_matrix();
    let (vals, rows, cols) = densify(&matrix, 4, 4);
    let mut transcript = Transcript::new(b"test_transcript");
    let mut proof = SparkProof::prove(&vals, &rows, &cols, 16, &mut transcript);
    proof.counts_rows[7] = Scalar::one();
    let mut v_transcript = Transcript::new(b"test_transcript");
    assert!(!proof.verify(&mut v_transcript));
}

#[test]
fn spark_rejects_parts_that_do_not_fit() {
    let matrix = example_matrix();
    let (vals, rows, cols) = densify(&matrix, 4, 4);
    let mut transcript = Transcript::new(b"test_transcript");
    let mut proof = SparkProof::prove(&vals, &rows, &cols, 16, &mut transcript);
    proof.memory = 15;
    let mut v_transcript = Transcript::new(b"test_transcript");
    assert!(!proof.verify(&mut v_transcript));
    let mut transcript = Transcript::new(b"test_transcript");
    let mut proof = SparkProof::prove(&vals, &rows, &cols, 16, &mut transcript);
    proof.e_ry.pop();
    let mut v_transcript = Transcript::new(b"test_transcript");
    assert!(!proof.verify(&mut v_transcript));
}

#[test]
fn spark_rejects_under_another_transcript() {
    let matrix = example_matrix();
    let (vals, rows, cols) = densify(&matrix, 4, 4);
    let mut transcript = Transcript::new(b"test_transcript");
    let proof = SparkProof::prove(&vals, &rows, &cols, 16, &mut transcript);
    let mut v_transcript = Transcript::new(b"other_transcript");
    assert!(!proof.verify(&mut v_transcript));
}

#[test]
fn two_spark_provers_agree() {
    let matrix = example_matrix();
    let (vals, rows, cols) = densify(&matrix, 4, 4);
    let mut first = Transcript::new(b"test_transcript");
    let mut second = Transcript::new(b"test_transcript");
    let one = SparkProof::prove(&vals, &rows, &cols, 16, &mut first);
    let other = SparkProof::prove(&vals, &rows, &cols, 16, &mut second);
    assert_eq!(one.e_rx, other.e_rx);
    assert_eq!(one.e_ry, other.e_ry);
    assert_eq!(
        one.primary_sumcheck_proof.polynomials,
        other.primary_sumcheck_proof.polynomials
    );
    assert_eq!(
        one.row_grand_product_proof.claims,
        other.row_grand_product_proof.claims
    );
    assert_eq!(
        one.col_grand_product_proof.sumcheck_proofs,
        other.col_grand_product_proof.sumcheck_proofs
    );
    let mut left = [0u8; 32];
    let mut right = [0u8; 32];
    first.challenge_bytes(b"after", &mut left);
    second.challenge_bytes(b"after", &mut right);
    assert_eq!(left, right);
}

#[test]
fn spark_final_terms_are_the_values_at_the_point() {
    use_final_terms();
}

fn use_final_terms() {
    let matrix = example_matrix();
    let (vals, rows, cols) = densify(&matrix, 4, 4);
    let mut transcript = Transcript::new(b"test_transcript");
    let proof = SparkProof::prove(&vals, &rows, &cols, 16, &mut transcript);
    let point = &proof.primary_sumcheck_proof.rands;
    let terms = &proof.primary_sumcheck_proof.final_terms;
    assert_eq!(terms.len(), 3);
    assert_eq!(terms[0], sumcheck_arguments::multilinear::eval_mle(point, &proof.vals));
    assert_eq!(terms[1], sumcheck_arguments::multilinear::eval_mle(point, &proof.e_rx));
    assert_eq!(terms[2], sumcheck_arguments::multilinear::eval_mle(point, &proof.e_ry));
}

#[test]
fn spark_memory_sides_have_the_same_product() {
    // what the grand product of the rows claims is the product of the
    // fingerprints of the reads and of the memory at last
    let matrix = example_matrix();
    let (vals, rows, cols) = densify(&matrix, 4, 4);
    let mut transcript = Transcript::new(b"test_transcript");
    let proof = SparkProof::prove(&vals, &rows, &cols, 16, &mut transcript);
    let mut v_transcript = Transcript::new(b"test_transcript");
    assert!(proof.verify(&mut v_transcript));
    let mut swapped = proof.clone();
    swapped.times_rows.swap(0, 1);
    let mut v_transcript = Transcript::new(b"test_transcript");
    assert!(!swapped.verify(&mut v_transcript));
}
