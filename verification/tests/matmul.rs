use merlin::Transcript;
use sumcheck_arguments::field::Scalar;
use sumcheck_arguments::matmul::{prove, verify};

fn list(values: &[u64]) -> Vec<Scalar> {
    values.iter().map(|&v| Scalar::from_u64(v)).collect()
}

fn product(a: &[Scalar], b: &[Scalar], n: usize) -> Vec<Scalar> {
    let mut c = vec![Scalar::zero(); n * n];
    for i in 0..n {
        for j in 0..n {
            for k in 0..n {
                c[i * n + j] = c[i * n + j].add(&a[i * n + k].mul(&b[k * n + j]));
            }
        }
    }
    c
}

#[test]
fn matrix() {
    let a = list(&[1, 0, 0, 1]);
    let b = list(&[4, 1, 2, 2]);
    let c = list(&[4, 1, 2, 2]);
    let mut transcript = Transcript::new(b"test_transcript");
    let proof = prove(&a, &b, &c, &mut transcript);
    let mut vtranscript = Transcript::new(b"test_transcript");
    assert!(verify(&a, &b, &c, &proof, &mut vtranscript));
}

#[test]
fn matrix_of_four_rows() {
    let a = list(&[1, 2, 3, 4, 5, 6, 7, 8, 9, 10, 11, 12, 13, 14, 15, 16]);
    let b = list(&[2, 7, 1, 8, 2, 8, 1, 8, 2, 8, 4, 5, 9, 0, 4, 5]);
    let c = product(&a, &b, 4);
    let mut transcript = Transcript::new(b"test_transcript");
    let proof = prove(&a, &b, &c, &mut transcript);
    assert_eq!(proof.degree, 2);
    assert_eq!(proof.rounds, 2);
    let mut vtranscript = Transcript::new(b"test_transcript");
    assert!(verify(&a, &b, &c, &proof, &mut vtranscript));
}

#[test]
fn matrix_rejects_a_wrong_product() {
    let a = list(&[1, 2, 3, 4]);
    let b = list(&[5, 6, 7, 8]);
    let mut c = product(&a, &b, 2);
    c[3] = c[3].add(&Scalar::one());
    let mut transcript = Transcript::new(b"test_transcript");
    let proof = prove(&a, &b, &c, &mut transcript);
    let mut vtranscript = Transcript::new(b"test_transcript");
    assert!(!verify(&a, &b, &c, &proof, &mut vtranscript));
}

#[test]
fn matrix_rejects_a_proof_for_another_product() {
    let a = list(&[1, 2, 3, 4]);
    let b = list(&[5, 6, 7, 8]);
    let c = product(&a, &b, 2);
    let mut transcript = Transcript::new(b"test_transcript");
    let proof = prove(&a, &b, &c, &mut transcript);
    let mut other = c.clone();
    other[0] = other[0].add(&Scalar::one());
    let mut vtranscript = Transcript::new(b"test_transcript");
    assert!(!verify(&a, &b, &other, &proof, &mut vtranscript));
}
