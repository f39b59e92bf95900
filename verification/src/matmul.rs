//! The argument for a product of matrices: that `c` is `a` times `b`, for
//! square matrices of `2^n` rows that are stored row by row.
//!
//! The verifier picks a row point and a column point. The entry of `c` there
//! is the sum over the middle index of the row of `a` times the column of
//! `b`, which a sumcheck proves.

use crate::fiatshamir::absorb_points;
use crate::fiatshamir::lemma_squeeze_many_len;
use crate::fiatshamir::squeeze_many;
use crate::fiatshamir::ProtocolTranscript;
use crate::fiatshamir::Sponge;
use crate::field::lemma_reduce_mul;
use crate::field::reduce;
use crate::field::Scalar;
use crate::linearsumcheck::prover_end;
use crate::linearsumcheck::tables_ready;
use crate::linearsumcheck::verifier_end;
use crate::linearsumcheck::verifier_leaves;
use crate::linearsumcheck::well_shaped;
use crate::multilinear::eval_mle;
use crate::multilinear::fold_columns;
use crate::multilinear::fold_rows;
use crate::multilinear::ilog2;
use crate::multilinear::lemma_log2_pow2;
use crate::multilinear::log2;
use crate::multilinear::mle_eval;
use crate::multilinear::set_variable_high;
use crate::multilinear::set_variable_low;
use crate::sumcheck::first_entries;
use crate::sumcheck::SumcheckProof;
use vstd::arithmetic::power2::lemma2_to64;
use vstd::arithmetic::power2::lemma_pow2_adds;
use vstd::arithmetic::power2::lemma_pow2_strictly_increases;
use vstd::arithmetic::power2::lemma_pow2_unfold;
use vstd::arithmetic::power2::pow2;
use vstd::prelude::*;
use vstd::slice::slice_to_vec;
use vstd::string::StringSliceAdditionalSpecFns;

verus! {

/// The number of bits of a row index, for matrices of `len` entries.
pub open spec fn index_bits_of(len: nat) -> nat {
    log2(len) / 2
}

/// What the argument needs of its matrices: all have the same number of
/// entries, which is four to the number of bits of a row index, and at
/// least four.
pub open spec fn matrices_ready(a: Seq<int>, b: Seq<int>, c: Seq<int>) -> bool {
    &&& a.len() == c.len()
    &&& b.len() == c.len()
    &&& index_bits_of(c.len()) >= 1
    &&& c.len() == pow2(2 * index_bits_of(c.len()))
}

/// The row point and the column point, and the state of the sponge after
/// them.
pub struct MatrixSetup {
    pub r1: Seq<int>,
    pub r2: Seq<int>,
    pub sponge_state: Seq<u8>,
}

/// The three matrices are absorbed; then the row point and the column point
/// are squeezed.
pub open spec fn matrix_setup(
    sponge: Sponge,
    state: Seq<u8>,
    a: Seq<int>,
    b: Seq<int>,
    c: Seq<int>,
) -> MatrixSetup {
    let first = absorb_points(sponge, state, "mat_mult_a".spec_bytes(), a);
    let second = absorb_points(sponge, first, "mat_mult_b".spec_bytes(), b);
    let third = absorb_points(sponge, second, "mat_mult_c".spec_bytes(), c);
    let bits = index_bits_of(c.len());
    let rows = squeeze_many(sponge, third, "mat_mult_r1".spec_bytes(), bits);
    let columns = squeeze_many(sponge, rows.1, "mat_mult_r2".spec_bytes(), bits);
    MatrixSetup { r1: rows.0, r2: columns.0, sponge_state: columns.1 }
}

/// Whether the verifier accepts a proof, and the state in which it then
/// leaves the sponge: the proof must be a sumcheck of two tables with one
/// round for each bit of the middle index, its claim must be the entry of
/// `c` at the two points, it must pass, and its final value must be the
/// product of the entries of `a` and of `b` at the points that end and begin
/// with its challenges.
pub open spec fn matrix_verifier(
    sponge: Sponge,
    state: Seq<u8>,
    a: Seq<int>,
    b: Seq<int>,
    c: Seq<int>,
    proof: SumcheckProof,
) -> (bool, Seq<u8>) {
    let setup = matrix_setup(sponge, state, a, b, c);
    let end = verifier_end(
        sponge,
        setup.sponge_state,
        proof.claim@,
        proof.polynomials.deep_view(),
        proof.degree as nat,
        proof.rounds as nat,
    );
    (
        proof.degree == 2 && proof.rounds == index_bits_of(c.len()) && proof.claim@ == reduce(
            mle_eval(setup.r1 + setup.r2, c),
        ) && well_shaped(proof.polynomials.deep_view(), proof.degree as nat, proof.rounds as nat)
            && end.accepted && end.challenges == proof.rands.deep_view() && end.claim == reduce(
            mle_eval(setup.r1 + end.challenges, a) * mle_eval(end.challenges + setup.r2, b),
        ),
        end.sponge_state,
    )
}

/// The state in which the verifier leaves the sponge, whether it accepts or
/// not: as it is after the two points, where the proof is no sumcheck of
/// two tables with the right number of rounds, or has another claim than the
/// entry of `c`; and else as the sumcheck leaves it.
pub open spec fn matrix_verifier_leaves(
    sponge: Sponge,
    state: Seq<u8>,
    a: Seq<int>,
    b: Seq<int>,
    c: Seq<int>,
    proof: SumcheckProof,
) -> Seq<u8> {
    let setup = matrix_setup(sponge, state, a, b, c);
    if proof.degree != 2 || proof.rounds != index_bits_of(c.len()) || proof.claim@ != reduce(
        mle_eval(setup.r1 + setup.r2, c),
    ) {
        setup.sponge_state
    } else {
        verifier_leaves(
            sponge,
            setup.sponge_state,
            proof.claim@,
            proof.polynomials.deep_view(),
            proof.degree as nat,
            proof.rounds as nat,
        )
    }
}

/// The two lists, one after the other.
fn concat(first: &[Scalar], second: &[Scalar]) -> (out: Vec<Scalar>)
    ensures
        out.deep_view() == first.deep_view() + second.deep_view(),
        out.len() == first.len() + second.len(),
{
    let ghost expected = first.deep_view() + second.deep_view();
    let mut out: Vec<Scalar> = Vec::new();
    let mut i: usize = 0;
    while i < first.len()
        invariant
            i <= first.len(),
            expected == first.deep_view() + second.deep_view(),
            out.len() == i,
            out.deep_view() == expected.take(i as int),
        decreases first.len() - i,
    {
        let ghost before = out.deep_view();
        out.push(first[i]);
        proof {
            assert(out.deep_view() =~= before.push(first[i as int]@));
            assert(expected.take(i + 1) =~= before.push(first[i as int]@));
        }
        i += 1;
    }
    let mut j: usize = 0;
    while j < second.len()
        invariant
            j <= second.len(),
            expected == first.deep_view() + second.deep_view(),
            out.len() == first.len() + j,
            out.deep_view() == expected.take(first.len() + j),
        decreases second.len() - j,
    {
        let ghost before = out.deep_view();
        out.push(second[j]);
        proof {
            assert(out.deep_view() =~= before.push(second[j as int]@));
            assert(expected.take(first.len() + j + 1) =~= before.push(second[j as int]@));
        }
        j += 1;
    }
    proof {
        assert(expected.take(first.len() + second.len()) =~= expected);
    }
    out
}

/// Absorbs the matrices and squeezes the two points.
fn setup<T: ProtocolTranscript>(a: &[Scalar], b: &[Scalar], c: &[Scalar], transcript: &mut T) -> (out: (
    Vec<Scalar>,
    Vec<Scalar>,
))
    ensures
        ({
            let expected = matrix_setup(
                T::sponge(),
                old(transcript).state(),
                a.deep_view(),
                b.deep_view(),
                c.deep_view(),
            );
            &&& out.0.deep_view() == expected.r1
            &&& out.1.deep_view() == expected.r2
            &&& final(transcript).state() == expected.sponge_state
        }),
        out.0.len() == index_bits_of(c.len() as nat),
        out.1.len() == index_bits_of(c.len() as nat),
{
    let bits = ilog2(c.len()) / 2;
    transcript.append_points("mat_mult_a".as_bytes(), a);
    transcript.append_points("mat_mult_b".as_bytes(), b);
    transcript.append_points("mat_mult_c".as_bytes(), c);
    let ghost third = transcript.state();
    let r1 = transcript.challenge_scalars("mat_mult_r1".as_bytes(), bits);
    let ghost fourth = transcript.state();
    let r2 = transcript.challenge_scalars("mat_mult_r2".as_bytes(), bits);
    proof {
        lemma_squeeze_many_len(T::sponge(), third, "mat_mult_r1".spec_bytes(), bits as nat);
        lemma_squeeze_many_len(T::sponge(), fourth, "mat_mult_r2".spec_bytes(), bits as nat);
        assert(r1.deep_view().len() == r1.len());
        assert(r2.deep_view().len() == r2.len());
    }
    (r1, r2)
}

/// Proves that the entry of `c` at the two points that the transcript yields
/// is the sum over the middle index of the row of `a` times the column of
/// `b`.
pub fn prove<T: ProtocolTranscript>(a: &[Scalar], b: &[Scalar], c: &[Scalar], transcript: &mut T) -> (proof:
    SumcheckProof)
    requires
        matrices_ready(a.deep_view(), b.deep_view(), c.deep_view()),
    ensures
        ({
            let setup = matrix_setup(
                T::sponge(),
                old(transcript).state(),
                a.deep_view(),
                b.deep_view(),
                c.deep_view(),
            );
            let tables = seq![
                fold_rows(a.deep_view(), setup.r1),
                fold_columns(b.deep_view(), setup.r2),
            ];
            let claim = reduce(mle_eval(setup.r1 + setup.r2, c.deep_view()));
            let end = prover_end(T::sponge(), setup.sponge_state, claim, tables);
            &&& proof.claim@ == claim
            &&& proof.degree == 2
            &&& proof.rounds == index_bits_of(c.len() as nat)
            &&& proof.polynomials.deep_view() == end.polynomials
            &&& proof.rands.deep_view() == end.challenges
            &&& proof.final_terms.deep_view() == first_entries(end.tables)
            &&& final(transcript).state() == end.sponge_state
        }),
{
    let ghost bits = index_bits_of(c.len() as nat);
    let (r1, r2) = setup(a, b, c, transcript);
    let ghost row_point = r1.deep_view();
    let ghost column_point = r2.deep_view();
    proof {
        lemma_pow2_adds(bits, bits);
        assert(a.deep_view().len() == a.len());
        assert(b.deep_view().len() == b.len());
        assert(c.deep_view().len() == c.len());
    }
    let mut fa = slice_to_vec(a);
    let mut i: usize = 0;
    while i < r1.len()
        invariant
            i <= r1.len() == bits,
            row_point == r1.deep_view(),
            fa.len() == pow2((2 * bits - i) as nat),
            fa.deep_view() == fold_rows(a.deep_view(), row_point.take(i as int)),
        decreases r1.len() - i,
    {
        let next = set_variable_low(fa.as_slice(), r1[i]);
        proof {
            assert(row_point.take(i + 1).drop_last() =~= row_point.take(i as int));
            assert(row_point.take(i + 1).last() == r1[i as int]@);
            lemma_pow2_unfold((2 * bits - i) as nat);
            assert(next.deep_view().len() == next.len());
            assert(fa.deep_view().len() == fa.len());
        }
        fa = next;
        i += 1;
    }
    let mut fb = slice_to_vec(b);
    let mut j: usize = r2.len();
    proof {
        assert(column_point.take(j as int) =~= column_point);
        assert(fb.deep_view() =~= b.deep_view());
    }
    while j > 0
        invariant
            j <= r2.len() == bits,
            column_point == r2.deep_view(),
            fb.len() == pow2((bits + j) as nat),
            fold_columns(fb.deep_view(), column_point.take(j as int)) == fold_columns(b.deep_view(), column_point),
        decreases j,
    {
        let next = set_variable_high(fb.as_slice(), r2[j - 1]);
        proof {
            assert(column_point.take(j as int).drop_last() =~= column_point.take(j - 1));
            assert(column_point.take(j as int).last() == r2[j - 1]@);
            lemma_pow2_unfold((bits + j) as nat);
            assert(next.deep_view().len() == next.len());
            assert(fb.deep_view().len() == fb.len());
        }
        fb = next;
        j -= 1;
    }
    proof {
        assert(row_point.take(bits as int) =~= row_point);
        assert(column_point.take(0) =~= Seq::<int>::empty());
        assert(column_point.take(bits as int) =~= column_point);
    }
    let r = concat(r1.as_slice(), r2.as_slice());
    let claim = eval_mle(r.as_slice(), c);
    let mles = vec![fa, fb];
    proof {
        assert(mles.deep_view() =~= seq![fold_rows(a.deep_view(), row_point), fold_columns(b.deep_view(), column_point)]);
        lemma_log2_pow2(bits);
        lemma2_to64();
        lemma_pow2_strictly_increases(0, bits);
        assert(mles[0].deep_view().len() == mles[0].len());
        assert(mles[1].deep_view().len() == mles[1].len());
        assert(tables_ready(mles.deep_view()));
    }
    SumcheckProof::prove(claim, mles, transcript)
}

/// Checks a proof that `c` is `a` times `b` at the two points that the
/// transcript yields: see [`matrix_verifier`]. A verifier that rejects stops
/// at the first check that fails; [`matrix_verifier_leaves`] says how the
/// transcript is left.
pub fn verify<T: ProtocolTranscript>(
    a: &[Scalar],
    b: &[Scalar],
    c: &[Scalar],
    sumcheck_proof: &SumcheckProof,
    transcript: &mut T,
) -> (accepted: bool)
    requires
        matrices_ready(a.deep_view(), b.deep_view(), c.deep_view()),
    ensures
        accepted == matrix_verifier(
            T::sponge(),
            old(transcript).state(),
            a.deep_view(),
            b.deep_view(),
            c.deep_view(),
            *sumcheck_proof,
        ).0,
        accepted ==> final(transcript).state() == matrix_verifier(
            T::sponge(),
            old(transcript).state(),
            a.deep_view(),
            b.deep_view(),
            c.deep_view(),
            *sumcheck_proof,
        ).1,
        final(transcript).state() == matrix_verifier_leaves(
            T::sponge(),
            old(transcript).state(),
            a.deep_view(),
            b.deep_view(),
            c.deep_view(),
            *sumcheck_proof,
        ),
{
    let ghost bits = index_bits_of(c.len() as nat);
    let (r1, r2) = setup(a, b, c, transcript);
    proof {
        lemma_pow2_adds(bits, bits);
        assert(a.deep_view().len() == a.len());
        assert(b.deep_view().len() == b.len());
        assert(c.deep_view().len() == c.len());
    }
    if sumcheck_proof.degree != 2 || sumcheck_proof.rounds != r1.len() {
        return false;
    }
    let r = concat(r1.as_slice(), r2.as_slice());
    if !sumcheck_proof.claim.equals(&eval_mle(r.as_slice(), c)) {
        return false;
    }
    let checked = sumcheck_proof.verify(transcript);
    if checked.is_none() {
        return false;
    }
    let (r3, expected) = checked.unwrap();
    let fa_r = concat(r1.as_slice(), r3.as_slice());
    let fb_r = concat(r3.as_slice(), r2.as_slice());
    let left = eval_mle(fa_r.as_slice(), a);
    let right = eval_mle(fb_r.as_slice(), b);
    proof {
        lemma_reduce_mul(
            mle_eval(fa_r.deep_view(), a.deep_view()),
            mle_eval(fb_r.deep_view(), b.deep_view()),
        );
    }
    expected.equals(&left.mul(&right))
}

} // verus!
