//! The sumcheck argument: that the sum over the hypercube of the product of
//! several multilinear extensions is a claimed value.
//!
//! In each round the prover sends the values at `0, 1, ..., K` of the
//! polynomial in the first remaining variable, the verifier answers with a
//! challenge, and the tables are folded at it.

use crate::algebra::product_to;
use crate::algebra::sum_to;
use crate::fiatshamir::absorb_points;
use crate::fiatshamir::scalar_bytes;
use crate::fiatshamir::ProtocolTranscript;
use crate::fiatshamir::Sponge;
use crate::field::lemma_reduce_add;
use crate::field::lemma_reduce_mul;
use crate::field::lemma_reduce_sub;
use crate::field::lemma_reduce_zero_one;
use crate::field::reduce;
use crate::field::Scalar;
use crate::multilinear::fold_low;
use crate::multilinear::ilog2;
use crate::multilinear::lemma_line;
use crate::multilinear::line;
use crate::multilinear::log2;
use crate::multilinear::set_variable_low;
use crate::univariate::eval_ule;
use crate::univariate::evaluate;
use vstd::arithmetic::power2::lemma2_to64;
use vstd::arithmetic::power2::lemma_pow2_unfold;
use vstd::arithmetic::power2::pow2;
use vstd::prelude::*;
use vstd::string::StringSliceAdditionalSpecFns;

verus! {

/// For each table, the line through its entry `i` of the lower half and its
/// entry `i` of the upper half, at `t`.
pub open spec fn line_factors(mles: Seq<Seq<int>>, i: int, t: int) -> spec_fn(int) -> int {
    |k: int| line(mles[k][i], mles[k][i + mles[k].len() / 2], t)
}

/// The product over the tables of their lines at `t`.
pub open spec fn line_product(mles: Seq<Seq<int>>, i: int, t: int) -> int {
    product_to(mles.len(), line_factors(mles, i, t))
}

/// The terms of the round polynomial at `t`.
pub open spec fn round_terms(mles: Seq<Seq<int>>, t: int) -> spec_fn(int) -> int {
    |i: int| line_product(mles, i, t)
}

/// The round polynomial at `t`: the sum over the remaining variables of the
/// product of the tables, with the first variable set to `t`.
pub open spec fn round_sum(mles: Seq<Seq<int>>, t: int) -> int {
    sum_to(mles[0].len() / 2, round_terms(mles, t))
}

/// The values that the prover sends in a round: the round polynomial at
/// `0, 1, ..., K`, where the value at one is what the claim leaves of the
/// value at zero.
pub open spec fn round_points(mles: Seq<Seq<int>>, claim: int) -> Seq<int> {
    Seq::new(
        mles.len() + 1,
        |j: int|
            if j == 1 {
                reduce(claim - round_sum(mles, 0))
            } else {
                reduce(round_sum(mles, j))
            },
    )
}

/// Every table with its first variable set to `r`.
pub open spec fn fold_all(tables: Seq<Seq<int>>, r: int) -> Seq<Seq<int>> {
    Seq::new(tables.len(), |k: int| fold_low(tables[k], r))
}

/// What a sumcheck needs of its tables: there is at least one, and all have
/// the same length, a power of two that is at least two.
pub open spec fn tables_ready(mles: Seq<Seq<int>>) -> bool {
    &&& mles.len() >= 1
    &&& mles[0].len() >= 2
    &&& pow2(log2(mles[0].len())) == mles[0].len()
    &&& forall|k: int| 0 <= k < mles.len() ==> (#[trigger] mles[k]).len() == mles[0].len()
}

/// The state of the sponge once the claim, the degree and the number of
/// rounds are absorbed.
pub open spec fn header_state(
    sponge: Sponge,
    state: Seq<u8>,
    claim: int,
    degree: int,
    rounds: int,
) -> Seq<u8> {
    let first = (sponge.absorb)(state, "sumcheck_claim".spec_bytes(), scalar_bytes(claim));
    let second = (sponge.absorb)(first, "sumcheck_degree".spec_bytes(), scalar_bytes(degree));
    (sponge.absorb)(second, "sumcheck_rounds".spec_bytes(), scalar_bytes(rounds))
}

/// Where a prover stands between two rounds.
pub struct ProverState {
    /// The tables, folded at the challenges so far.
    pub tables: Seq<Seq<int>>,
    /// The claimed sum over the folded tables.
    pub claim: int,
    /// The state of the transcript's sponge.
    pub sponge_state: Seq<u8>,
    /// The round polynomials sent so far.
    pub polynomials: Seq<Seq<int>>,
    /// The challenges received so far.
    pub challenges: Seq<int>,
}

/// Where a prover stands before the first round.
pub open spec fn prover_start(sponge: Sponge, state: Seq<u8>, claim: int, mles: Seq<Seq<int>>) -> ProverState {
    ProverState {
        tables: mles,
        claim,
        sponge_state: header_state(
            sponge,
            state,
            claim,
            mles.len() as int,
            log2(mles[0].len()) as int,
        ),
        polynomials: Seq::empty(),
        challenges: Seq::empty(),
    }
}

/// One round of the prover.
pub open spec fn prover_step(sponge: Sponge, before: ProverState) -> ProverState {
    let points = round_points(before.tables, before.claim);
    let absorbed = absorb_points(
        sponge,
        before.sponge_state,
        "sumcheck_points".spec_bytes(),
        points,
    );
    let squeezed = (sponge.squeeze)(absorbed, "sumcheck_challenge".spec_bytes());
    ProverState {
        tables: fold_all(before.tables, squeezed.0),
        claim: evaluate(points, squeezed.0),
        sponge_state: squeezed.1,
        polynomials: before.polynomials.push(points),
        challenges: before.challenges.push(squeezed.0),
    }
}

/// Where a prover stands after `j` rounds.
pub open spec fn prover_rounds(sponge: Sponge, start: ProverState, j: nat) -> ProverState
    decreases j,
{
    if j == 0 {
        start
    } else {
        prover_step(sponge, prover_rounds(sponge, start, (j - 1) as nat))
    }
}

/// Where a prover stands at the end.
pub open spec fn prover_end(
    sponge: Sponge,
    state: Seq<u8>,
    claim: int,
    mles: Seq<Seq<int>>,
) -> ProverState {
    prover_rounds(sponge, prover_start(sponge, state, claim, mles), log2(mles[0].len()))
}

/// Where a verifier stands between two rounds.
pub struct VerifierState {
    /// The value that the next round polynomial must sum to.
    pub claim: int,
    /// The state of the transcript's sponge.
    pub sponge_state: Seq<u8>,
    /// The challenges squeezed so far.
    pub challenges: Seq<int>,
    /// Whether every check so far has passed.
    pub accepted: bool,
}

/// Where a verifier stands before the first round.
pub open spec fn verifier_start(
    sponge: Sponge,
    state: Seq<u8>,
    claim: int,
    degree: int,
    rounds: int,
) -> VerifierState {
    VerifierState {
        claim,
        sponge_state: header_state(sponge, state, claim, degree, rounds),
        challenges: Seq::empty(),
        accepted: true,
    }
}

/// One round of the verifier, on the round polynomial `points`.
pub open spec fn verifier_step(sponge: Sponge, before: VerifierState, points: Seq<int>) -> VerifierState {
    let absorbed = absorb_points(
        sponge,
        before.sponge_state,
        "sumcheck_points".spec_bytes(),
        points,
    );
    let squeezed = (sponge.squeeze)(absorbed, "sumcheck_challenge".spec_bytes());
    VerifierState {
        claim: evaluate(points, squeezed.0),
        sponge_state: squeezed.1,
        challenges: before.challenges.push(squeezed.0),
        accepted: before.accepted && reduce(points[0] + points[1]) == before.claim,
    }
}

/// Where a verifier stands after `j` rounds.
pub open spec fn verifier_rounds(
    sponge: Sponge,
    polynomials: Seq<Seq<int>>,
    start: VerifierState,
    j: nat,
) -> VerifierState
    decreases j,
{
    if j == 0 {
        start
    } else {
        verifier_step(
            sponge,
            verifier_rounds(sponge, polynomials, start, (j - 1) as nat),
            polynomials[j - 1],
        )
    }
}

/// Where a verifier stands at the end.
pub open spec fn verifier_end(
    sponge: Sponge,
    state: Seq<u8>,
    claim: int,
    polynomials: Seq<Seq<int>>,
    degree: nat,
    rounds: nat,
) -> VerifierState {
    verifier_rounds(
        sponge,
        polynomials,
        verifier_start(sponge, state, claim, degree as int, rounds as int),
        rounds,
    )
}

/// The number of rounds that the verifier goes through: all of them where it
/// accepts, and else those before the first check that fails.
pub open spec fn rounds_passed(
    sponge: Sponge,
    polynomials: Seq<Seq<int>>,
    start: VerifierState,
    n: nat,
) -> nat
    decreases n,
{
    if n == 0 {
        0
    } else if verifier_rounds(sponge, polynomials, start, n).accepted {
        n
    } else {
        rounds_passed(sponge, polynomials, start, (n - 1) as nat)
    }
}

/// The state in which the verifier leaves the sponge, whether it accepts or
/// not: untouched where the round polynomials have the wrong shape, and else
/// as it is after the rounds that the verifier goes through.
pub open spec fn verifier_leaves(
    sponge: Sponge,
    state: Seq<u8>,
    claim: int,
    polynomials: Seq<Seq<int>>,
    degree: nat,
    rounds: nat,
) -> Seq<u8> {
    if !well_shaped(polynomials, degree, rounds) {
        state
    } else {
        let start = verifier_start(sponge, state, claim, degree as int, rounds as int);
        verifier_rounds(
            sponge,
            polynomials,
            start,
            rounds_passed(sponge, polynomials, start, rounds),
        ).sponge_state
    }
}

/// There is one round polynomial for each round, and each has one value more
/// than the degree, and at least two.
pub open spec fn well_shaped(polynomials: Seq<Seq<int>>, degree: nat, rounds: nat) -> bool {
    &&& polynomials.len() == rounds
    &&& forall|j: int|
        0 <= j < polynomials.len() ==> (#[trigger] polynomials[j]).len() == degree + 1
            && polynomials[j].len() >= 2
}

/// The product over the tables of their lines at `t`, for the entry `i`.
fn line_product_at(mles: &Vec<Vec<Scalar>>, i: usize, t: Scalar, one_minus: Scalar) -> (value:
    Scalar)
    requires
        mles.len() >= 1,
        forall|k: int| 0 <= k < mles.len() ==> (#[trigger] mles[k]).len() == mles[0].len(),
        i < mles[0].len() / 2,
        one_minus@ == reduce(1 - t@),
    ensures
        value@ == reduce(line_product(mles.deep_view(), i as int, t@)),
{
    let ghost tables = mles.deep_view();
    let ghost factors = line_factors(tables, i as int, t@);
    let mut value = Scalar::one();
    proof {
        lemma_reduce_zero_one();
    }
    let mut k: usize = 0;
    while k < mles.len()
        invariant
            k <= mles.len(),
            tables == mles.deep_view(),
            factors == line_factors(tables, i as int, t@),
            forall|k: int| 0 <= k < mles.len() ==> (#[trigger] mles[k]).len() == mles[0].len(),
            i < mles[0].len() / 2,
            one_minus@ == reduce(1 - t@),
            value@ == reduce(product_to(k as nat, factors)),
        decreases mles.len() - k,
    {
        let table = &mles[k];
        let half = table.len() / 2;
        let lo = table[i];
        let hi = table[i + half];
        let factor = one_minus.mul(&lo).add(&t.mul(&hi));
        let next = value.mul(&factor);
        proof {
            lemma_line(lo@, hi@, t@, one_minus@, factor@);
            assert(tables[k as int] == mles[k as int].deep_view());
            assert(tables[k as int][i as int] == lo@);
            assert(tables[k as int][i + half] == hi@);
            assert(factors(k as int) == line(lo@, hi@, t@));
            lemma_reduce_mul(product_to(k as nat, factors), line(lo@, hi@, t@));
        }
        value = next;
        k += 1;
    }
    value
}

/// The round polynomial at `t`.
fn round_sum_at(mles: &Vec<Vec<Scalar>>, t: Scalar) -> (value: Scalar)
    requires
        mles.len() >= 1,
        forall|k: int| 0 <= k < mles.len() ==> (#[trigger] mles[k]).len() == mles[0].len(),
    ensures
        value@ == reduce(round_sum(mles.deep_view(), t@)),
{
    let ghost tables = mles.deep_view();
    let ghost terms = round_terms(tables, t@);
    let half = mles[0].len() / 2;
    let one_minus = Scalar::one().sub(&t);
    let mut value = Scalar::zero();
    proof {
        lemma_reduce_zero_one();
        assert(tables[0] == mles[0].deep_view());
    }
    let mut i: usize = 0;
    while i < half
        invariant
            i <= half == mles[0].len() / 2,
            mles.len() >= 1,
            tables == mles.deep_view(),
            terms == round_terms(tables, t@),
            forall|k: int| 0 <= k < mles.len() ==> (#[trigger] mles[k]).len() == mles[0].len(),
            one_minus@ == reduce(1 - t@),
            value@ == reduce(sum_to(i as nat, terms)),
        decreases half - i,
    {
        let term = line_product_at(mles, i, t, one_minus);
        let next = value.add(&term);
        proof {
            assert(terms(i as int) == line_product(tables, i as int, t@));
            lemma_reduce_add(sum_to(i as nat, terms), terms(i as int));
        }
        value = next;
        i += 1;
    }
    value
}

/// The values of the round polynomial at `0, 1, ..., K`, the one at one taken
/// from the claim.
pub fn derive_points(mles: &Vec<Vec<Scalar>>, last_claim: Scalar) -> (points: Vec<Scalar>)
    requires
        1 <= mles.len() < usize::MAX,
        forall|k: int| 0 <= k < mles.len() ==> (#[trigger] mles[k]).len() == mles[0].len(),
    ensures
        points.deep_view() == round_points(mles.deep_view(), last_claim@),
{
    let degree = mles.len();
    let ghost tables = mles.deep_view();
    let ghost expected = round_points(tables, last_claim@);
    let mut points: Vec<Scalar> = Vec::new();
    let mut j: usize = 0;
    while j <= degree
        invariant
            j <= degree + 1,
            degree == mles.len() < usize::MAX,
            mles.len() >= 1,
            tables == mles.deep_view(),
            expected == round_points(tables, last_claim@),
            forall|k: int| 0 <= k < mles.len() ==> (#[trigger] mles[k]).len() == mles[0].len(),
            points.len() == j,
            points.deep_view() == expected.take(j as int),
        decreases degree + 1 - j,
    {
        let ghost before = points.deep_view();
        let value = if j == 1 {
            let at_zero = points[0];
            proof {
                assert(before[0] == at_zero@);
                assert(expected.take(1)[0] == expected[0]);
                lemma_reduce_sub(last_claim@, round_sum(tables, 0));
            }
            last_claim.sub(&at_zero)
        } else {
            round_sum_at(mles, Scalar::from_u64(j as u64))
        };
        points.push(value);
        proof {
            assert(points.deep_view() =~= before.push(value@));
            assert(expected.take(j + 1) =~= before.push(value@));
        }
        j += 1;
    }
    proof {
        assert(expected.take(j as int) =~= expected);
    }
    points
}

/// Every table with its first variable set to `r`.
fn fold_tables(tables: &Vec<Vec<Scalar>>, r: Scalar) -> (folded: Vec<Vec<Scalar>>)
    ensures
        folded.deep_view() == fold_all(tables.deep_view(), r@),
        folded.len() == tables.len(),
        forall|k: int| 0 <= k < folded.len() ==> (#[trigger] folded[k]).len() == tables[k].len() / 2,
{
    let ghost expected = fold_all(tables.deep_view(), r@);
    let mut folded: Vec<Vec<Scalar>> = Vec::new();
    let mut k: usize = 0;
    while k < tables.len()
        invariant
            k <= tables.len(),
            expected == fold_all(tables.deep_view(), r@),
            folded.len() == k,
            forall|i: int| 0 <= i < k ==> (#[trigger] folded[i]).len() == tables[i].len() / 2,
            folded.deep_view() == expected.take(k as int),
        decreases tables.len() - k,
    {
        let ghost before = folded.deep_view();
        let table = set_variable_low(tables[k].as_slice(), r);
        proof {
            assert(tables.deep_view()[k as int] == tables[k as int].deep_view());
            assert(table.deep_view().len() == tables[k as int].deep_view().len() / 2);
        }
        folded.push(table);
        proof {
            assert(folded.deep_view() =~= before.push(table.deep_view()));
            assert(expected.take(k + 1) =~= before.push(table.deep_view()));
        }
        k += 1;
    }
    proof {
        assert(expected.take(k as int) =~= expected);
    }
    folded
}

/// Runs every round of the prover, and returns the round polynomials, the
/// challenges and the tables folded at all of them.
pub fn prove_rounds<T: ProtocolTranscript>(
    claim: Scalar,
    mles: Vec<Vec<Scalar>>,
    transcript: &mut T,
) -> (out: (Vec<Vec<Scalar>>, Vec<Scalar>, Vec<Vec<Scalar>>))
    requires
        tables_ready(mles.deep_view()),
        mles.len() < usize::MAX,
    ensures
        ({
            let end = prover_end(T::sponge(), old(transcript).state(), claim@, mles.deep_view());
            &&& out.0.deep_view() == end.polynomials
            &&& out.1.deep_view() == end.challenges
            &&& out.2.deep_view() == end.tables
            &&& final(transcript).state() == end.sponge_state
        }),
        out.0.len() == log2(mles[0].len() as nat),
        out.1.len() == log2(mles[0].len() as nat),
        out.2.len() == mles.len(),
        forall|k: int| 0 <= k < out.2.len() ==> (#[trigger] out.2[k]).len() == 1,
{
    let ghost sponge = T::sponge();
    let ghost start = prover_start(sponge, transcript.state(), claim@, mles.deep_view());
    let degree = mles.len();
    proof {
        assert(mles.deep_view()[0] == mles[0].deep_view());
        assert forall|k: int| 0 <= k < mles.len() implies (#[trigger] mles[k]).len()
            == mles[0].len() by {
            assert(mles.deep_view()[k] == mles[k].deep_view());
        }
    }
    let rounds = ilog2(mles[0].len());
    transcript.append_scalar("sumcheck_claim".as_bytes(), &claim);
    transcript.append_scalar("sumcheck_degree".as_bytes(), &Scalar::from_u64(degree as u64));
    transcript.append_scalar("sumcheck_rounds".as_bytes(), &Scalar::from_u64(rounds as u64));
    let mut tables = mles;
    let mut last_claim = claim;
    let mut polys: Vec<Vec<Scalar>> = Vec::new();
    let mut rs: Vec<Scalar> = Vec::new();
    let mut j: usize = 0;
    while j < rounds
        invariant
            j <= rounds,
            sponge == T::sponge(),
            1 <= tables.len() == degree < usize::MAX,
            polys.len() == j,
            rs.len() == j,
            rounds == log2(mles[0].len() as nat),
            forall|k: int|
                0 <= k < tables.len() ==> (#[trigger] tables[k]).len() == pow2(
                    (rounds - j) as nat,
                ),
            ({
                let now = prover_rounds(sponge, start, j as nat);
                &&& tables.deep_view() == now.tables
                &&& last_claim@ == now.claim
                &&& transcript.state() == now.sponge_state
                &&& polys.deep_view() == now.polynomials
                &&& rs.deep_view() == now.challenges
            }),
        decreases rounds - j,
    {
        let ghost now = prover_rounds(sponge, start, j as nat);
        let points = derive_points(&tables, last_claim);
        transcript.append_points("sumcheck_points".as_bytes(), points.as_slice());
        let r = transcript.challenge_scalar("sumcheck_challenge".as_bytes());
        let folded = fold_tables(&tables, r);
        let next_claim = eval_ule(points.as_slice(), r);
        proof {
            lemma_pow2_unfold((rounds - j) as nat);
            assert forall|k: int| 0 <= k < folded.len() implies (#[trigger] folded[k]).len()
                == pow2((rounds - j - 1) as nat) by {
                assert(tables[k].len() == pow2((rounds - j) as nat));
            }
        }
        let ghost polys_before = polys.deep_view();
        let ghost rs_before = rs.deep_view();
        polys.push(points);
        rs.push(r);
        proof {
            assert(polys.deep_view() =~= polys_before.push(points.deep_view()));
            assert(rs.deep_view() =~= rs_before.push(r@));
        }
        tables = folded;
        last_claim = next_claim;
        j += 1;
    }
    proof {
        lemma2_to64();
    }
    (polys, rs, tables)
}

/// Proves that the sum over the hypercube of the product of `mles` is
/// `claim`, and returns the round polynomials and the challenges.
pub fn prove<T: ProtocolTranscript>(claim: Scalar, mles: Vec<Vec<Scalar>>, transcript: &mut T) -> (out:
    (Vec<Vec<Scalar>>, Vec<Scalar>))
    requires
        tables_ready(mles.deep_view()),
        mles.len() < usize::MAX,
    ensures
        ({
            let end = prover_end(T::sponge(), old(transcript).state(), claim@, mles.deep_view());
            &&& out.0.deep_view() == end.polynomials
            &&& out.1.deep_view() == end.challenges
            &&& final(transcript).state() == end.sponge_state
        }),
        out.0.len() == log2(mles[0].len() as nat),
        out.1.len() == log2(mles[0].len() as nat),
{
    let (polys, rs, _) = prove_rounds(claim, mles, transcript);
    (polys, rs)
}

/// Whether the round polynomials have the shape that `degree` and `rounds`
/// ask for.
fn check_shape(polynomials: &Vec<Vec<Scalar>>, degree: usize, rounds: usize) -> (ok: bool)
    ensures
        ok == well_shaped(polynomials.deep_view(), degree as nat, rounds as nat),
{
    let ghost polys = polynomials.deep_view();
    if polynomials.len() != rounds {
        return false;
    }
    let mut j: usize = 0;
    while j < polynomials.len()
        invariant
            j <= polynomials.len(),
            polys == polynomials.deep_view(),
            forall|i: int|
                0 <= i < j ==> (#[trigger] polys[i]).len() == degree + 1 && polys[i].len() >= 2,
        decreases polynomials.len() - j,
    {
        let len = polynomials[j].len();
        proof {
            assert(polys[j as int] == polynomials[j as int].deep_view());
        }
        if len < 2 || len - 1 != degree {
            return false;
        }
        j += 1;
    }
    true
}

/// Checks the round polynomials of a sumcheck against `claim`.
///
/// Accepts where the polynomials have the right shape and each sums, at zero
/// and one, to the value of the one before at its challenge; then returns
/// the challenges and the value of the last polynomial at the last
/// challenge, which is what the product of the tables at the challenges must
/// be. A verifier that rejects stops at the first check that fails;
/// [`verifier_leaves`] says how the transcript is left.
pub fn verify<T: ProtocolTranscript>(
    claim: Scalar,
    polynomials: &Vec<Vec<Scalar>>,
    degree: usize,
    rounds: usize,
    transcript: &mut T,
) -> (out: Option<(Vec<Scalar>, Scalar)>)
    ensures
        ({
            let end = verifier_end(
                T::sponge(),
                old(transcript).state(),
                claim@,
                polynomials.deep_view(),
                degree as nat,
                rounds as nat,
            );
            &&& out.is_some() <==> well_shaped(
                polynomials.deep_view(),
                degree as nat,
                rounds as nat,
            ) && end.accepted
            &&& out matches Some(pair) ==> {
                &&& pair.0.deep_view() == end.challenges
                &&& pair.0.len() == rounds
                &&& pair.1@ == end.claim
                &&& final(transcript).state() == end.sponge_state
            }
        }),
        final(transcript).state() == verifier_leaves(
            T::sponge(),
            old(transcript).state(),
            claim@,
            polynomials.deep_view(),
            degree as nat,
            rounds as nat,
        ),
{
    let ghost sponge = T::sponge();
    let ghost polys = polynomials.deep_view();
    let ghost start = verifier_start(
        sponge,
        transcript.state(),
        claim@,
        degree as int,
        rounds as int,
    );
    if !check_shape(polynomials, degree, rounds) {
        return None;
    }
    transcript.append_scalar("sumcheck_claim".as_bytes(), &claim);
    transcript.append_scalar("sumcheck_degree".as_bytes(), &Scalar::from_u64(degree as u64));
    transcript.append_scalar("sumcheck_rounds".as_bytes(), &Scalar::from_u64(rounds as u64));
    let mut last_claim = claim;
    let mut rs: Vec<Scalar> = Vec::new();
    let mut j: usize = 0;
    while j < rounds
        invariant
            j <= rounds,
            sponge == T::sponge(),
            polys == polynomials.deep_view(),
            well_shaped(polys, degree as nat, rounds as nat),
            rs.len() == j,
            start == verifier_start(
                sponge,
                old(transcript).state(),
                claim@,
                degree as int,
                rounds as int,
            ),
            ({
                let now = verifier_rounds(sponge, polys, start, j as nat);
                &&& now.accepted
                &&& last_claim@ == now.claim
                &&& transcript.state() == now.sponge_state
                &&& rs.deep_view() == now.challenges
            }),
        decreases rounds - j,
    {
        let points = &polynomials[j];
        proof {
            assert(polys[j as int] == points.deep_view());
            assert(points.deep_view()[0] == points[0]@);
            assert(points.deep_view()[1] == points[1]@);
        }
        let sum = points[0].add(&points[1]);
        if !sum.equals(&last_claim) {
            proof {
                let now = verifier_rounds(sponge, polys, start, j as nat);
                assert(verifier_rounds(sponge, polys, start, (j + 1) as nat) == verifier_step(
                    sponge,
                    now,
                    polys[j as int],
                ));
                lemma_rejected_stays(sponge, polys, start, (j + 1) as nat, rounds as nat);
                lemma_rounds_passed(sponge, polys, start, j as nat, rounds as nat);
            }
            return None;
        }
        transcript.append_points("sumcheck_points".as_bytes(), points.as_slice());
        let r = transcript.challenge_scalar("sumcheck_challenge".as_bytes());
        let next_claim = eval_ule(points.as_slice(), r);
        let ghost rs_before = rs.deep_view();
        rs.push(r);
        proof {
            assert(rs.deep_view() =~= rs_before.push(r@));
        }
        last_claim = next_claim;
        j += 1;
    }
    proof {
        lemma_rounds_passed(sponge, polys, start, rounds as nat, rounds as nat);
    }
    Some((rs, last_claim))
}

/// The verifier goes through the rounds before the first check that fails.
pub proof fn lemma_rounds_passed(
    sponge: Sponge,
    polynomials: Seq<Seq<int>>,
    start: VerifierState,
    j: nat,
    n: nat,
)
    requires
        j <= n,
        j == 0 || verifier_rounds(sponge, polynomials, start, j).accepted,
        j < n ==> !verifier_rounds(sponge, polynomials, start, j + 1).accepted,
    ensures
        rounds_passed(sponge, polynomials, start, n) == j,
    decreases n - j,
{
    if j < n {
        lemma_rejected_stays(sponge, polynomials, start, j + 1, n);
        lemma_rounds_passed(sponge, polynomials, start, j, (n - 1) as nat);
    }
}

/// Where the verifier accepts, it leaves the sponge as it is after all the
/// rounds.
pub proof fn lemma_leaves_accepted(
    sponge: Sponge,
    state: Seq<u8>,
    claim: int,
    polynomials: Seq<Seq<int>>,
    degree: nat,
    rounds: nat,
)
    requires
        well_shaped(polynomials, degree, rounds),
        verifier_end(sponge, state, claim, polynomials, degree, rounds).accepted,
    ensures
        verifier_leaves(sponge, state, claim, polynomials, degree, rounds) == verifier_end(
            sponge,
            state,
            claim,
            polynomials,
            degree,
            rounds,
        ).sponge_state,
{
    let start = verifier_start(sponge, state, claim, degree as int, rounds as int);
    lemma_rounds_passed(sponge, polynomials, start, rounds, rounds);
}

/// Once a check has failed, the verifier never accepts again.
pub proof fn lemma_rejected_stays(
    sponge: Sponge,
    polynomials: Seq<Seq<int>>,
    start: VerifierState,
    j: nat,
    n: nat,
)
    requires
        j <= n,
        !verifier_rounds(sponge, polynomials, start, j).accepted,
    ensures
        !verifier_rounds(sponge, polynomials, start, n).accepted,
    decreases n - j,
{
    if j < n {
        lemma_rejected_stays(sponge, polynomials, start, j + 1, n);
    }
}

} // verus!
