//! The grand-product argument: that the product of a list of `2^n` values is
//! a claimed value.
//!
//! The values are the leaves of a binary tree of products. A claim about a
//! layer, at a point, is reduced by a sumcheck to a claim about the layer
//! below, at a point with one coordinate more, down to the leaves.

use crate::fiatshamir::scalar_bytes;
use crate::fiatshamir::ProtocolTranscript;
use crate::fiatshamir::Sponge;
use crate::field::lemma_reduce_mul;
use crate::field::reduce;
use crate::field::Scalar;
use crate::linearsumcheck::prove_rounds;
use crate::linearsumcheck::prover_end;
use crate::linearsumcheck::verifier_end;
use crate::linearsumcheck::verifier_leaves;
use crate::linearsumcheck::well_shaped;
use crate::multilinear::chi;
use crate::multilinear::chis;
use crate::multilinear::eq_product;
use crate::multilinear::eval_eq;
use crate::multilinear::eval_mle;
use crate::multilinear::ilog2;
use crate::multilinear::lemma_log2_pow2;
use crate::multilinear::log2;
use crate::multilinear::mle_eval;
use crate::univariate::eval_ule;
use crate::univariate::evaluate;
use vstd::arithmetic::power2::lemma2_to64;
use vstd::arithmetic::power2::lemma_pow2_strictly_increases;
use vstd::arithmetic::power2::lemma_pow2_unfold;
use vstd::arithmetic::power2::pow2;
use vstd::prelude::*;
use vstd::slice::slice_to_vec;
use vstd::string::StringSliceAdditionalSpecFns;

verus! {

/// The products of the pairs of neighbours of a layer: the layer above it.
pub open spec fn pair_products(layer: Seq<int>) -> Seq<int> {
    Seq::new(layer.len() / 2, |i: int| reduce(layer[2 * i] * layer[2 * i + 1]))
}

/// The entries of a layer at the even indices: the left factors.
pub open spec fn evens(layer: Seq<int>) -> Seq<int> {
    Seq::new(layer.len() / 2, |i: int| layer[2 * i])
}

/// The entries of a layer at the odd indices: the right factors.
pub open spec fn odds(layer: Seq<int>) -> Seq<int> {
    Seq::new(layer.len() / 2, |i: int| layer[2 * i + 1])
}

/// The layer that lies `height` layers above the leaves.
pub open spec fn layer_above(witness: Seq<int>, height: nat) -> Seq<int>
    decreases height,
{
    if height == 0 {
        witness
    } else {
        pair_products(layer_above(witness, (height - 1) as nat))
    }
}

/// The layers of the tree from the pair below the root down to the leaves.
pub open spec fn tree_layers(witness: Seq<int>) -> Seq<Seq<int>> {
    let depth = log2(witness.len());
    Seq::new(depth, |i: int| layer_above(witness, (depth - 1 - i) as nat))
}

/// What the argument needs of its witness: a length that is a power of two
/// and at least two.
pub open spec fn witness_ready(witness: Seq<int>) -> bool {
    witness.len() >= 2 && pow2(log2(witness.len())) == witness.len()
}

/// The equality table of a point.
pub open spec fn eq_table(point: Seq<int>) -> Seq<int> {
    Seq::new(pow2(point.len()), |b: int| reduce(chi(point, b)))
}

/// The challenge for the pair below the root, and the state of the sponge
/// after it: the claim and the pair are absorbed, then the challenge is
/// squeezed.
pub open spec fn root_challenge(
    sponge: Sponge,
    state: Seq<u8>,
    claim: int,
    left: int,
    right: int,
) -> (int, Seq<u8>) {
    let claimed = (sponge.absorb)(state, "grand_product_claim".spec_bytes(), scalar_bytes(claim));
    layer_challenge(sponge, claimed, left, right)
}

/// The challenge for a layer, and the state of the sponge after it: the two
/// evaluations are absorbed, then the challenge is squeezed.
pub open spec fn layer_challenge(sponge: Sponge, state: Seq<u8>, left: int, right: int) -> (
    int,
    Seq<u8>,
) {
    let first = (sponge.absorb)(state, "grand_product_point".spec_bytes(), scalar_bytes(left));
    let second = (sponge.absorb)(first, "grand_product_point".spec_bytes(), scalar_bytes(right));
    (sponge.squeeze)(second, "grand_product_challenge".spec_bytes())
}

/// Where a prover stands between two layers.
pub struct ProductProver {
    /// The claimed value of the current layer at `point`.
    pub claim: int,
    /// The point of the claim.
    pub point: Seq<int>,
    /// The state of the transcript's sponge.
    pub sponge_state: Seq<u8>,
    /// The claims so far, the first being the product itself.
    pub claims: Seq<int>,
    /// For each layer so far, the value of its left factors at the point of
    /// its sumcheck.
    pub left_evals: Seq<int>,
    /// The same for its right factors.
    pub right_evals: Seq<int>,
    /// The round polynomials of the sumchecks so far.
    pub proofs: Seq<Seq<Seq<int>>>,
}

/// Where a prover stands once the pair below the root is dealt with.
pub open spec fn product_prover_start(
    sponge: Sponge,
    state: Seq<u8>,
    claim: int,
    witness: Seq<int>,
) -> ProductProver {
    let root = layer_above(witness, (log2(witness.len()) - 1) as nat);
    let squeezed = root_challenge(sponge, state, claim, root[0], root[1]);
    let next = evaluate(seq![root[0], root[1]], squeezed.0);
    ProductProver {
        claim: next,
        point: seq![squeezed.0],
        sponge_state: squeezed.1,
        claims: seq![claim, next],
        left_evals: seq![root[0]],
        right_evals: seq![root[1]],
        proofs: Seq::empty(),
    }
}

/// The prover's work on one layer.
pub open spec fn product_prover_step(sponge: Sponge, before: ProductProver, layer: Seq<int>) -> ProductProver {
    let tables = seq![eq_table(before.point), evens(layer), odds(layer)];
    let sumcheck = prover_end(sponge, before.sponge_state, before.claim, tables);
    let left = reduce(mle_eval(sumcheck.challenges, evens(layer)));
    let right = reduce(mle_eval(sumcheck.challenges, odds(layer)));
    let squeezed = layer_challenge(sponge, sumcheck.sponge_state, left, right);
    let next = evaluate(seq![left, right], squeezed.0);
    ProductProver {
        claim: next,
        point: sumcheck.challenges.push(squeezed.0),
        sponge_state: squeezed.1,
        claims: before.claims.push(next),
        left_evals: before.left_evals.push(left),
        right_evals: before.right_evals.push(right),
        proofs: before.proofs.push(sumcheck.polynomials),
    }
}

/// Where a prover stands after `i` layers below the pair under the root.
pub open spec fn product_prover_layers(
    sponge: Sponge,
    start: ProductProver,
    witness: Seq<int>,
    i: nat,
) -> ProductProver
    decreases i,
{
    if i == 0 {
        start
    } else {
        product_prover_step(
            sponge,
            product_prover_layers(sponge, start, witness, (i - 1) as nat),
            layer_above(witness, (log2(witness.len()) - 1 - i) as nat),
        )
    }
}

/// Where a prover stands at the end.
pub open spec fn product_prover_end(
    sponge: Sponge,
    state: Seq<u8>,
    claim: int,
    witness: Seq<int>,
) -> ProductProver {
    product_prover_layers(
        sponge,
        product_prover_start(sponge, state, claim, witness),
        witness,
        (log2(witness.len()) - 1) as nat,
    )
}

/// Where a verifier stands between two layers.
pub struct ProductVerifier {
    /// The value that the current layer must have at `point`.
    pub claim: int,
    /// The point of the claim.
    pub point: Seq<int>,
    /// The state of the transcript's sponge.
    pub sponge_state: Seq<u8>,
    /// Whether every check so far has passed.
    pub accepted: bool,
}

/// The parts of a proof fit together: there are at least two claims, one
/// pair of evaluations for each claim but the first, and one sumcheck for
/// each but the first two.
pub open spec fn product_shape(
    claims: Seq<int>,
    left_evals: Seq<int>,
    right_evals: Seq<int>,
    proofs: Seq<Seq<Seq<int>>>,
) -> bool {
    &&& claims.len() >= 2
    &&& left_evals.len() == claims.len() - 1
    &&& right_evals.len() == claims.len() - 1
    &&& proofs.len() == claims.len() - 2
}

/// Where a verifier stands once the pair below the root is checked: its
/// product must be the first claim, and its value at the challenge the
/// second.
pub open spec fn product_verifier_start(
    sponge: Sponge,
    state: Seq<u8>,
    claims: Seq<int>,
    left_evals: Seq<int>,
    right_evals: Seq<int>,
) -> ProductVerifier {
    let squeezed = root_challenge(sponge, state, claims[0], left_evals[0], right_evals[0]);
    let next = evaluate(seq![left_evals[0], right_evals[0]], squeezed.0);
    ProductVerifier {
        claim: next,
        point: seq![squeezed.0],
        sponge_state: squeezed.1,
        accepted: claims[0] == reduce(left_evals[0] * right_evals[0]) && claims[1] == next,
    }
}

/// The verifier's work on one layer: the sumcheck must pass, its final value
/// must be the product of the equality polynomial and the two evaluations,
/// and the next claim must be the value of the two evaluations at the
/// challenge.
pub open spec fn product_verifier_step(
    sponge: Sponge,
    before: ProductVerifier,
    polynomials: Seq<Seq<int>>,
    rounds: nat,
    left: int,
    right: int,
    next_claim: int,
) -> ProductVerifier {
    let sumcheck = verifier_end(
        sponge,
        before.sponge_state,
        before.claim,
        polynomials,
        3,
        rounds,
    );
    let squeezed = layer_challenge(sponge, sumcheck.sponge_state, left, right);
    let next = evaluate(seq![left, right], squeezed.0);
    ProductVerifier {
        claim: next,
        point: sumcheck.challenges.push(squeezed.0),
        sponge_state: squeezed.1,
        accepted: before.accepted && well_shaped(polynomials, 3, rounds) && sumcheck.accepted
            && sumcheck.claim == reduce(
            eq_product(before.point, sumcheck.challenges) * left * right,
        ) && next_claim == next,
    }
}

/// Where a verifier stands after `i` layers below the pair under the root.
pub open spec fn product_verifier_layers(
    sponge: Sponge,
    start: ProductVerifier,
    claims: Seq<int>,
    left_evals: Seq<int>,
    right_evals: Seq<int>,
    proofs: Seq<Seq<Seq<int>>>,
    i: nat,
) -> ProductVerifier
    decreases i,
{
    if i == 0 {
        start
    } else {
        product_verifier_step(
            sponge,
            product_verifier_layers(
                sponge,
                start,
                claims,
                left_evals,
                right_evals,
                proofs,
                (i - 1) as nat,
            ),
            proofs[i - 1],
            i,
            left_evals[i as int],
            right_evals[i as int],
            claims[i as int + 1],
        )
    }
}

/// Where a verifier stands at the end.
pub open spec fn product_verifier_end(
    sponge: Sponge,
    state: Seq<u8>,
    claims: Seq<int>,
    left_evals: Seq<int>,
    right_evals: Seq<int>,
    proofs: Seq<Seq<Seq<int>>>,
) -> ProductVerifier {
    product_verifier_layers(
        sponge,
        product_verifier_start(sponge, state, claims, left_evals, right_evals),
        claims,
        left_evals,
        right_evals,
        proofs,
        (claims.len() - 2) as nat,
    )
}

/// The number of layers that the verifier goes through: all of them where it
/// accepts, and else those before the first check that fails.
pub open spec fn layers_passed(
    sponge: Sponge,
    start: ProductVerifier,
    claims: Seq<int>,
    left_evals: Seq<int>,
    right_evals: Seq<int>,
    proofs: Seq<Seq<Seq<int>>>,
    n: nat,
) -> nat
    decreases n,
{
    if n == 0 {
        0
    } else if product_verifier_layers(
        sponge,
        start,
        claims,
        left_evals,
        right_evals,
        proofs,
        n,
    ).accepted {
        n
    } else {
        layers_passed(sponge, start, claims, left_evals, right_evals, proofs, (n - 1) as nat)
    }
}

/// The state in which the verifier leaves the sponge, whether it accepts or
/// not. Where the parts of the proof do not fit together, the sponge is
/// untouched. Where the pair below the root fails, the sponge is as it is
/// after the challenge of the pair. Where the sumcheck of a layer fails, the
/// sponge is as that sumcheck leaves it; where another check of a layer
/// fails, and where every check passes, the sponge is as it is after the
/// challenge of the last layer that the verifier came to.
pub open spec fn product_verifier_leaves(
    sponge: Sponge,
    state: Seq<u8>,
    claims: Seq<int>,
    left_evals: Seq<int>,
    right_evals: Seq<int>,
    proofs: Seq<Seq<Seq<int>>>,
) -> Seq<u8> {
    if !product_shape(claims, left_evals, right_evals, proofs) {
        state
    } else {
        let start = product_verifier_start(sponge, state, claims, left_evals, right_evals);
        let last = (claims.len() - 2) as nat;
        let passed = layers_passed(sponge, start, claims, left_evals, right_evals, proofs, last);
        let now = product_verifier_layers(
            sponge,
            start,
            claims,
            left_evals,
            right_evals,
            proofs,
            passed,
        );
        if !start.accepted || passed == last {
            now.sponge_state
        } else if well_shaped(proofs[passed as int], 3, passed + 1) && verifier_end(
            sponge,
            now.sponge_state,
            now.claim,
            proofs[passed as int],
            3,
            passed + 1,
        ).accepted {
            product_verifier_layers(
                sponge,
                start,
                claims,
                left_evals,
                right_evals,
                proofs,
                passed + 1,
            ).sponge_state
        } else {
            verifier_leaves(
                sponge,
                now.sponge_state,
                now.claim,
                proofs[passed as int],
                3,
                passed + 1,
            )
        }
    }
}

/// The verifier goes through the layers before the first check that fails.
pub proof fn lemma_layers_passed(
    sponge: Sponge,
    start: ProductVerifier,
    claims: Seq<int>,
    left_evals: Seq<int>,
    right_evals: Seq<int>,
    proofs: Seq<Seq<Seq<int>>>,
    i: nat,
    n: nat,
)
    requires
        i <= n,
        i == 0 || product_verifier_layers(
            sponge,
            start,
            claims,
            left_evals,
            right_evals,
            proofs,
            i,
        ).accepted,
        i < n ==> !product_verifier_layers(
            sponge,
            start,
            claims,
            left_evals,
            right_evals,
            proofs,
            i + 1,
        ).accepted,
    ensures
        layers_passed(sponge, start, claims, left_evals, right_evals, proofs, n) == i,
    decreases n - i,
{
    if i < n {
        lemma_product_rejected_stays(
            sponge,
            start,
            claims,
            left_evals,
            right_evals,
            proofs,
            i + 1,
            n,
        );
        lemma_layers_passed(
            sponge,
            start,
            claims,
            left_evals,
            right_evals,
            proofs,
            i,
            (n - 1) as nat,
        );
    }
}

/// Where the verifier accepts, it leaves the sponge as it is after all the
/// layers.
pub proof fn lemma_product_leaves_accepted(
    sponge: Sponge,
    state: Seq<u8>,
    claims: Seq<int>,
    left_evals: Seq<int>,
    right_evals: Seq<int>,
    proofs: Seq<Seq<Seq<int>>>,
)
    requires
        product_shape(claims, left_evals, right_evals, proofs),
        product_verifier_end(sponge, state, claims, left_evals, right_evals, proofs).accepted,
    ensures
        product_verifier_leaves(sponge, state, claims, left_evals, right_evals, proofs)
            == product_verifier_end(
            sponge,
            state,
            claims,
            left_evals,
            right_evals,
            proofs,
        ).sponge_state,
{
    let start = product_verifier_start(sponge, state, claims, left_evals, right_evals);
    let last = (claims.len() - 2) as nat;
    lemma_layers_passed(sponge, start, claims, left_evals, right_evals, proofs, last, last);
}

/// Once a check has failed, the verifier never accepts again.
pub proof fn lemma_product_rejected_stays(
    sponge: Sponge,
    start: ProductVerifier,
    claims: Seq<int>,
    left_evals: Seq<int>,
    right_evals: Seq<int>,
    proofs: Seq<Seq<Seq<int>>>,
    i: nat,
    n: nat,
)
    requires
        i <= n,
        !product_verifier_layers(sponge, start, claims, left_evals, right_evals, proofs, i).accepted,
    ensures
        !product_verifier_layers(sponge, start, claims, left_evals, right_evals, proofs, n).accepted,
    decreases n - i,
{
    if i < n {
        lemma_product_rejected_stays(
            sponge,
            start,
            claims,
            left_evals,
            right_evals,
            proofs,
            i + 1,
            n,
        );
    }
}

/// The layer of products above `layer`.
fn layer_products(layer: &Vec<Scalar>) -> (above: Vec<Scalar>)
    ensures
        above.deep_view() == pair_products(layer.deep_view()),
        above.len() == layer.len() / 2,
{
    let ghost expected = pair_products(layer.deep_view());
    let half = layer.len() / 2;
    let mut above: Vec<Scalar> = Vec::new();
    let mut i: usize = 0;
    while i < half
        invariant
            i <= half == layer.len() / 2,
            expected == pair_products(layer.deep_view()),
            above.len() == i,
            above.deep_view() == expected.take(i as int),
        decreases half - i,
    {
        let ghost before = above.deep_view();
        let product = layer[i * 2].mul(&layer[i * 2 + 1]);
        above.push(product);
        proof {
            assert(above.deep_view() =~= before.push(product@));
            assert(expected.take(i + 1) =~= before.push(product@));
        }
        i += 1;
    }
    proof {
        assert(expected.take(half as int) =~= expected);
    }
    above
}

/// The tree of products over `witness`, from the pair below the root down
/// to the witness itself.
pub fn compute_tree(witness: &[Scalar]) -> (layers: Vec<Vec<Scalar>>)
    requires
        witness_ready(witness.deep_view()),
    ensures
        layers.deep_view() == tree_layers(witness.deep_view()),
        layers.len() == log2(witness.len() as nat),
        forall|i: int| 0 <= i < layers.len() ==> (#[trigger] layers[i]).len() == pow2((i + 1) as nat),
{
    let ghost leaves = witness.deep_view();
    let depth = ilog2(witness.len());
    let mut upward: Vec<Vec<Scalar>> = Vec::new();
    let mut last = slice_to_vec(witness);
    proof {
        lemma2_to64();
        assert(last.deep_view() =~= leaves);
        if depth == 0 {
            assert(pow2(0) == 1);
        }
    }
    let mut h: usize = 0;
    // the layers from the leaves up
    while h + 1 < depth
        invariant
            h + 1 <= depth,
            depth == log2(leaves.len()),
            pow2(depth as nat) == leaves.len(),
            leaves == witness.deep_view(),
            upward.len() == h,
            last.deep_view() == layer_above(leaves, h as nat),
            last.len() == pow2((depth - h) as nat),
            forall|i: int| 0 <= i < h ==> (#[trigger] upward[i]).deep_view() == layer_above(leaves, i as nat),
            forall|i: int| 0 <= i < h ==> (#[trigger] upward[i]).len() == pow2((depth - i) as nat),
        decreases depth - h,
    {
        let next = layer_products(&last);
        proof {
            lemma_pow2_unfold((depth - h) as nat);
        }
        upward.push(last);
        last = next;
        h += 1;
    }
    upward.push(last);
    // the same layers from the top down
    let ghost expected = tree_layers(leaves);
    let mut layers: Vec<Vec<Scalar>> = Vec::new();
    let mut i: usize = 0;
    while i < depth
        invariant
            i <= depth,
            depth == log2(leaves.len()),
            expected == tree_layers(leaves),
            upward.len() == depth - i,
            layers.len() == i,
            forall|j: int| 0 <= j < depth - i ==> (#[trigger] upward[j]).deep_view() == layer_above(leaves, j as nat),
            forall|j: int| 0 <= j < depth - i ==> (#[trigger] upward[j]).len() == pow2((depth - j) as nat),
            forall|j: int| 0 <= j < i ==> (#[trigger] layers[j]).len() == pow2((j + 1) as nat),
            layers.deep_view() == expected.take(i as int),
        decreases depth - i,
    {
        let ghost before = layers.deep_view();
        let layer = upward.pop().unwrap();
        layers.push(layer);
        proof {
            assert(layers.deep_view() =~= before.push(layer.deep_view()));
            assert(expected.take(i + 1) =~= before.push(layer.deep_view()));
        }
        i += 1;
    }
    proof {
        assert(expected.take(depth as int) =~= expected);
    }
    layers
}

/// The left and the right factors of the layer above `witness`: its entries
/// at the even and at the odd indices.
pub fn factor(witness: &[Scalar]) -> (halves: (Vec<Scalar>, Vec<Scalar>))
    ensures
        halves.0.deep_view() == evens(witness.deep_view()),
        halves.1.deep_view() == odds(witness.deep_view()),
        halves.0.len() == witness.len() / 2,
        halves.1.len() == witness.len() / 2,
{
    let half = witness.len() / 2;
    let ghost left = evens(witness.deep_view());
    let ghost right = odds(witness.deep_view());
    let mut l: Vec<Scalar> = Vec::new();
    let mut r: Vec<Scalar> = Vec::new();
    let mut i: usize = 0;
    while i < half
        invariant
            i <= half == witness.len() / 2,
            left == evens(witness.deep_view()),
            right == odds(witness.deep_view()),
            l.len() == i,
            r.len() == i,
            l.deep_view() == left.take(i as int),
            r.deep_view() == right.take(i as int),
        decreases half - i,
    {
        let ghost l_before = l.deep_view();
        let ghost r_before = r.deep_view();
        l.push(witness[i * 2]);
        r.push(witness[i * 2 + 1]);
        proof {
            assert(l.deep_view() =~= l_before.push(witness[i * 2]@));
            assert(r.deep_view() =~= r_before.push(witness[i * 2 + 1]@));
            assert(left.take(i + 1) =~= l_before.push(witness[i * 2]@));
            assert(right.take(i + 1) =~= r_before.push(witness[i * 2 + 1]@));
        }
        i += 1;
    }
    proof {
        assert(left.take(half as int) =~= left);
        assert(right.take(half as int) =~= right);
    }
    (l, r)
}

/// The value at `r` of the line through `left` at zero and `right` at one.
fn pair_at(left: Scalar, right: Scalar, r: Scalar) -> (value: Scalar)
    ensures
        value@ == evaluate(seq![left@, right@], r@),
{
    let pair = vec![left, right];
    proof {
        assert(pair.deep_view() =~= seq![left@, right@]);
    }
    eval_ule(pair.as_slice(), r)
}

/// Absorbs the two evaluations of a layer and squeezes its challenge.
fn challenge_layer<T: ProtocolTranscript>(left: &Scalar, right: &Scalar, transcript: &mut T) -> (challenge:
    Scalar)
    ensures
        challenge@ == layer_challenge(T::sponge(), old(transcript).state(), left@, right@).0,
        final(transcript).state() == layer_challenge(
            T::sponge(),
            old(transcript).state(),
            left@,
            right@,
        ).1,
{
    transcript.append_scalar("grand_product_point".as_bytes(), left);
    transcript.append_scalar("grand_product_point".as_bytes(), right);
    transcript.challenge_scalar("grand_product_challenge".as_bytes())
}

/// Proves that the product of `witness` is `claim`, and returns the claims,
/// the evaluations of the left and of the right factors, and the round
/// polynomials of the sumchecks.
pub fn prove<T: ProtocolTranscript>(witness: &[Scalar], claim: Scalar, transcript: &mut T) -> (out: (
    Vec<Scalar>,
    Vec<Scalar>,
    Vec<Scalar>,
    Vec<Vec<Vec<Scalar>>>,
))
    requires
        witness_ready(witness.deep_view()),
    ensures
        ({
            let end = product_prover_end(
                T::sponge(),
                old(transcript).state(),
                claim@,
                witness.deep_view(),
            );
            &&& out.0.deep_view() == end.claims
            &&& out.1.deep_view() == end.left_evals
            &&& out.2.deep_view() == end.right_evals
            &&& out.3.deep_view() == end.proofs
            &&& final(transcript).state() == end.sponge_state
        }),
        out.0.len() == log2(witness.len() as nat) + 1,
        out.1.len() == log2(witness.len() as nat),
        out.2.len() == log2(witness.len() as nat),
        out.3.len() == log2(witness.len() as nat) - 1,
{
    let ghost sponge = T::sponge();
    let ghost leaves = witness.deep_view();
    let ghost start = product_prover_start(sponge, transcript.state(), claim@, leaves);
    let layers = compute_tree(witness);
    let depth = layers.len();
    proof {
        lemma2_to64();
        assert(depth >= 1) by {
            if depth == 0 {
                assert(pow2(0) == 1);
            }
        }
        assert(layers.deep_view()[0] == layers[0].deep_view());
        assert(layers[0].len() == pow2(1));
    }
    let root_left = layers[0][0];
    let root_right = layers[0][1];
    transcript.append_scalar("grand_product_claim".as_bytes(), &claim);
    let challenge = challenge_layer(&root_left, &root_right, transcript);
    let mut current = pair_at(root_left, root_right, challenge);
    let mut claims: Vec<Scalar> = vec![claim, current];
    let mut left_evals: Vec<Scalar> = vec![root_left];
    let mut right_evals: Vec<Scalar> = vec![root_right];
    let mut sumcheck_proofs: Vec<Vec<Vec<Scalar>>> = Vec::new();
    let mut z: Vec<Scalar> = vec![challenge];
    proof {
        assert(claims.deep_view() =~= start.claims);
        assert(left_evals.deep_view() =~= start.left_evals);
        assert(right_evals.deep_view() =~= start.right_evals);
        assert(sumcheck_proofs.deep_view() =~= start.proofs);
        assert(z.deep_view() =~= start.point);
    }
    let mut i: usize = 1;
    while i < depth
        invariant
            1 <= i <= depth,
            sponge == T::sponge(),
            leaves == witness.deep_view(),
            depth == layers.len(),
            depth == log2(leaves.len()),
            layers.deep_view() == tree_layers(leaves),
            forall|j: int| 0 <= j < layers.len() ==> (#[trigger] layers[j]).len() == pow2((j + 1) as nat),
            claims.len() == i + 1,
            left_evals.len() == i,
            right_evals.len() == i,
            sumcheck_proofs.len() == i - 1,
            z.len() == i,
            ({
                let now = product_prover_layers(sponge, start, leaves, (i - 1) as nat);
                &&& current@ == now.claim
                &&& z.deep_view() == now.point
                &&& transcript.state() == now.sponge_state
                &&& claims.deep_view() == now.claims
                &&& left_evals.deep_view() == now.left_evals
                &&& right_evals.deep_view() == now.right_evals
                &&& sumcheck_proofs.deep_view() == now.proofs
            }),
        decreases depth - i,
    {
        let layer = &layers[i];
        proof {
            assert(layers.deep_view()[i as int] == layer.deep_view());
            assert(layer.len() == pow2((i + 1) as nat));
            lemma_pow2_unfold((i + 1) as nat);
            lemma_log2_pow2(i as nat);
            lemma_pow2_strictly_increases(0, i as nat);
        }
        let eq = chis(z.as_slice());
        let (l, r) = factor(layer.as_slice());
        let mles = vec![eq, slice_to_vec(l.as_slice()), slice_to_vec(r.as_slice())];
        proof {
            assert(eq.deep_view() =~= eq_table(z.deep_view()));
            assert(mles.deep_view() =~= seq![
                eq_table(z.deep_view()),
                evens(layer.deep_view()),
                odds(layer.deep_view()),
            ]);
        }
        let (polys, rs, _) = prove_rounds(current, mles, transcript);
        let left = eval_mle(rs.as_slice(), l.as_slice());
        let right = eval_mle(rs.as_slice(), r.as_slice());
        let challenge = challenge_layer(&left, &right, transcript);
        let next = pair_at(left, right, challenge);
        let ghost claims_before = claims.deep_view();
        let ghost left_before = left_evals.deep_view();
        let ghost right_before = right_evals.deep_view();
        let ghost proofs_before = sumcheck_proofs.deep_view();
        let ghost rs_before = rs.deep_view();
        claims.push(next);
        left_evals.push(left);
        right_evals.push(right);
        sumcheck_proofs.push(polys);
        let mut point = rs;
        point.push(challenge);
        proof {
            assert(claims.deep_view() =~= claims_before.push(next@));
            assert(left_evals.deep_view() =~= left_before.push(left@));
            assert(right_evals.deep_view() =~= right_before.push(right@));
            assert(sumcheck_proofs.deep_view() =~= proofs_before.push(polys.deep_view()));
            assert(point.deep_view() =~= rs_before.push(challenge@));
        }
        z = point;
        current = next;
        i += 1;
    }
    (claims, left_evals, right_evals, sumcheck_proofs)
}

/// Checks a grand-product proof.
///
/// Accepts where the parts of the proof fit together, the pair below the
/// root multiplies to the first claim, every sumcheck passes and ends in the
/// product of the equality polynomial and the two evaluations of its layer,
/// and every claim is the value of the evaluations before it at their
/// challenge; then returns the last claim and its point, which say what the
/// multilinear extension of the witness must be there. A verifier that
/// rejects stops at the first check that fails; [`product_verifier_leaves`]
/// says how the transcript is left.
pub fn verify<T: ProtocolTranscript>(
    claims: &[Scalar],
    left_evals: &[Scalar],
    right_evals: &[Scalar],
    sumcheck_proofs: &[Vec<Vec<Scalar>>],
    transcript: &mut T,
) -> (out: Option<(Scalar, Vec<Scalar>)>)
    ensures
        ({
            let end = product_verifier_end(
                T::sponge(),
                old(transcript).state(),
                claims.deep_view(),
                left_evals.deep_view(),
                right_evals.deep_view(),
                sumcheck_proofs.deep_view(),
            );
            &&& out.is_some() <==> product_shape(
                claims.deep_view(),
                left_evals.deep_view(),
                right_evals.deep_view(),
                sumcheck_proofs.deep_view(),
            ) && end.accepted
            &&& out matches Some(pair) ==> {
                &&& pair.0@ == end.claim
                &&& pair.1.deep_view() == end.point
                &&& pair.1.len() == claims.len() - 1
                &&& final(transcript).state() == end.sponge_state
            }
        }),
        final(transcript).state() == product_verifier_leaves(
            T::sponge(),
            old(transcript).state(),
            claims.deep_view(),
            left_evals.deep_view(),
            right_evals.deep_view(),
            sumcheck_proofs.deep_view(),
        ),
{
    let ghost sponge = T::sponge();
    let ghost cs = claims.deep_view();
    let ghost ls = left_evals.deep_view();
    let ghost rs = right_evals.deep_view();
    let ghost ps = sumcheck_proofs.deep_view();
    let ghost start = product_verifier_start(sponge, transcript.state(), cs, ls, rs);
    if claims.len() < 2 || left_evals.len() != claims.len() - 1 || right_evals.len()
        != claims.len() - 1 || sumcheck_proofs.len() != claims.len() - 2 {
        return None;
    }
    let depth = claims.len() - 1;
    let ghost last = (depth - 1) as nat;
    transcript.append_scalar("grand_product_claim".as_bytes(), &claims[0]);
    let challenge = challenge_layer(&left_evals[0], &right_evals[0], transcript);
    let mut current = pair_at(left_evals[0], right_evals[0], challenge);
    let root = left_evals[0].mul(&right_evals[0]);
    if !claims[0].equals(&root) || !claims[1].equals(&current) {
        proof {
            lemma_product_rejected_stays(sponge, start, cs, ls, rs, ps, 0, last);
            lemma_all_layers_rejected(sponge, start, cs, ls, rs, ps, last);
        }
        return None;
    }
    let mut z: Vec<Scalar> = vec![challenge];
    proof {
        assert(z.deep_view() =~= start.point);
    }
    let mut i: usize = 1;
    while i < depth
        invariant
            1 <= i <= depth,
            depth == claims.len() - 1,
            last == depth - 1,
            sponge == T::sponge(),
            cs == claims.deep_view(),
            ls == left_evals.deep_view(),
            rs == right_evals.deep_view(),
            ps == sumcheck_proofs.deep_view(),
            product_shape(cs, ls, rs, ps),
            start == product_verifier_start(sponge, old(transcript).state(), cs, ls, rs),
            start.accepted,
            z.len() == i,
            ({
                let now = product_verifier_layers(sponge, start, cs, ls, rs, ps, (i - 1) as nat);
                &&& now.accepted
                &&& current@ == now.claim
                &&& z.deep_view() == now.point
                &&& transcript.state() == now.sponge_state
            }),
        decreases depth - i,
    {
        let ghost now = product_verifier_layers(sponge, start, cs, ls, rs, ps, (i - 1) as nat);
        let ghost then = product_verifier_layers(sponge, start, cs, ls, rs, ps, i as nat);
        proof {
            assert(ps[i - 1] == sumcheck_proofs[i - 1].deep_view());
            assert(then == product_verifier_step(
                sponge,
                now,
                ps[i - 1],
                i as nat,
                ls[i as int],
                rs[i as int],
                cs[i + 1],
            ));
        }
        let checked = crate::linearsumcheck::verify(
            current,
            &sumcheck_proofs[i - 1],
            3,
            i,
            transcript,
        );
        if checked.is_none() {
            proof {
                lemma_product_rejected_stays(sponge, start, cs, ls, rs, ps, i as nat, last);
                lemma_layers_passed(sponge, start, cs, ls, rs, ps, (i - 1) as nat, last);
            }
            return None;
        }
        let (rands, expected) = checked.unwrap();
        let left = left_evals[i];
        let right = right_evals[i];
        let challenge = challenge_layer(&left, &right, transcript);
        let eq = eval_eq(z.as_slice(), rands.as_slice());
        let product = eq.mul(&left).mul(&right);
        let next = pair_at(left, right, challenge);
        proof {
            let e = eq_product(z.deep_view(), rands.deep_view());
            lemma_reduce_mul(e, left@);
            lemma_reduce_mul(e * left@, right@);
        }
        if !expected.equals(&product) || !claims[i + 1].equals(&next) {
            proof {
                lemma_product_rejected_stays(sponge, start, cs, ls, rs, ps, i as nat, last);
                lemma_layers_passed(sponge, start, cs, ls, rs, ps, (i - 1) as nat, last);
            }
            return None;
        }
        let ghost rands_before = rands.deep_view();
        let mut point = rands;
        point.push(challenge);
        proof {
            assert(point.deep_view() =~= rands_before.push(challenge@));
        }
        z = point;
        current = next;
        i += 1;
    }
    proof {
        lemma_layers_passed(sponge, start, cs, ls, rs, ps, last, last);
    }
    Some((current, z))
}

/// Where the pair below the root fails, the verifier goes through no layer.
pub proof fn lemma_all_layers_rejected(
    sponge: Sponge,
    start: ProductVerifier,
    claims: Seq<int>,
    left_evals: Seq<int>,
    right_evals: Seq<int>,
    proofs: Seq<Seq<Seq<int>>>,
    n: nat,
)
    requires
        !start.accepted,
    ensures
        layers_passed(sponge, start, claims, left_evals, right_evals, proofs, n) == 0,
    decreases n,
{
    if n > 0 {
        lemma_product_rejected_stays(sponge, start, claims, left_evals, right_evals, proofs, 0, n);
        lemma_all_layers_rejected(
            sponge,
            start,
            claims,
            left_evals,
            right_evals,
            proofs,
            (n - 1) as nat,
        );
    }
}

/// The proof of a grand product.
#[derive(Clone, Debug)]
pub struct GrandProductProof {
    /// The claims, from the product itself down to the claim about the
    /// witness.
    pub claims: Vec<Scalar>,
    /// For each layer, the value of its left factors at the point of its
    /// sumcheck.
    pub left_evals: Vec<Scalar>,
    /// The same for its right factors.
    pub right_evals: Vec<Scalar>,
    /// The round polynomials of the sumcheck of each layer but the first.
    pub sumcheck_proofs: Vec<Vec<Vec<Scalar>>>,
}

impl GrandProductProof {
    /// Proves that the product of `witness` is `claim`.
    pub fn prove<T: ProtocolTranscript>(witness: &[Scalar], claim: Scalar, transcript: &mut T) -> (proof:
        Self)
        requires
            witness_ready(witness.deep_view()),
        ensures
            ({
                let end = product_prover_end(
                    T::sponge(),
                    old(transcript).state(),
                    claim@,
                    witness.deep_view(),
                );
                &&& proof.claims.deep_view() == end.claims
                &&& proof.left_evals.deep_view() == end.left_evals
                &&& proof.right_evals.deep_view() == end.right_evals
                &&& proof.sumcheck_proofs.deep_view() == end.proofs
                &&& final(transcript).state() == end.sponge_state
            }),
            proof.claims.len() == log2(witness.len() as nat) + 1,
    {
        let (claims, left_evals, right_evals, sumcheck_proofs) = prove(witness, claim, transcript);
        GrandProductProof { claims, left_evals, right_evals, sumcheck_proofs }
    }

    /// Checks the proof, as [`verify`] does.
    pub fn verify<T: ProtocolTranscript>(&self, transcript: &mut T) -> (out: Option<
        (Scalar, Vec<Scalar>),
    >)
        ensures
            ({
                let end = product_verifier_end(
                    T::sponge(),
                    old(transcript).state(),
                    self.claims.deep_view(),
                    self.left_evals.deep_view(),
                    self.right_evals.deep_view(),
                    self.sumcheck_proofs.deep_view(),
                );
                &&& out.is_some() <==> product_shape(
                    self.claims.deep_view(),
                    self.left_evals.deep_view(),
                    self.right_evals.deep_view(),
                    self.sumcheck_proofs.deep_view(),
                ) && end.accepted
                &&& out matches Some(pair) ==> {
                    &&& pair.0@ == end.claim
                    &&& pair.1.deep_view() == end.point
                    &&& pair.1.len() == self.claims.len() - 1
                    &&& final(transcript).state() == end.sponge_state
                }
            }),
            final(transcript).state() == product_verifier_leaves(
                T::sponge(),
                old(transcript).state(),
                self.claims.deep_view(),
                self.left_evals.deep_view(),
                self.right_evals.deep_view(),
                self.sumcheck_proofs.deep_view(),
            ),
    {
        verify(
            self.claims.as_slice(),
            self.left_evals.as_slice(),
            self.right_evals.as_slice(),
            self.sumcheck_proofs.as_slice(),
            transcript,
        )
    }
}

} // verus!
