//! The grand-product argument is complete: where the claim is the product
//! of the witness, the verifier accepts what the prover sends, and what it
//! returns is the value of the extension of the witness at the point that
//! it returns.

use crate::algebra::entries;
use crate::algebra::lemma_product_pairs;
use crate::algebra::lemma_product_to_congruent;
use crate::algebra::lemma_sum_to_congruent;
use crate::algebra::product_of;
use crate::algebra::product_to;
use crate::algebra::sum_to;
use crate::completeness::entry_factors;
use crate::completeness::eval_factors;
use crate::completeness::hypercube_sum;
use crate::completeness::lemma_sumcheck_complete;
use crate::completeness::product_at;
use crate::completeness::product_terms;
use crate::fiatshamir::well_behaved;
use crate::fiatshamir::Sponge;
use crate::field::lemma_congruent_add;
use crate::field::lemma_congruent_mul;
use crate::field::lemma_reduce_mul;
use crate::field::lemma_reduce_range;
use crate::field::lemma_reduce_small;
use crate::field::lemma_units_three;
use crate::field::modulus;
use crate::field::reduce;
use crate::folding::eq_table_terms;
use crate::folding::lemma_eq_tables;
use crate::folding::lemma_mle_last;
use crate::grandproduct::eq_table;
use crate::grandproduct::evens;
use crate::grandproduct::layer_above;
use crate::grandproduct::layer_challenge;
use crate::grandproduct::lemma_product_leaves_accepted;
use crate::grandproduct::odds;
use crate::grandproduct::pair_products;
use crate::grandproduct::product_prover_end;
use crate::grandproduct::product_prover_layers;
use crate::grandproduct::product_prover_start;
use crate::grandproduct::product_prover_step;
use crate::grandproduct::product_shape;
use crate::grandproduct::product_verifier_end;
use crate::grandproduct::product_verifier_layers;
use crate::grandproduct::product_verifier_leaves;
use crate::grandproduct::product_verifier_start;
use crate::grandproduct::root_challenge;
use crate::grandproduct::witness_ready;
use crate::grandproduct::ProductProver;
use crate::interpolation::lemma_evaluate_pair;
use crate::linearsumcheck::prover_end;
use crate::linearsumcheck::tables_ready;
use crate::multilinear::chi;
use crate::multilinear::eq_product;
use crate::multilinear::index_bits;
use crate::multilinear::lemma_log2_pow2;
use crate::multilinear::log2;
use crate::multilinear::mle_eval;
use crate::multilinear::mle_terms;
use crate::univariate::evaluate;
use vstd::arithmetic::power2::lemma2_to64;
use vstd::arithmetic::power2::lemma_pow2_strictly_increases;
use vstd::arithmetic::power2::lemma_pow2_unfold;
use vstd::arithmetic::power2::pow2;
use vstd::prelude::*;

verus! {

/// Every entry of the list is a canonical field element.
pub open spec fn canonical_list(list: Seq<int>) -> bool {
    forall|i: int| 0 <= i < list.len() ==> reduce(#[trigger] list[i]) == list[i]
}

/// A product of three factors.
pub proof fn lemma_product_three(f: spec_fn(int) -> int)
    ensures
        product_to(3, f) == f(0) * f(1) * f(2),
        product_to(2, f) == f(0) * f(1),
{
    assert(product_to(1, f) == product_to(0, f) * f(0));
    assert(product_to(2, f) == product_to(1, f) * f(1));
    assert(product_to(3, f) == product_to(2, f) * f(2));
}

/// The layer above a layer has the same product.
pub proof fn lemma_pair_products(layer: Seq<int>, half: nat)
    requires
        layer.len() == 2 * half,
    ensures
        pair_products(layer).len() == half,
        canonical_list(pair_products(layer)),
        reduce(product_of(pair_products(layer))) == reduce(product_of(layer)),
{
    let above = pair_products(layer);
    let pairs = |t: int| layer[2 * t] * layer[2 * t + 1];
    assert forall|t: int| 0 <= t < half implies #[trigger] pairs(t) == entries(layer)(2 * t)
        * entries(layer)(2 * t + 1) by {}
    lemma_product_pairs(half, entries(layer), pairs);
    assert forall|t: int| 0 <= t < half implies reduce(#[trigger] entries(above)(t)) == reduce(
        pairs(t),
    ) by {
        lemma_reduce_range(layer[2 * t] * layer[2 * t + 1]);
    }
    lemma_product_to_congruent(half, entries(above), pairs);
    assert forall|i: int| 0 <= i < above.len() implies reduce(#[trigger] above[i]) == above[i] by {
        lemma_reduce_range(layer[2 * i] * layer[2 * i + 1]);
    }
}

/// Every layer of the tree has the product of the witness.
pub proof fn lemma_layer_product(witness: Seq<int>, depth: nat, height: nat)
    requires
        witness.len() == pow2(depth),
        height <= depth,
    ensures
        layer_above(witness, height).len() == pow2((depth - height) as nat),
        height >= 1 ==> canonical_list(layer_above(witness, height)),
        reduce(product_of(layer_above(witness, height))) == reduce(product_of(witness)),
    decreases height,
{
    if height > 0 {
        lemma_layer_product(witness, depth, (height - 1) as nat);
        lemma_pow2_unfold((depth - height + 1) as nat);
        lemma_pair_products(
            layer_above(witness, (height - 1) as nat),
            pow2((depth - height) as nat),
        );
    }
}

/// The three tables of the sumcheck of a layer.
pub open spec fn layer_tables(point: Seq<int>, layer: Seq<int>) -> Seq<Seq<int>> {
    seq![eq_table(point), evens(layer), odds(layer)]
}

/// The value of the layer above at a point is the sum over the hypercube of
/// the product of the equality table of the point with the left and the
/// right factors.
pub proof fn lemma_layer_sum(point: Seq<int>, layer: Seq<int>)
    requires
        layer.len() == 2 * pow2(point.len()),
    ensures
        reduce(hypercube_sum(layer_tables(point, layer))) == reduce(
            mle_eval(point, pair_products(layer)),
        ),
{
    let size = pow2(point.len());
    let tables = layer_tables(point, layer);
    let above = pair_products(layer);
    assert(tables[0].len() == size);
    assert(above.len() == size);
    assert forall|b: int| 0 <= b < size implies reduce(#[trigger] product_terms(tables)(b))
        == reduce(mle_terms(point, above)(b)) by {
        lemma_product_three(entry_factors(tables, b));
        let c = chi(point, b);
        let (l, r) = (layer[2 * b], layer[2 * b + 1]);
        assert(tables[0][b] == reduce(c));
        assert(tables[1][b] == l);
        assert(tables[2][b] == r);
        assert(above[b] == reduce(l * r));
        assert(reduce(c) * l * r == reduce(c) * (l * r)) by (nonlinear_arith);
        lemma_reduce_mul(c, l * r);
    }
    lemma_sum_to_congruent(size, product_terms(tables), mle_terms(point, above));
}

/// The extension of the equality table of a point, at another point, is the
/// equality polynomial of the two.
pub proof fn lemma_eq_table_eval(point: Seq<int>, r: Seq<int>)
    requires
        r.len() == point.len(),
    ensures
        reduce(mle_eval(r, eq_table(point))) == reduce(eq_product(point, r)),
{
    let size = pow2(point.len());
    let table = eq_table(point);
    assert forall|b: int| 0 <= b < size implies reduce(#[trigger] mle_terms(r, table)(b))
        == reduce(eq_table_terms(r, point)(b)) by {
        lemma_reduce_mul(chi(r, b), chi(point, b));
    }
    lemma_sum_to_congruent(size, mle_terms(r, table), eq_table_terms(r, point));
    lemma_eq_tables(r, point);
}

/// The product of the extensions of the three tables of a layer is the
/// equality polynomial times the two evaluations.
pub proof fn lemma_layer_final(point: Seq<int>, layer: Seq<int>, r: Seq<int>)
    requires
        r.len() == point.len(),
    ensures
        reduce(product_at(layer_tables(point, layer), r)) == reduce(
            eq_product(point, r) * reduce(mle_eval(r, evens(layer))) * reduce(
                mle_eval(r, odds(layer)),
            ),
        ),
{
    let tables = layer_tables(point, layer);
    lemma_product_three(eval_factors(tables, r));
    lemma_eq_table_eval(point, r);
    let e = mle_eval(r, eq_table(point));
    let (a, b) = (mle_eval(r, evens(layer)), mle_eval(r, odds(layer)));
    assert(tables[0] == eq_table(point));
    assert(tables[1] == evens(layer));
    assert(tables[2] == odds(layer));
    lemma_reduce_range(a);
    lemma_reduce_range(b);
    lemma_congruent_mul(e, eq_product(point, r), a, reduce(a));
    lemma_congruent_mul(e * a, eq_product(point, r) * reduce(a), b, reduce(b));
}

/// The value at the challenge of the two evaluations of a layer is the
/// value of the layer at the point with the challenge as its last
/// coordinate.
pub proof fn lemma_next_claim(r: Seq<int>, x: int, layer: Seq<int>)
    requires
        layer.len() == 2 * pow2(r.len()),
        0 <= x,
    ensures
        evaluate(
            seq![reduce(mle_eval(r, evens(layer))), reduce(mle_eval(r, odds(layer)))],
            x,
        ) == reduce(mle_eval(r.push(x), layer)),
{
    let (a, b) = (mle_eval(r, evens(layer)), mle_eval(r, odds(layer)));
    lemma_reduce_range(a);
    lemma_reduce_range(b);
    lemma_evaluate_pair(reduce(a), reduce(b), x);
    lemma_mle_last(r, x, layer, evens(layer), odds(layer));
    lemma_congruent_mul(1 - x, 1 - x, reduce(a), a);
    lemma_congruent_mul(x, x, reduce(b), b);
    lemma_congruent_add((1 - x) * reduce(a), (1 - x) * a, x * reduce(b), x * b);
}

/// The value at the challenge of a pair is the value of the pair, as a
/// layer, at the point that is the challenge.
pub proof fn lemma_root_claim(lo: int, hi: int, x: int, root: Seq<int>)
    requires
        root =~= seq![lo, hi],
        reduce(lo) == lo,
        reduce(hi) == hi,
        0 <= x,
    ensures
        evaluate(seq![lo, hi], x) == reduce(mle_eval(seq![x], root)),
{
    lemma2_to64();
    let none = Seq::<int>::empty();
    let (lows, highs) = (seq![lo], seq![hi]);
    lemma_evaluate_pair(lo, hi, x);
    lemma_mle_last(none, x, root, lows, highs);
    assert(none.push(x) =~= seq![x]);
    assert(index_bits(0, 0) =~= Seq::<int>::empty());
    assert(chi(none, 0) == 1);
    let low_terms = mle_terms(none, lows);
    let high_terms = mle_terms(none, highs);
    assert(sum_to(1, low_terms) == sum_to(0, low_terms) + low_terms(0));
    assert(sum_to(1, high_terms) == sum_to(0, high_terms) + high_terms(0));
    assert(mle_eval(none, lows) == lo);
    assert(mle_eval(none, highs) == hi);
}

/// What the completeness of the argument asks of its input.
pub open spec fn true_product(sponge: Sponge, claim: int, witness: Seq<int>) -> bool {
    &&& well_behaved(sponge)
    &&& witness_ready(witness)
    &&& canonical_list(witness)
    &&& 0 <= claim < modulus()
    &&& claim == reduce(product_of(witness))
}

/// What holds of a prover after `i` layers, where it was given a true
/// claim: its claim is the value of its layer at its point.
pub open spec fn true_layer(now: ProductProver, witness: Seq<int>, i: nat) -> bool {
    let depth = log2(witness.len());
    &&& reduce(now.claim) == now.claim
    &&& now.point.len() == i + 1
    &&& now.claim == reduce(mle_eval(now.point, layer_above(witness, (depth - 1 - i) as nat)))
    &&& now.claims.len() == i + 2
    &&& now.left_evals.len() == i + 1
    &&& now.right_evals.len() == i + 1
    &&& now.proofs.len() == i
    &&& now.claims.last() == now.claim
}

/// The layer that the prover works on in its step `i`.
pub open spec fn layer_of(witness: Seq<int>, i: nat) -> Seq<int> {
    layer_above(witness, (log2(witness.len()) - 1 - i) as nat)
}

/// A witness that is ready has a depth of at least one, and is two to its
/// depth long.
pub proof fn lemma_witness_depth(witness: Seq<int>)
    requires
        witness_ready(witness),
    ensures
        log2(witness.len()) >= 1,
        witness.len() == pow2(log2(witness.len())),
{
    lemma2_to64();
}

/// A prover that is given a true claim keeps a true claim.
pub proof fn lemma_product_keeps_true(
    sponge: Sponge,
    state: Seq<u8>,
    claim: int,
    witness: Seq<int>,
    i: nat,
)
    requires
        true_product(sponge, claim, witness),
        i <= log2(witness.len()) - 1,
    ensures
        true_layer(
            product_prover_layers(
                sponge,
                product_prover_start(sponge, state, claim, witness),
                witness,
                i,
            ),
            witness,
            i,
        ),
    decreases i,
{
    let depth = log2(witness.len());
    let start = product_prover_start(sponge, state, claim, witness);
    lemma_witness_depth(witness);
    lemma2_to64();
    if i == 0 {
        let root = layer_above(witness, (depth - 1) as nat);
        lemma_layer_product(witness, depth, (depth - 1) as nat);
        assert(root.len() == 2);
        assert(canonical_list(root));
        let x = root_challenge(sponge, state, claim, root[0], root[1]).0;
        lemma_root_claim(root[0], root[1], x, root);
        lemma_reduce_range(mle_eval(seq![x], root));
    } else {
        let m = (i - 1) as nat;
        let before = product_prover_layers(sponge, start, witness, m);
        lemma_product_keeps_true(sponge, state, claim, witness, m);
        let layer = layer_of(witness, i);
        let now = product_prover_step(sponge, before, layer);
        lemma_layer_product(witness, depth, (depth - 1 - i) as nat);
        lemma_pow2_unfold((i + 1) as nat);
        assert(layer.len() == 2 * pow2(i));
        assert(layer_above(witness, (depth - 1 - m) as nat) == pair_products(layer));
        let tables = layer_tables(before.point, layer);
        lemma_layer_sum(before.point, layer);
        lemma_tables_ready(before.point, layer);
        lemma_units_three();
        lemma_sumcheck_complete(sponge, before.sponge_state, before.claim, tables);
        let sumcheck = prover_end(sponge, before.sponge_state, before.claim, tables);
        lemma_log2_pow2(i);
        let r = sumcheck.challenges;
        assert(r.len() == i);
        let left = reduce(mle_eval(r, evens(layer)));
        let right = reduce(mle_eval(r, odds(layer)));
        let x = layer_challenge(sponge, sumcheck.sponge_state, left, right).0;
        lemma_next_claim(r, x, layer);
        lemma_reduce_range(mle_eval(r.push(x), layer));
    }
}

/// The three tables of a layer are ready for a sumcheck.
pub proof fn lemma_tables_ready(point: Seq<int>, layer: Seq<int>)
    requires
        point.len() >= 1,
        layer.len() == 2 * pow2(point.len()),
    ensures
        tables_ready(layer_tables(point, layer)),
        layer_tables(point, layer).len() == 3,
        layer_tables(point, layer)[0].len() == pow2(point.len()),
{
    let tables = layer_tables(point, layer);
    lemma2_to64();
    lemma_pow2_strictly_increases(0, point.len());
    lemma_log2_pow2(point.len());
    assert(tables[0].len() == pow2(point.len()));
    assert(tables[1].len() == pow2(point.len()));
    assert(tables[2].len() == pow2(point.len()));
}

/// What a prover has sent stays as it is.
pub proof fn lemma_product_lists_stay(
    sponge: Sponge,
    start: ProductProver,
    witness: Seq<int>,
    i: nat,
    n: nat,
)
    requires
        i <= n,
        start.claims.len() == 2,
        start.left_evals.len() == 1,
        start.right_evals.len() == 1,
        start.proofs.len() == 0,
    ensures
        ({
            let early = product_prover_layers(sponge, start, witness, i);
            let late = product_prover_layers(sponge, start, witness, n);
            &&& late.claims.len() == n + 2
            &&& late.left_evals.len() == n + 1
            &&& late.right_evals.len() == n + 1
            &&& late.proofs.len() == n
            &&& late.claims.take(i as int + 2) == early.claims
            &&& late.left_evals.take(i as int + 1) == early.left_evals
            &&& late.right_evals.take(i as int + 1) == early.right_evals
            &&& late.proofs.take(i as int) == early.proofs
        }),
    decreases n,
{
    let late = product_prover_layers(sponge, start, witness, n);
    if n == 0 {
        assert(late.claims.take(2) =~= late.claims);
        assert(late.left_evals.take(1) =~= late.left_evals);
        assert(late.right_evals.take(1) =~= late.right_evals);
        assert(late.proofs.take(0) =~= late.proofs);
    } else if i == n {
        lemma_product_lists_stay(sponge, start, witness, (n - 1) as nat, (n - 1) as nat);
        assert(late.claims.take(n as int + 2) =~= late.claims);
        assert(late.left_evals.take(n as int + 1) =~= late.left_evals);
        assert(late.right_evals.take(n as int + 1) =~= late.right_evals);
        assert(late.proofs.take(n as int) =~= late.proofs);
    } else {
        lemma_product_lists_stay(sponge, start, witness, i, (n - 1) as nat);
        let before = product_prover_layers(sponge, start, witness, (n - 1) as nat);
        assert(late.claims.take(i as int + 2) =~= before.claims.take(i as int + 2));
        assert(late.left_evals.take(i as int + 1) =~= before.left_evals.take(i as int + 1));
        assert(late.right_evals.take(i as int + 1) =~= before.right_evals.take(i as int + 1));
        assert(late.proofs.take(i as int) =~= before.proofs.take(i as int));
    }
}

/// A verifier that reads what a prover with a true claim sends stands where
/// the prover stands, and accepts.
pub proof fn lemma_product_verifier_follows(
    sponge: Sponge,
    state: Seq<u8>,
    claim: int,
    witness: Seq<int>,
    i: nat,
)
    requires
        true_product(sponge, claim, witness),
        i <= log2(witness.len()) - 1,
    ensures
        ({
            let start = product_prover_start(sponge, state, claim, witness);
            let end = product_prover_end(sponge, state, claim, witness);
            let p = product_prover_layers(sponge, start, witness, i);
            let v = product_verifier_layers(
                sponge,
                product_verifier_start(sponge, state, end.claims, end.left_evals, end.right_evals),
                end.claims,
                end.left_evals,
                end.right_evals,
                end.proofs,
                i,
            );
            &&& v.accepted
            &&& v.claim == p.claim
            &&& v.point == p.point
            &&& v.sponge_state == p.sponge_state
        }),
    decreases i,
{
    let depth = log2(witness.len());
    let last = (depth - 1) as nat;
    let start = product_prover_start(sponge, state, claim, witness);
    let end = product_prover_end(sponge, state, claim, witness);
    let first = product_verifier_start(sponge, state, end.claims, end.left_evals, end.right_evals);
    lemma_witness_depth(witness);
    lemma2_to64();
    lemma_product_lists_stay(sponge, start, witness, i, last);
    let p = product_prover_layers(sponge, start, witness, i);
    assert(end.claims[i as int + 1] == end.claims.take(i as int + 2)[i as int + 1]);
    assert(end.left_evals[i as int] == end.left_evals.take(i as int + 1)[i as int]);
    assert(end.right_evals[i as int] == end.right_evals.take(i as int + 1)[i as int]);
    lemma_product_keeps_true(sponge, state, claim, witness, i);
    if i == 0 {
        let root = layer_above(witness, last);
        lemma_layer_product(witness, depth, last);
        assert(root.len() == 2);
        assert(end.claims[0] == end.claims.take(2)[0]);
        assert(end.claims[0] == claim);
        assert(end.left_evals[0] == root[0]);
        assert(end.right_evals[0] == root[1]);
        lemma_product_three(entries(root));
        lemma_reduce_small(claim);
    } else {
        let m = (i - 1) as nat;
        let before = product_prover_layers(sponge, start, witness, m);
        lemma_product_verifier_follows(sponge, state, claim, witness, m);
        lemma_product_keeps_true(sponge, state, claim, witness, m);
        let layer = layer_of(witness, i);
        lemma_layer_product(witness, depth, (depth - 1 - i) as nat);
        lemma_pow2_unfold((i + 1) as nat);
        assert(layer_above(witness, (depth - 1 - m) as nat) == pair_products(layer));
        let tables = layer_tables(before.point, layer);
        lemma_layer_sum(before.point, layer);
        lemma_tables_ready(before.point, layer);
        lemma_units_three();
        lemma_sumcheck_complete(sponge, before.sponge_state, before.claim, tables);
        lemma_log2_pow2(i);
        let sumcheck = prover_end(sponge, before.sponge_state, before.claim, tables);
        assert(end.proofs[i - 1] == end.proofs.take(i as int)[i - 1]);
        assert(end.proofs[i - 1] == sumcheck.polynomials);
        lemma_layer_final(before.point, layer, sumcheck.challenges);
        let left = reduce(mle_eval(sumcheck.challenges, evens(layer)));
        let right = reduce(mle_eval(sumcheck.challenges, odds(layer)));
        assert(end.left_evals[i as int] == left);
        assert(end.right_evals[i as int] == right);
        assert(end.claims[i as int + 1] == p.claim);
    }
}

/// The grand-product argument is complete. Let the witness be ready and the
/// claim be the product of its entries. Then the verifier accepts what the
/// prover sends, leaves the sponge as the prover does, and returns a claim
/// and a point such that the claim is the value of the extension of the
/// witness at the point.
pub proof fn lemma_grand_product_complete(
    sponge: Sponge,
    state: Seq<u8>,
    claim: int,
    witness: Seq<int>,
)
    requires
        true_product(sponge, claim, witness),
    ensures
        ({
            let p = product_prover_end(sponge, state, claim, witness);
            let v = product_verifier_end(
                sponge,
                state,
                p.claims,
                p.left_evals,
                p.right_evals,
                p.proofs,
            );
            &&& product_shape(p.claims, p.left_evals, p.right_evals, p.proofs)
            &&& p.claims.len() == log2(witness.len()) + 1
            &&& p.claims[0] == claim
            &&& v.accepted
            &&& v.sponge_state == p.sponge_state
            &&& product_verifier_leaves(
                sponge,
                state,
                p.claims,
                p.left_evals,
                p.right_evals,
                p.proofs,
            ) == p.sponge_state
            &&& v.point.len() == log2(witness.len())
            &&& v.claim == reduce(mle_eval(v.point, witness))
        }),
{
    let depth = log2(witness.len());
    let last = (depth - 1) as nat;
    let start = product_prover_start(sponge, state, claim, witness);
    lemma_witness_depth(witness);
    lemma_product_lists_stay(sponge, start, witness, 0, last);
    lemma_product_keeps_true(sponge, state, claim, witness, last);
    lemma_product_verifier_follows(sponge, state, claim, witness, last);
    let p = product_prover_end(sponge, state, claim, witness);
    assert(p.claims[0] == p.claims.take(2)[0]);
    lemma_product_leaves_accepted(
        sponge,
        state,
        p.claims,
        p.left_evals,
        p.right_evals,
        p.proofs,
    );
}

} // verus!
