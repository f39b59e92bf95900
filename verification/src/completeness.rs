//! The sumcheck is complete: the verifier accepts what the prover sends,
//! whatever the claim; and where the claim is the sum, what the verifier
//! returns is the product of the extensions of the tables at the challenges.

use crate::algebra::entries;
use crate::algebra::lemma_product_to_congruent;
use crate::algebra::lemma_product_to_equal;
use crate::algebra::lemma_sum_split;
use crate::algebra::lemma_sum_to_congruent;
use crate::algebra::lemma_sum_to_equal;
use crate::algebra::product_to;
use crate::algebra::sum_to;
use crate::differences::flat_from;
use crate::differences::lemma_flat_equal;
use crate::differences::lemma_product_flat;
use crate::differences::lemma_sum_flat;
use crate::differences::term_at;
use crate::fiatshamir::well_behaved;
use crate::fiatshamir::Sponge;
use crate::field::lemma_reduce_add;
use crate::field::lemma_reduce_range;
use crate::field::lemma_reduce_small;
use crate::field::lemma_units_sixteen;
use crate::field::lemma_reduce_sub;
use crate::field::modulus;
use crate::field::reduce;
use crate::field::units_upto;
use crate::folding::lemma_fold_all_rows;
use crate::interpolation::lemma_interpolation_exact;
use crate::interpolation::lemma_nodes_invertible;
use crate::linearsumcheck::fold_all;
use crate::linearsumcheck::lemma_leaves_accepted;
use crate::linearsumcheck::line_factors;
use crate::linearsumcheck::line_product;
use crate::linearsumcheck::prover_end;
use crate::linearsumcheck::prover_rounds;
use crate::linearsumcheck::prover_start;
use crate::linearsumcheck::prover_step;
use crate::linearsumcheck::round_points;
use crate::linearsumcheck::round_sum;
use crate::linearsumcheck::round_terms;
use crate::linearsumcheck::tables_ready;
use crate::linearsumcheck::verifier_end;
use crate::linearsumcheck::verifier_leaves;
use crate::linearsumcheck::verifier_rounds;
use crate::linearsumcheck::verifier_start;
use crate::linearsumcheck::well_shaped;
use crate::linearsumcheck::ProverState;
use crate::linearsumcheck::VerifierState;
use crate::multilinear::fold_low;
use crate::multilinear::fold_rows;
use crate::multilinear::line;
use crate::multilinear::log2;
use crate::multilinear::mle_eval;
use crate::sumcheck::first_entries;
use crate::univariate::evaluate;
use crate::univariate::nodes_invertible;
use vstd::arithmetic::power2::lemma2_to64;
use vstd::arithmetic::power2::lemma_pow2_unfold;
use vstd::arithmetic::power2::pow2;
use vstd::prelude::*;

verus! {

/// The entries of the tables at the index `b`.
pub open spec fn entry_factors(tables: Seq<Seq<int>>, b: int) -> spec_fn(int) -> int {
    |k: int| tables[k][b]
}

/// The product of the entries of the tables at the index `b`.
pub open spec fn entry_product(tables: Seq<Seq<int>>, b: int) -> int {
    product_to(tables.len(), entry_factors(tables, b))
}

/// The products of the entries of the tables, as a function of the index.
pub open spec fn product_terms(tables: Seq<Seq<int>>) -> spec_fn(int) -> int {
    |b: int| entry_product(tables, b)
}

/// The sum over the hypercube of the product of the tables.
pub open spec fn hypercube_sum(tables: Seq<Seq<int>>) -> int {
    sum_to(tables[0].len(), product_terms(tables))
}

/// The extensions of the tables at `point`.
pub open spec fn eval_factors(tables: Seq<Seq<int>>, point: Seq<int>) -> spec_fn(int) -> int {
    |k: int| mle_eval(point, tables[k])
}

/// The product of the extensions of the tables at `point`.
pub open spec fn product_at(tables: Seq<Seq<int>>, point: Seq<int>) -> int {
    product_to(tables.len(), eval_factors(tables, point))
}

/// There is a table, and every table has `len` entries.
pub open spec fn same_length(tables: Seq<Seq<int>>, len: nat) -> bool {
    tables.len() >= 1 && forall|k: int|
        0 <= k < tables.len() ==> (#[trigger] tables[k]).len() == len
}

/// Every entry of every table is a canonical field element.
pub open spec fn canonical_tables(tables: Seq<Seq<int>>) -> bool {
    forall|k: int, i: int|
        0 <= k < tables.len() && 0 <= i < tables[k].len() ==> reduce(#[trigger] tables[k][i])
            == tables[k][i]
}

/// Every table is what the table of `origin` becomes when its first
/// variables are set to `point`.
pub open spec fn folded_from(tables: Seq<Seq<int>>, origin: Seq<Seq<int>>, point: Seq<int>) -> bool {
    tables.len() == origin.len() && forall|k: int|
        0 <= k < tables.len() ==> #[trigger] tables[k] == fold_rows(origin[k], point)
}

/// The round polynomial as a function of its variable.
pub open spec fn round_function(tables: Seq<Seq<int>>) -> spec_fn(int) -> int {
    |t: int| round_sum(tables, t)
}

/// The round polynomial at zero and at one sums to the sum over the
/// hypercube.
pub proof fn lemma_round_sum_ends(tables: Seq<Seq<int>>, half: nat)
    requires
        same_length(tables, 2 * half),
    ensures
        round_sum(tables, 0) + round_sum(tables, 1) == hypercube_sum(tables),
{
    let count = tables.len();
    let all = product_terms(tables);
    let upper = |i: int| all(i + half);
    let at_zero = round_terms(tables, 0);
    let at_one = round_terms(tables, 1);
    assert forall|i: int| 0 <= i < half implies #[trigger] at_zero(i) == all(i) by {
        assert forall|k: int| 0 <= k < count implies #[trigger] line_factors(tables, i, 0)(k)
            == entry_factors(tables, i)(k) by {
            assert(tables[k].len() == 2 * half);
        }
        lemma_product_to_equal(count, line_factors(tables, i, 0), entry_factors(tables, i));
    }
    assert forall|i: int| 0 <= i < half implies #[trigger] at_one(i) == upper(i) by {
        assert forall|k: int| 0 <= k < count implies #[trigger] line_factors(tables, i, 1)(k)
            == entry_factors(tables, i + half)(k) by {
            assert(tables[k].len() == 2 * half);
        }
        lemma_product_to_equal(count, line_factors(tables, i, 1), entry_factors(tables, i + half));
    }
    lemma_sum_to_equal(half, at_zero, all);
    lemma_sum_to_equal(half, at_one, upper);
    lemma_sum_split(half, half, all, upper);
    assert(tables[0].len() == 2 * half);
}

/// The lines of the tables at the index `i`, as a function of the variable.
pub open spec fn line_forms(tables: Seq<Seq<int>>, i: int) -> spec_fn(int) -> spec_fn(int) -> int {
    |s: int| line_factors(tables, i, s)
}

/// The terms of the round polynomial, as a function of the variable.
pub open spec fn round_terms_of(tables: Seq<Seq<int>>) -> spec_fn(int) -> spec_fn(int) -> int {
    |s: int| round_terms(tables, s)
}

/// The round polynomial has a degree of at most the number of tables.
pub proof fn lemma_round_sum_flat(tables: Seq<Seq<int>>)
    requires
        tables.len() >= 1,
    ensures
        flat_from(round_function(tables), tables.len() + 1),
{
    let count = tables.len();
    let half = tables[0].len() / 2;
    let terms = round_terms_of(tables);
    assert forall|i: int| 0 <= i < half implies flat_from(#[trigger] term_at(terms, i), count + 1) by {
        let forms = line_forms(tables, i);
        let alpha = |k: int| tables[k][i];
        let beta = |k: int| tables[k][i + tables[k].len() / 2] - tables[k][i];
        assert forall|k: int, s: int| 0 <= k < count implies #[trigger] forms(s)(k) == alpha(k)
            + beta(k) * s by {
            let (lo, hi) = (tables[k][i], tables[k][i + tables[k].len() / 2]);
            assert(line(lo, hi, s) == lo + (hi - lo) * s) by (nonlinear_arith);
        }
        lemma_product_flat(forms, alpha, beta, count);
        let built = |s: int| product_to(count, forms(s));
        let term = term_at(terms, i);
        assert forall|s: int| #[trigger] built(s) == term(s) by {
            assert(term(s) == line_product(tables, i, s));
        }
        lemma_flat_equal(built, term, count + 1);
    }
    lemma_sum_flat(terms, half, count + 1);
    let built = |s: int| sum_to(half, terms(s));
    let whole = round_function(tables);
    assert forall|s: int| #[trigger] built(s) == whole(s) by {}
    lemma_flat_equal(built, whole, count + 1);
}

/// The sum over the hypercube of the folded tables is the round polynomial
/// at the challenge.
pub proof fn lemma_folded_sum(tables: Seq<Seq<int>>, r: int, half: nat)
    requires
        same_length(tables, 2 * half),
    ensures
        same_length(fold_all(tables, r), half),
        canonical_tables(fold_all(tables, r)),
        reduce(hypercube_sum(fold_all(tables, r))) == reduce(round_sum(tables, r)),
{
    let count = tables.len();
    let folded = fold_all(tables, r);
    assert forall|k: int| 0 <= k < count implies (#[trigger] folded[k]).len() == half by {
        assert(tables[k].len() == 2 * half);
    }
    assert forall|k: int, i: int|
        0 <= k < folded.len() && 0 <= i < folded[k].len() implies reduce(
        #[trigger] folded[k][i],
    ) == folded[k][i] by {
        assert(tables[k].len() == 2 * half);
        lemma_reduce_range(line(tables[k][i], tables[k][i + half], r));
    }
    assert forall|i: int| 0 <= i < half implies reduce(#[trigger] product_terms(folded)(i))
        == reduce(round_terms(tables, r)(i)) by {
        assert forall|k: int| 0 <= k < count implies reduce(
            #[trigger] entry_factors(folded, i)(k),
        ) == reduce(line_factors(tables, i, r)(k)) by {
            assert(tables[k].len() == 2 * half);
            assert(folded[k] == fold_low(tables[k], r));
            lemma_reduce_range(line(tables[k][i], tables[k][i + half], r));
        }
        lemma_product_to_congruent(count, entry_factors(folded, i), line_factors(tables, i, r));
    }
    lemma_sum_to_congruent(half, product_terms(folded), round_terms(tables, r));
    assert(tables[0].len() == 2 * half);
    assert(folded[0].len() == half);
}

/// One round. Where the claim is the sum over the hypercube, the values
/// that the prover sends pass the check of the verifier, and their value at
/// the challenge is the sum over the hypercube of the folded tables.
pub proof fn lemma_round(tables: Seq<Seq<int>>, claim: int, r: int, half: nat)
    requires
        same_length(tables, 2 * half),
        0 <= claim < modulus(),
        claim == reduce(hypercube_sum(tables)),
        nodes_invertible(tables.len()),
        0 <= r,
    ensures
        round_points(tables, claim).len() == tables.len() + 1,
        reduce(round_points(tables, claim)[0] + round_points(tables, claim)[1]) == claim,
        evaluate(round_points(tables, claim), r) == reduce(hypercube_sum(fold_all(tables, r))),
        0 <= evaluate(round_points(tables, claim), r) < modulus(),
{
    let count = tables.len();
    let points = round_points(tables, claim);
    let h = round_function(tables);
    let (s0, s1) = (round_sum(tables, 0), round_sum(tables, 1));
    lemma_round_sum_ends(tables, half);
    lemma_round_sum_flat(tables);
    lemma_reduce_sub(hypercube_sum(tables), s0);
    assert(reduce(points[1]) == reduce(s1)) by {
        lemma_reduce_range(claim - s0);
    }
    assert forall|i: int| 0 <= i < points.len() implies reduce(#[trigger] points[i]) == reduce(
        h(i),
    ) by {
        if i != 1 {
            lemma_reduce_range(round_sum(tables, i));
        }
    }
    lemma_interpolation_exact(points, h, r);
    lemma_folded_sum(tables, r, half);
    lemma_reduce_range(hypercube_sum(fold_all(tables, r)));
    assert(reduce(evaluate(points, r)) == evaluate(points, r)) by {
        if 0 <= r < points.len() {
            if r == 1 {
                lemma_reduce_range(claim - s0);
            } else {
                lemma_reduce_range(round_sum(tables, r));
            }
        } else {
            lemma_reduce_range(sum_to(points.len(), crate::univariate::lagrange_terms(points, r)));
        }
    }
    lemma_reduce_add(s0, claim - s0);
    lemma_reduce_small(claim);
    assert(s0 + (claim - s0) == claim);
}

/// The values that the prover sends in a round pass the check of the
/// verifier, whatever the claim.
pub proof fn lemma_round_sums(tables: Seq<Seq<int>>, claim: int)
    requires
        tables.len() >= 1,
        0 <= claim < modulus(),
    ensures
        round_points(tables, claim).len() == tables.len() + 1,
        reduce(round_points(tables, claim)[0] + round_points(tables, claim)[1]) == claim,
{
    let s0 = round_sum(tables, 0);
    lemma_reduce_add(s0, claim - s0);
    lemma_reduce_small(claim);
    assert(s0 + (claim - s0) == claim);
}

/// The value at any point of what the prover sends in a round is canonical.
pub proof fn lemma_round_value_canonical(tables: Seq<Seq<int>>, claim: int, r: int)
    ensures
        0 <= evaluate(round_points(tables, claim), r) < modulus(),
{
    let points = round_points(tables, claim);
    if 0 <= r < points.len() {
        if r == 1 {
            lemma_reduce_range(claim - round_sum(tables, 0));
        } else {
            lemma_reduce_range(round_sum(tables, r));
        }
    } else {
        lemma_reduce_range(sum_to(points.len(), crate::univariate::lagrange_terms(points, r)));
    }
}

/// The claims of a prover are canonical, and it has as many tables as it
/// was given.
pub proof fn lemma_prover_claims(sponge: Sponge, start: ProverState, j: nat)
    requires
        0 <= start.claim < modulus(),
    ensures
        0 <= prover_rounds(sponge, start, j).claim < modulus(),
        prover_rounds(sponge, start, j).tables.len() == start.tables.len(),
    decreases j,
{
    if j > 0 {
        lemma_prover_claims(sponge, start, (j - 1) as nat);
        let before = prover_rounds(sponge, start, (j - 1) as nat);
        let r = prover_step(sponge, before).challenges.last();
        lemma_round_value_canonical(before.tables, before.claim, r);
    }
}

/// A verifier that reads what a prover sends stands where the prover
/// stands, and accepts, whatever the claim.
pub proof fn lemma_verifier_accepts(
    sponge: Sponge,
    start: ProverState,
    first: VerifierState,
    polynomials: Seq<Seq<int>>,
    rounds: nat,
    j: nat,
)
    requires
        start.tables.len() >= 1,
        0 <= start.claim < modulus(),
        start.polynomials.len() == 0,
        j <= rounds,
        first.claim == start.claim,
        first.sponge_state == start.sponge_state,
        first.challenges == start.challenges,
        first.accepted,
        polynomials == prover_rounds(sponge, start, rounds).polynomials,
    ensures
        ({
            let p = prover_rounds(sponge, start, j);
            let v = verifier_rounds(sponge, polynomials, first, j);
            &&& v.claim == p.claim
            &&& v.sponge_state == p.sponge_state
            &&& v.challenges == p.challenges
            &&& v.accepted
        }),
    decreases j,
{
    if j > 0 {
        let m = (j - 1) as nat;
        lemma_verifier_accepts(sponge, start, first, polynomials, rounds, m);
        lemma_prover_claims(sponge, start, m);
        lemma_polynomials_stay(sponge, start, rounds, m as int);
        let before = prover_rounds(sponge, start, m);
        lemma_round_sums(before.tables, before.claim);
    } else {
        assert(first.challenges =~= start.challenges);
    }
}

/// The verifier accepts what the prover sends. Whatever the claim and the
/// tables, the verifier accepts the round polynomials of the prover,
/// squeezes the challenges of the prover, stands at the end on the claim on
/// which the prover stands, and leaves the sponge as the prover does.
pub proof fn lemma_sumcheck_accepts(sponge: Sponge, state: Seq<u8>, claim: int, mles: Seq<Seq<int>>)
    requires
        mles.len() >= 1,
        0 <= claim < modulus(),
    ensures
        ({
            let p = prover_end(sponge, state, claim, mles);
            let v = verifier_end(
                sponge,
                state,
                claim,
                p.polynomials,
                mles.len(),
                log2(mles[0].len()),
            );
            &&& well_shaped(p.polynomials, mles.len(), log2(mles[0].len()))
            &&& v.accepted
            &&& v.claim == p.claim
            &&& v.challenges == p.challenges
            &&& v.sponge_state == p.sponge_state
            &&& verifier_leaves(
                sponge,
                state,
                claim,
                p.polynomials,
                mles.len(),
                log2(mles[0].len()),
            ) == p.sponge_state
        }),
{
    let count = mles.len();
    let rounds = log2(mles[0].len());
    let start = prover_start(sponge, state, claim, mles);
    let first = verifier_start(sponge, state, claim, count as int, rounds as int);
    let p = prover_end(sponge, state, claim, mles);
    lemma_verifier_accepts(sponge, start, first, p.polynomials, rounds, rounds);
    lemma_polynomials_len(sponge, start, rounds);
    assert forall|i: int| 0 <= i < p.polynomials.len() implies (#[trigger] p.polynomials[i]).len()
        == count + 1 && p.polynomials[i].len() >= 2 by {
        lemma_polynomials_stay(sponge, start, rounds, i);
        lemma_prover_claims(sponge, start, i as nat);
    }
    lemma_leaves_accepted(sponge, state, claim, p.polynomials, count, rounds);
}

/// What holds of the start of a prover that is given a true claim.
pub open spec fn true_start(start: ProverState, rounds: nat) -> bool {
    &&& same_length(start.tables, pow2(rounds))
    &&& 0 <= start.claim < modulus()
    &&& start.claim == reduce(hypercube_sum(start.tables))
    &&& nodes_invertible(start.tables.len())
    &&& start.polynomials.len() == 0
    &&& start.challenges.len() == 0
}

/// What holds of a prover after `j` rounds, where it was given a true
/// claim: the claim is still the sum over the hypercube of the tables.
pub open spec fn true_state(start: ProverState, now: ProverState, rounds: nat, j: nat) -> bool {
    &&& same_length(now.tables, pow2((rounds - j) as nat))
    &&& 0 <= now.claim < modulus()
    &&& now.claim == reduce(hypercube_sum(now.tables))
    &&& now.polynomials.len() == j
    &&& now.challenges.len() == j
    &&& folded_from(now.tables, start.tables, now.challenges)
    &&& (j >= 1 ==> canonical_tables(now.tables))
    &&& forall|c: int| 0 <= c < j ==> 0 <= #[trigger] now.challenges[c] < modulus()
    &&& forall|i: int| 0 <= i < j ==> (#[trigger] now.polynomials[i]).len() == start.tables.len() + 1
}

/// A prover that is given a true claim keeps a true claim.
pub proof fn lemma_prover_keeps_true(sponge: Sponge, start: ProverState, rounds: nat, j: nat)
    requires
        well_behaved(sponge),
        true_start(start, rounds),
        j <= rounds,
    ensures
        true_state(start, prover_rounds(sponge, start, j), rounds, j),
    decreases j,
{
    if j == 0 {
        assert(start.challenges =~= Seq::<int>::empty());
        assert(folded_from(start.tables, start.tables, start.challenges));
    } else {
        let before = prover_rounds(sponge, start, (j - 1) as nat);
        let now = prover_step(sponge, before);
        lemma_prover_keeps_true(sponge, start, rounds, (j - 1) as nat);
        let half = pow2((rounds - j) as nat);
        lemma_pow2_unfold((rounds - j + 1) as nat);
        let points = round_points(before.tables, before.claim);
        let r = now.challenges.last();
        assert(before.tables.len() == start.tables.len());
        lemma_round(before.tables, before.claim, r, half);
        lemma_folded_sum(before.tables, r, half);
        assert(now.tables == fold_all(before.tables, r));
        assert(now.challenges.drop_last() =~= before.challenges);
        assert forall|k: int| 0 <= k < now.tables.len() implies #[trigger] now.tables[k]
            == fold_rows(start.tables[k], now.challenges) by {
            assert(before.tables[k] == fold_rows(start.tables[k], before.challenges));
        }
        assert forall|i: int| 0 <= i < j implies (#[trigger] now.polynomials[i]).len()
            == start.tables.len() + 1 by {
            if i < j - 1 {
                assert(now.polynomials[i] == before.polynomials[i]);
            }
        }
        assert forall|c: int| 0 <= c < j implies 0 <= #[trigger] now.challenges[c] < modulus() by {
            if c < j - 1 {
                assert(now.challenges[c] == before.challenges[c]);
            }
        }
    }
}

/// The round polynomials of a prover stay as they are once they are sent.
pub proof fn lemma_polynomials_stay(sponge: Sponge, start: ProverState, n: nat, i: int)
    requires
        start.polynomials.len() == 0,
        0 <= i < n,
    ensures
        prover_rounds(sponge, start, n).polynomials.len() == n,
        prover_rounds(sponge, start, n).polynomials[i] == round_points(
            prover_rounds(sponge, start, i as nat).tables,
            prover_rounds(sponge, start, i as nat).claim,
        ),
    decreases n,
{
    lemma_polynomials_len(sponge, start, n);
    lemma_polynomials_len(sponge, start, (n - 1) as nat);
    if i < n - 1 {
        lemma_polynomials_stay(sponge, start, (n - 1) as nat, i);
    }
}

/// A prover has sent one round polynomial for each round.
pub proof fn lemma_polynomials_len(sponge: Sponge, start: ProverState, n: nat)
    requires
        start.polynomials.len() == 0,
    ensures
        prover_rounds(sponge, start, n).polynomials.len() == n,
    decreases n,
{
    if n > 0 {
        lemma_polynomials_len(sponge, start, (n - 1) as nat);
    }
}

/// The sumcheck is complete. Let the tables be ready, the claim be the sum
/// over the hypercube of their product, and the integers up to the number of
/// tables be invertible. Then the verifier accepts the round polynomials of
/// the prover, squeezes the challenges of the prover and leaves the sponge
/// as the prover does; the final terms are the extensions of the tables at
/// the challenges; and what the verifier returns is their product.
pub proof fn lemma_sumcheck_complete(
    sponge: Sponge,
    state: Seq<u8>,
    claim: int,
    mles: Seq<Seq<int>>,
)
    requires
        well_behaved(sponge),
        tables_ready(mles),
        units_upto(mles.len()),
        0 <= claim < modulus(),
        claim == reduce(hypercube_sum(mles)),
    ensures
        ({
            let p = prover_end(sponge, state, claim, mles);
            let v = verifier_end(
                sponge,
                state,
                claim,
                p.polynomials,
                mles.len(),
                log2(mles[0].len()),
            );
            &&& well_shaped(p.polynomials, mles.len(), log2(mles[0].len()))
            &&& v.accepted
            &&& v.challenges == p.challenges
            &&& v.sponge_state == p.sponge_state
            &&& v.challenges.len() == log2(mles[0].len())
            &&& forall|c: int| 0 <= c < v.challenges.len() ==> 0 <= #[trigger] v.challenges[c] < modulus()
            &&& v.claim == reduce(product_at(mles, p.challenges))
            &&& v.claim == reduce(product_to(mles.len(), entries(first_entries(p.tables))))
            &&& first_entries(p.tables).len() == mles.len()
            &&& forall|k: int|
                0 <= k < mles.len() ==> #[trigger] first_entries(p.tables)[k] == reduce(
                    mle_eval(p.challenges, mles[k]),
                )
        }),
{
    let count = mles.len();
    let rounds = log2(mles[0].len());
    let start = prover_start(sponge, state, claim, mles);
    let first = verifier_start(sponge, state, claim, count as int, rounds as int);
    let p = prover_end(sponge, state, claim, mles);
    lemma_nodes_invertible(count);
    lemma_prover_keeps_true(sponge, start, rounds, rounds);
    lemma_sumcheck_accepts(sponge, state, claim, mles);
    lemma2_to64();
    assert(rounds >= 1) by {
        if rounds == 0 {
            assert(pow2(0) == 1);
        }
    }
    let finals = first_entries(p.tables);
    assert forall|k: int| 0 <= k < count implies #[trigger] finals[k] == reduce(
        mle_eval(p.challenges, mles[k]),
    ) by {
        assert(p.tables[k] == fold_rows(mles[k], p.challenges));
        assert(mles[k].len() == pow2(rounds));
        lemma_fold_all_rows(p.challenges, mles[k]);
        assert(p.tables[k].len() == 1);
        assert(reduce(p.tables[k][0]) == p.tables[k][0]);
    }
    let terms = product_terms(p.tables);
    assert(sum_to(1, terms) == sum_to(0, terms) + terms(0));
    assert(p.tables[0].len() == 1);
    assert(hypercube_sum(p.tables) == entry_product(p.tables, 0));
    assert forall|k: int| 0 <= k < count implies reduce(
        #[trigger] entry_factors(p.tables, 0)(k),
    ) == reduce(eval_factors(mles, p.challenges)(k)) by {
        assert(finals[k] == p.tables[k][0]);
        lemma_reduce_range(mle_eval(p.challenges, mles[k]));
    }
    lemma_product_to_congruent(count, entry_factors(p.tables, 0), eval_factors(mles, p.challenges));
    assert forall|k: int| 0 <= k < count implies #[trigger] entry_factors(p.tables, 0)(k)
        == entries(finals)(k) by {}
    lemma_product_to_equal(count, entry_factors(p.tables, 0), entries(finals));
}

/// The sumcheck of up to sixteen tables is complete, with nothing taken for
/// granted of the field: the integers up to sixteen are invertible.
pub proof fn lemma_sumcheck_complete_to_sixteen(
    sponge: Sponge,
    state: Seq<u8>,
    claim: int,
    mles: Seq<Seq<int>>,
)
    requires
        well_behaved(sponge),
        tables_ready(mles),
        mles.len() <= 16,
        0 <= claim < modulus(),
        claim == reduce(hypercube_sum(mles)),
    ensures
        ({
            let p = prover_end(sponge, state, claim, mles);
            let v = verifier_end(
                sponge,
                state,
                claim,
                p.polynomials,
                mles.len(),
                log2(mles[0].len()),
            );
            &&& well_shaped(p.polynomials, mles.len(), log2(mles[0].len()))
            &&& v.accepted
            &&& v.challenges == p.challenges
            &&& v.sponge_state == p.sponge_state
            &&& v.claim == reduce(product_at(mles, p.challenges))
            &&& forall|k: int|
                0 <= k < mles.len() ==> #[trigger] first_entries(p.tables)[k] == reduce(
                    mle_eval(p.challenges, mles[k]),
                )
        }),
{
    lemma_units_sixteen();
    assert forall|k: int| 1 <= k <= mles.len() implies #[trigger] crate::field::invertible(k) by {
        assert(1 <= k <= 16);
    }
    lemma_sumcheck_complete(sponge, state, claim, mles);
}

} // verus!
