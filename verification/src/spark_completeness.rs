//! The sparse argument is complete: the verifier accepts the proof of an
//! honest prover.
//!
//! The heart of it is the check of the memory. Each access reads the time
//! that its address holds and writes it back one tick later, so what is
//! written, with what the memory held at first, is what is read, with what
//! the memory holds at last; and so are the products of the fingerprints.

use crate::algebra::entries;
use crate::algebra::lemma_product_ones;
use crate::algebra::lemma_product_replace;
use crate::algebra::lemma_product_split;
use crate::algebra::lemma_product_to_congruent;
use crate::algebra::lemma_product_to_equal;
use crate::algebra::lemma_sum_to_equal;
use crate::algebra::lemma_sum_zeros;
use crate::algebra::product_of;
use crate::algebra::product_to;
use crate::completeness::entry_factors;
use crate::completeness::hypercube_sum;
use crate::completeness::lemma_sumcheck_complete;
use crate::completeness::product_terms;
use crate::fiatshamir::lemma_squeeze_many_len;
use crate::fiatshamir::well_behaved;
use crate::fiatshamir::Sponge;
use crate::field::lemma_congruent_mul;
use crate::field::lemma_reduce_range;
use crate::field::lemma_reduce_zero_one;
use crate::field::lemma_units_three;
use crate::field::reduce;
use crate::grandproduct::eq_table;
use crate::grandproduct::product_prover_end;
use crate::grandproduct::product_verifier_leaves;
use crate::grandproduct::witness_ready;
use crate::grandproduct::GrandProductProof;
use crate::linearsumcheck::tables_ready;
use crate::multilinear::lemma_next_power_of_two_exists;
use crate::multilinear::log2;
use crate::multilinear::next_power_of_two;
use crate::multilinear::padded;
use crate::product_completeness::canonical_list;
use crate::product_completeness::lemma_grand_product_complete;
use crate::product_completeness::lemma_product_three;
use crate::product_completeness::true_product;
use crate::spark::final_counts;
use crate::spark::fingerprint;
use crate::spark::fingerprint_challenges;
use crate::spark::honest_proof;
use crate::spark::lookup;
use crate::spark::memory_accepted;
use crate::spark::memory_witness;
use crate::spark::occurrences;
use crate::spark::primary_accepted;
use crate::spark::read_times;
use crate::spark::read_trace;
use crate::spark::spark_absorbed;
use crate::spark::spark_prover;
use crate::spark::spark_ready;
use crate::spark::spark_setup;
use crate::spark::spark_shape;
use crate::spark::spark_verifier;
use crate::spark::spark_verifier_leaves;
use crate::spark::triple_sum;
use crate::spark::triple_terms;
use crate::spark::write_trace;
use crate::spark::SparkProof;
use crate::sumcheck::first_entries;
use vstd::prelude::*;
use vstd::string::StringSliceAdditionalSpecFns;

verus! {

/// The fingerprints of what the memory holds after `m` accesses.
pub open spec fn memory_after(table: Seq<int>, addrs: Seq<int>, m: nat, gamma: int, tau: int) -> spec_fn(int) -> int {
    |a: int| fingerprint(a, table[a], occurrences(addrs, m, a) as int, gamma, tau)
}

/// The fingerprints of what the accesses read.
pub open spec fn read_prints(table: Seq<int>, addrs: Seq<int>, gamma: int, tau: int) -> spec_fn(int) -> int {
    |k: int|
        fingerprint(
            addrs[k],
            table[addrs[k]],
            occurrences(addrs, k as nat, addrs[k]) as int,
            gamma,
            tau,
        )
}

/// The fingerprints of what the accesses write.
pub open spec fn write_prints(table: Seq<int>, addrs: Seq<int>, gamma: int, tau: int) -> spec_fn(int) -> int {
    |k: int|
        fingerprint(
            addrs[k],
            table[addrs[k]],
            occurrences(addrs, k as nat, addrs[k]) as int + 1,
            gamma,
            tau,
        )
}

/// Every address is below the size of the memory.
pub open spec fn in_memory(addrs: Seq<int>, memory: nat) -> bool {
    forall|i: int| 0 <= i < addrs.len() ==> 0 <= #[trigger] addrs[i] < memory
}

/// One access: the memory after it, times what it read, is the memory
/// before it, times what it wrote.
pub proof fn lemma_access(table: Seq<int>, addrs: Seq<int>, m: nat, gamma: int, tau: int)
    requires
        in_memory(addrs, table.len()),
        m < addrs.len(),
    ensures
        product_to(table.len(), memory_after(table, addrs, m + 1, gamma, tau)) * read_prints(
            table,
            addrs,
            gamma,
            tau,
        )(m as int) == product_to(table.len(), memory_after(table, addrs, m, gamma, tau))
            * write_prints(table, addrs, gamma, tau)(m as int),
{
    let before = memory_after(table, addrs, m, gamma, tau);
    let after = memory_after(table, addrs, m + 1, gamma, tau);
    let at = addrs[m as int];
    assert forall|a: int| 0 <= a < table.len() && a != at implies #[trigger] after(a) == before(
        a,
    ) by {
        assert(occurrences(addrs, m + 1, a) == occurrences(addrs, m, a));
    }
    lemma_product_replace(table.len(), before, after, at);
    assert(occurrences(addrs, m + 1, at) == occurrences(addrs, m, at) + 1);
    assert(before(at) == read_prints(table, addrs, gamma, tau)(m as int));
    assert(after(at) == write_prints(table, addrs, gamma, tau)(m as int));
}

/// The memory at first, times what the first `m` accesses wrote, is what
/// they read, times the memory after them.
pub proof fn lemma_accesses(table: Seq<int>, addrs: Seq<int>, m: nat, gamma: int, tau: int)
    requires
        in_memory(addrs, table.len()),
        m <= addrs.len(),
    ensures
        product_to(table.len(), memory_after(table, addrs, 0, gamma, tau)) * product_to(
            m,
            write_prints(table, addrs, gamma, tau),
        ) == product_to(m, read_prints(table, addrs, gamma, tau)) * product_to(
            table.len(),
            memory_after(table, addrs, m, gamma, tau),
        ),
    decreases m,
{
    let first = product_to(table.len(), memory_after(table, addrs, 0, gamma, tau));
    if m == 0 {
        assert(first * 1 == 1 * first);
    } else {
        let k = (m - 1) as nat;
        lemma_accesses(table, addrs, k, gamma, tau);
        lemma_access(table, addrs, k, gamma, tau);
        let written = product_to(k, write_prints(table, addrs, gamma, tau));
        let read = product_to(k, read_prints(table, addrs, gamma, tau));
        let before = product_to(table.len(), memory_after(table, addrs, k, gamma, tau));
        let after = product_to(table.len(), memory_after(table, addrs, m, gamma, tau));
        let w = write_prints(table, addrs, gamma, tau)(k as int);
        let r = read_prints(table, addrs, gamma, tau)(k as int);
        assert(first * (written * w) == (read * r) * after) by (nonlinear_arith)
            requires
                first * written == read * before,
                after * r == before * w,
        ;
    }
}

/// The product of the write side of an honest memory is the product of its
/// read side.
pub proof fn lemma_memory_products(table: Seq<int>, addrs: Seq<int>, gamma: int, tau: int)
    requires
        in_memory(addrs, table.len()),
    ensures
        reduce(
            product_of(
                write_trace(table, addrs, lookup(table, addrs), read_times(addrs), gamma, tau),
            ),
        ) == reduce(
            product_of(
                read_trace(
                    table,
                    addrs,
                    lookup(table, addrs),
                    read_times(addrs),
                    final_counts(addrs, table.len()),
                    gamma,
                    tau,
                ),
            ),
        ),
{
    let size = table.len();
    let count = addrs.len();
    let values = lookup(table, addrs);
    let times = read_times(addrs);
    let counts = final_counts(addrs, size);
    let written = write_trace(table, addrs, values, times, gamma, tau);
    let read = read_trace(table, addrs, values, times, counts, gamma, tau);
    let first = memory_after(table, addrs, 0, gamma, tau);
    let last = memory_after(table, addrs, count, gamma, tau);
    let w = write_prints(table, addrs, gamma, tau);
    let r = read_prints(table, addrs, gamma, tau);
    // the write side: the memory at first, then what is written
    let written_tail = |k: int| entries(written)(k + size);
    lemma_product_split(size, count, entries(written), written_tail);
    assert forall|a: int| 0 <= a < size implies reduce(#[trigger] entries(written)(a)) == reduce(
        first(a),
    ) by {
        assert(occurrences(addrs, 0, a) == 0);
        lemma_reduce_range(fingerprint(a, table[a], 0, gamma, tau));
    }
    lemma_product_to_congruent(size, entries(written), first);
    assert forall|k: int| 0 <= k < count implies reduce(#[trigger] written_tail(k)) == reduce(
        w(k),
    ) by {
        assert(written[k + size] == reduce(
            fingerprint(addrs[k], values[k], times[k] + 1, gamma, tau),
        ));
        lemma_reduce_range(fingerprint(addrs[k], values[k], times[k] + 1, gamma, tau));
    }
    lemma_product_to_congruent(count, written_tail, w);
    lemma_congruent_mul(
        product_to(size, entries(written)),
        product_to(size, first),
        product_to(count, written_tail),
        product_to(count, w),
    );
    // the read side: what is read, then the memory at last
    let read_tail = |a: int| entries(read)(a + count);
    lemma_product_split(count, size, entries(read), read_tail);
    assert forall|k: int| 0 <= k < count implies reduce(#[trigger] entries(read)(k)) == reduce(
        r(k),
    ) by {
        lemma_reduce_range(fingerprint(addrs[k], values[k], times[k], gamma, tau));
    }
    lemma_product_to_congruent(count, entries(read), r);
    assert forall|a: int| 0 <= a < size implies reduce(#[trigger] read_tail(a)) == reduce(
        last(a),
    ) by {
        assert(read[a + count] == reduce(fingerprint(a, table[a], counts[a], gamma, tau)));
        lemma_reduce_range(fingerprint(a, table[a], counts[a], gamma, tau));
    }
    lemma_product_to_congruent(size, read_tail, last);
    lemma_congruent_mul(
        product_to(count, entries(read)),
        product_to(count, r),
        product_to(size, read_tail),
        product_to(size, last),
    );
    lemma_accesses(table, addrs, count, gamma, tau);
    assert(written.len() == size + count);
    assert(read.len() == count + size);
}

/// Filling a list with ones leaves its product.
pub proof fn lemma_padded_product(list: Seq<int>)
    ensures
        product_of(padded(list, 1)) == product_of(list),
        padded(list, 1).len() == next_power_of_two(list.len()),
        canonical_list(list) ==> canonical_list(padded(list, 1)),
{
    let n = list.len();
    let filled = padded(list, 1);
    let e = lemma_next_power_of_two_exists(n);
    let m = (next_power_of_two(n) - n) as nat;
    assert(filled.len() == n + m);
    assert forall|i: int| n <= i < n + m implies #[trigger] entries(filled)(i) == 1 by {}
    lemma_product_ones(n, m, entries(filled));
    assert forall|i: int| 0 <= i < n implies #[trigger] entries(filled)(i) == entries(list)(i) by {}
    lemma_product_to_equal(n, entries(filled), entries(list));
    lemma_reduce_zero_one();
    if canonical_list(list) {
        assert forall|i: int| 0 <= i < filled.len() implies reduce(#[trigger] filled[i])
            == filled[i] by {
            if i < n {
                assert(filled[i] == list[i]);
            }
        }
    }
}

/// The proof of a grand product is what the prover's run yields.
pub open spec fn honest_product(
    proof: GrandProductProof,
    end: crate::grandproduct::ProductProver,
) -> bool {
    &&& proof.claims.deep_view() == end.claims
    &&& proof.left_evals.deep_view() == end.left_evals
    &&& proof.right_evals.deep_view() == end.right_evals
    &&& proof.sumcheck_proofs.deep_view() == end.proofs
}

/// The check of an honest memory passes.
pub proof fn lemma_memory_complete(
    sponge: Sponge,
    state: Seq<u8>,
    table: Seq<int>,
    addrs: Seq<int>,
    gamma: int,
    tau: int,
    proof: GrandProductProof,
)
    requires
        well_behaved(sponge),
        in_memory(addrs, table.len()),
        table.len() + addrs.len() >= 2,
        ({
            let witness = memory_witness(
                table,
                addrs,
                lookup(table, addrs),
                read_times(addrs),
                gamma,
                tau,
            );
            honest_product(
                proof,
                product_prover_end(sponge, state, reduce(product_of(witness)), witness),
            )
        }),
    ensures
        ({
            let witness = memory_witness(
                table,
                addrs,
                lookup(table, addrs),
                read_times(addrs),
                gamma,
                tau,
            );
            let accepted = memory_accepted(
                sponge,
                state,
                table,
                addrs,
                lookup(table, addrs),
                read_times(addrs),
                final_counts(addrs, table.len()),
                gamma,
                tau,
                proof,
            );
            &&& accepted.0
            &&& accepted.1 == product_prover_end(
                sponge,
                state,
                reduce(product_of(witness)),
                witness,
            ).sponge_state
            &&& product_verifier_leaves(
                sponge,
                state,
                proof.claims.deep_view(),
                proof.left_evals.deep_view(),
                proof.right_evals.deep_view(),
                proof.sumcheck_proofs.deep_view(),
            ) == accepted.1
            &&& proof.claims.len() == log2(
                next_power_of_two((table.len() + addrs.len()) as nat),
            ) + 1
        }),
{
    let values = lookup(table, addrs);
    let times = read_times(addrs);
    let written = write_trace(table, addrs, values, times, gamma, tau);
    let witness = memory_witness(table, addrs, values, times, gamma, tau);
    let claim = reduce(product_of(witness));
    lemma_padded_product(written);
    let e = lemma_next_power_of_two_exists(written.len());
    assert(canonical_list(written)) by {
        assert forall|i: int| 0 <= i < written.len() implies reduce(#[trigger] written[i])
            == written[i] by {
            if i < table.len() {
                lemma_reduce_range(fingerprint(i, table[i], 0, gamma, tau));
            } else {
                let k = i - table.len();
                lemma_reduce_range(fingerprint(addrs[k], values[k], times[k] + 1, gamma, tau));
            }
        }
    }
    lemma_reduce_range(product_of(witness));
    assert(witness_ready(witness));
    assert(true_product(sponge, claim, witness));
    lemma_grand_product_complete(sponge, state, claim, witness);
    lemma_memory_products(table, addrs, gamma, tau);
    assert(proof.claims.deep_view().len() == proof.claims.len());
}

/// The sum over the hypercube of the product of three lists, filled with
/// zeros, is the sum over their entries of the product.
pub proof fn lemma_primary_sum(a: Seq<int>, b: Seq<int>, c: Seq<int>)
    requires
        b.len() == a.len(),
        c.len() == a.len(),
        a.len() >= 2,
    ensures
        hypercube_sum(seq![padded(a, 0), padded(b, 0), padded(c, 0)]) == triple_sum(a, b, c),
        tables_ready(seq![padded(a, 0), padded(b, 0), padded(c, 0)]),
{
    let n = a.len();
    let e = lemma_next_power_of_two_exists(n);
    let size = next_power_of_two(n);
    let m = (size - n) as nat;
    let tables = seq![padded(a, 0), padded(b, 0), padded(c, 0)];
    assert(tables[0].len() == n + m);
    assert(tables[1].len() == n + m);
    assert(tables[2].len() == n + m);
    let terms = product_terms(tables);
    assert forall|i: int| 0 <= i < n + m implies #[trigger] terms(i) == (if i < n {
        a[i] * b[i] * c[i]
    } else {
        0
    }) by {
        lemma_product_three(entry_factors(tables, i));
        if i >= n {
            assert(tables[0][i] == 0);
            assert(0 * tables[1][i] * tables[2][i] == 0) by (nonlinear_arith);
        } else {
            assert(tables[0][i] == a[i]);
            assert(tables[1][i] == b[i]);
            assert(tables[2][i] == c[i]);
        }
    }
    lemma_sum_zeros(n, m, terms);
    lemma_sum_to_equal(n, terms, triple_terms(a, b, c));
}

/// The sparse argument is complete. Let the entries be ready, and the proof
/// be what the run of an honest prover yields. Then the verifier accepts,
/// and leaves the sponge as the prover does.
pub proof fn lemma_spark_complete(
    sponge: Sponge,
    state: Seq<u8>,
    vals: Seq<int>,
    rows: Seq<int>,
    cols: Seq<int>,
    memory: nat,
    proof: SparkProof,
)
    requires
        well_behaved(sponge),
        spark_ready(vals, rows, cols, memory),
        honest_proof(spark_prover(sponge, state, vals, rows, cols, memory), proof, vals, rows, cols, memory),
    ensures
        spark_verifier(sponge, state, proof).0,
        spark_verifier(sponge, state, proof).1 == spark_prover(
            sponge,
            state,
            vals,
            rows,
            cols,
            memory,
        ).col.sponge_state,
        spark_verifier_leaves(sponge, state, proof) == spark_prover(
            sponge,
            state,
            vals,
            rows,
            cols,
            memory,
        ).col.sponge_state,
{
    let run = spark_prover(sponge, state, vals, rows, cols, memory);
    let setup = spark_setup(sponge, state, vals, rows, cols, memory);
    let table_x = eq_table(setup.rx);
    let table_y = eq_table(setup.ry);
    let bits = log2(memory);
    lemma_squeeze_many_len(
        sponge,
        spark_absorbed(sponge, state, vals, rows, cols),
        "spark_challenge".spec_bytes(),
        2 * bits,
    );
    assert(setup.rx.len() == bits);
    assert(setup.ry.len() == bits);
    assert(table_x.len() == memory);
    assert(table_y.len() == memory);
    // the sumcheck over the entries
    let tables = seq![padded(vals, 0), padded(run.e_rx, 0), padded(run.e_ry, 0)];
    lemma_primary_sum(vals, run.e_rx, run.e_ry);
    lemma_units_three();
    lemma_reduce_range(triple_sum(vals, run.e_rx, run.e_ry));
    lemma_sumcheck_complete(sponge, setup.sponge_state, run.primary_claim, tables);
    let e = lemma_next_power_of_two_exists(vals.len());
    let finals = first_entries(run.primary.tables);
    lemma_product_three(entries(finals));
    let primary = primary_accepted(sponge, setup.sponge_state, proof);
    assert(tables[0] == padded(vals, 0));
    assert(tables[1] == padded(run.e_rx, 0));
    assert(tables[2] == padded(run.e_ry, 0));
    assert(tables[0].len() == next_power_of_two(vals.len()));
    assert(primary.0);
    assert(primary.1 == run.primary.sponge_state);
    // the two memories
    let chosen = fingerprint_challenges(sponge, run.primary.sponge_state);
    lemma_memory_complete(
        sponge,
        chosen.2,
        table_x,
        rows,
        chosen.0,
        chosen.1,
        proof.row_grand_product_proof,
    );
    lemma_memory_complete(
        sponge,
        run.row.sponge_state,
        table_y,
        cols,
        chosen.0,
        chosen.1,
        proof.col_grand_product_proof,
    );
    // the shape
    assert(proof.vals.deep_view().len() == proof.vals.len());
    assert(proof.e_rx.deep_view().len() == proof.e_rx.len());
    assert(proof.e_ry.deep_view().len() == proof.e_ry.len());
    assert(proof.read_rows.deep_view().len() == proof.read_rows.len());
    assert(proof.read_cols.deep_view().len() == proof.read_cols.len());
    assert(proof.times_rows.deep_view().len() == proof.times_rows.len());
    assert(proof.times_cols.deep_view().len() == proof.times_cols.len());
    assert(proof.counts_rows.deep_view().len() == proof.counts_rows.len());
    assert(proof.counts_cols.deep_view().len() == proof.counts_cols.len());
    assert(proof.primary_sumcheck_proof.final_terms.deep_view().len()
        == proof.primary_sumcheck_proof.final_terms.len());
    assert(spark_shape(proof));
}

} // verus!
