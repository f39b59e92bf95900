//! The argument for a sparse matrix: that the bilinear form of the matrix,
//! at two points that the verifier chooses, is a claimed value.
//!
//! The matrix is given by its nonzero entries, each with its row and its
//! column. A sumcheck proves the sum over the entries of the value times the
//! equality polynomials of its row and of its column. That those are the
//! equality polynomials of the rows and the columns is proved by checking
//! the accesses to a memory that holds the equality table: what is written
//! to it, with what it held at first, must be what is read from it, with
//! what it holds at last. Each side is fingerprinted, and a grand product
//! proves the product of one side.

use crate::algebra::entries;
use crate::algebra::product_of;
use crate::algebra::product_to;
use crate::algebra::sum_to;
use crate::fiatshamir::absorb_points;
use crate::fiatshamir::lemma_squeeze_many_len;
use crate::fiatshamir::squeeze_many;
use crate::fiatshamir::ProtocolTranscript;
use crate::fiatshamir::Sponge;
use crate::field::lemma_reduce_add;
use crate::field::lemma_reduce_mul;
use crate::field::lemma_reduce_sub;
use crate::field::lemma_reduce_zero_one;
use crate::field::reduce;
use crate::field::Scalar;
use crate::grandproduct::eq_table;
use crate::grandproduct::product_prover_end;
use crate::grandproduct::product_shape;
use crate::grandproduct::product_verifier_end;
use crate::grandproduct::product_verifier_leaves;
use crate::grandproduct::witness_ready;
use crate::grandproduct::GrandProductProof;
use crate::linearsumcheck::prover_end;
use crate::linearsumcheck::tables_ready;
use crate::linearsumcheck::verifier_end;
use crate::linearsumcheck::verifier_leaves;
use crate::linearsumcheck::well_shaped;
use crate::multilinear::chis;
use crate::multilinear::eval_mle;
use crate::multilinear::ilog2;
use crate::multilinear::is_power_of_two;
use crate::multilinear::lemma_log2_below;
use crate::multilinear::padded_log2;
use crate::multilinear::lemma_next_power_of_two_exists;
use crate::multilinear::log2;
use crate::multilinear::mle_eval;
use crate::multilinear::next_power_of_two;
use crate::multilinear::pad_next_power_of_two;
use crate::multilinear::pad_with;
use crate::multilinear::padded;
use crate::sumcheck::first_entries;
use crate::sumcheck::SumcheckProof;
use vstd::arithmetic::power2::pow2;
use vstd::prelude::*;
use vstd::slice::slice_to_vec;
use vstd::string::StringSliceAdditionalSpecFns;

verus! {

/// A list of indices as a list of integers.
pub open spec fn as_ints(indices: Seq<usize>) -> Seq<int> {
    Seq::new(indices.len(), |i: int| indices[i] as int)
}

/// The indices below `upto` at which `matrix` is not zero, in order.
pub open spec fn nonzero_indices(matrix: Seq<int>, upto: nat) -> Seq<int>
    decreases upto,
{
    if upto == 0 {
        Seq::empty()
    } else {
        let before = nonzero_indices(matrix, (upto - 1) as nat);
        if matrix[upto - 1] != 0 {
            before.push(upto - 1)
        } else {
            before
        }
    }
}

/// The entries of `table` at `addrs`.
pub open spec fn lookup(table: Seq<int>, addrs: Seq<int>) -> Seq<int> {
    Seq::new(addrs.len(), |i: int| table[addrs[i]])
}

/// How many of the first `upto` accesses go to the address `a`.
pub open spec fn occurrences(addrs: Seq<int>, upto: nat, a: int) -> nat
    decreases upto,
{
    if upto == 0 {
        0
    } else {
        occurrences(addrs, (upto - 1) as nat, a) + if addrs[upto - 1] == a {
            1nat
        } else {
            0nat
        }
    }
}

/// For each access, how often its address was accessed before: the time
/// that the access reads.
pub open spec fn read_times(addrs: Seq<int>) -> Seq<int> {
    Seq::new(addrs.len(), |i: int| occurrences(addrs, i as nat, addrs[i]) as int)
}

/// For each address, how often it is accessed: the time that the memory
/// holds for it at last.
pub open spec fn final_counts(addrs: Seq<int>, memory: nat) -> Seq<int> {
    Seq::new(memory, |a: int| occurrences(addrs, addrs.len(), a) as int)
}

/// The fingerprint of the address `a`, the value `v` and the time `t`.
pub open spec fn fingerprint(a: int, v: int, t: int, gamma: int, tau: int) -> int {
    a * (gamma * gamma) + v * gamma + t - tau
}

/// The fingerprints of what the memory holds at first, each address at time
/// zero, and of what is written to it, each access one tick after its read.
pub open spec fn write_trace(
    table: Seq<int>,
    addrs: Seq<int>,
    values: Seq<int>,
    times: Seq<int>,
    gamma: int,
    tau: int,
) -> Seq<int> {
    Seq::new(
        table.len() + addrs.len(),
        |i: int|
            if i < table.len() {
                reduce(fingerprint(i, table[i], 0, gamma, tau))
            } else {
                let k = i - table.len();
                reduce(fingerprint(addrs[k], values[k], times[k] + 1, gamma, tau))
            },
    )
}

/// The fingerprints of what is read from the memory, and of what it holds
/// at last, each address at the time of its count.
pub open spec fn read_trace(
    table: Seq<int>,
    addrs: Seq<int>,
    values: Seq<int>,
    times: Seq<int>,
    counts: Seq<int>,
    gamma: int,
    tau: int,
) -> Seq<int> {
    Seq::new(
        addrs.len() + table.len(),
        |i: int|
            if i < addrs.len() {
                reduce(fingerprint(addrs[i], values[i], times[i], gamma, tau))
            } else {
                let a = i - addrs.len();
                reduce(fingerprint(a, table[a], counts[a], gamma, tau))
            },
    )
}

/// The terms of the sum that the primary sumcheck proves.
pub open spec fn triple_terms(a: Seq<int>, b: Seq<int>, c: Seq<int>) -> spec_fn(int) -> int {
    |i: int| a[i] * b[i] * c[i]
}

/// The sum over the entries of the product of the three lists.
pub open spec fn triple_sum(a: Seq<int>, b: Seq<int>, c: Seq<int>) -> int {
    sum_to(a.len(), triple_terms(a, b, c))
}

/// The witness of the grand product of one memory: the write side, filled
/// with ones to a power of two.
pub open spec fn memory_witness(
    table: Seq<int>,
    addrs: Seq<int>,
    values: Seq<int>,
    times: Seq<int>,
    gamma: int,
    tau: int,
) -> Seq<int> {
    padded(write_trace(table, addrs, values, times, gamma, tau), 1)
}

/// The two points that the verifier chooses, and the state of the sponge
/// after them.
pub struct SparkSetup {
    pub rx: Seq<int>,
    pub ry: Seq<int>,
    pub sponge_state: Seq<u8>,
}

/// The state of the sponge once the values, the rows and the columns are
/// absorbed.
pub open spec fn spark_absorbed(
    sponge: Sponge,
    state: Seq<u8>,
    vals: Seq<int>,
    rows: Seq<int>,
    cols: Seq<int>,
) -> Seq<u8> {
    let first = absorb_points(sponge, state, "spark_vals".spec_bytes(), vals);
    let second = absorb_points(sponge, first, "spark_rows".spec_bytes(), rows);
    absorb_points(sponge, second, "spark_cols".spec_bytes(), cols)
}

/// The values, the rows and the columns are absorbed; then twice as many
/// challenges are squeezed as the memory has address bits, the first half
/// for the rows and the second for the columns.
pub open spec fn spark_setup(
    sponge: Sponge,
    state: Seq<u8>,
    vals: Seq<int>,
    rows: Seq<int>,
    cols: Seq<int>,
    memory: nat,
) -> SparkSetup {
    let third = spark_absorbed(sponge, state, vals, rows, cols);
    let bits = log2(memory);
    let squeezed = squeeze_many(sponge, third, "spark_challenge".spec_bytes(), 2 * bits);
    SparkSetup {
        rx: squeezed.0.take(bits as int),
        ry: squeezed.0.skip(bits as int),
        sponge_state: squeezed.1,
    }
}

/// The two challenges of the fingerprints, and the state of the sponge after
/// them.
pub open spec fn fingerprint_challenges(sponge: Sponge, state: Seq<u8>) -> (int, int, Seq<u8>) {
    let gamma = (sponge.squeeze)(state, "spark_gamma".spec_bytes());
    let tau = (sponge.squeeze)(gamma.1, "spark_tau".spec_bytes());
    (gamma.0, tau.0, tau.1)
}

/// What the prover needs of its input: at least two entries, each with a row
/// and a column below the size of the memory, which is a power of two; and
/// lengths that the machine can double.
pub open spec fn spark_ready(vals: Seq<int>, rows: Seq<int>, cols: Seq<int>, memory: nat) -> bool {
    &&& vals.len() >= 2
    &&& rows.len() == vals.len()
    &&& cols.len() == vals.len()
    &&& pow2(log2(memory)) == memory
    &&& memory + vals.len() <= usize::MAX / 2 + 1
    &&& forall|i: int| 0 <= i < rows.len() ==> 0 <= #[trigger] rows[i] < memory
    &&& forall|i: int| 0 <= i < cols.len() ==> 0 <= #[trigger] cols[i] < memory
}

/// What an honest prover produces.
pub struct SparkProver {
    pub e_rx: Seq<int>,
    pub e_ry: Seq<int>,
    pub times_rows: Seq<int>,
    pub times_cols: Seq<int>,
    pub counts_rows: Seq<int>,
    pub counts_cols: Seq<int>,
    pub primary_claim: int,
    pub primary: crate::linearsumcheck::ProverState,
    pub row: crate::grandproduct::ProductProver,
    pub col: crate::grandproduct::ProductProver,
}

/// The run of an honest prover.
pub open spec fn spark_prover(
    sponge: Sponge,
    state: Seq<u8>,
    vals: Seq<int>,
    rows: Seq<int>,
    cols: Seq<int>,
    memory: nat,
) -> SparkProver {
    let setup = spark_setup(sponge, state, vals, rows, cols, memory);
    let table_x = eq_table(setup.rx);
    let table_y = eq_table(setup.ry);
    let e_rx = lookup(table_x, rows);
    let e_ry = lookup(table_y, cols);
    let claim = reduce(triple_sum(vals, e_rx, e_ry));
    let primary = prover_end(
        sponge,
        setup.sponge_state,
        claim,
        seq![padded(vals, 0), padded(e_rx, 0), padded(e_ry, 0)],
    );
    let chosen = fingerprint_challenges(sponge, primary.sponge_state);
    let w_row = memory_witness(table_x, rows, e_rx, read_times(rows), chosen.0, chosen.1);
    let row = product_prover_end(sponge, chosen.2, reduce(product_of(w_row)), w_row);
    let w_col = memory_witness(table_y, cols, e_ry, read_times(cols), chosen.0, chosen.1);
    let col = product_prover_end(sponge, row.sponge_state, reduce(product_of(w_col)), w_col);
    SparkProver {
        e_rx,
        e_ry,
        times_rows: read_times(rows),
        times_cols: read_times(cols),
        counts_rows: final_counts(rows, memory),
        counts_cols: final_counts(cols, memory),
        primary_claim: claim,
        primary,
        row,
        col,
    }
}

/// The proof of the argument.
#[derive(Clone, Debug)]
pub struct SparkProof {
    /// The sumcheck over the entries.
    pub primary_sumcheck_proof: SumcheckProof,
    /// The grand product of the write side of the memory of the rows.
    pub row_grand_product_proof: GrandProductProof,
    /// The same for the columns.
    pub col_grand_product_proof: GrandProductProof,
    /// The values of the entries.
    pub vals: Vec<Scalar>,
    /// For each entry, the equality polynomial of its row.
    pub e_rx: Vec<Scalar>,
    /// For each entry, the equality polynomial of its column.
    pub e_ry: Vec<Scalar>,
    /// The row of each entry.
    pub read_rows: Vec<Scalar>,
    /// The column of each entry.
    pub read_cols: Vec<Scalar>,
    /// For each entry, the time that the access to its row reads.
    pub times_rows: Vec<Scalar>,
    /// For each entry, the time that the access to its column reads.
    pub times_cols: Vec<Scalar>,
    /// For each row, how often it is accessed.
    pub counts_rows: Vec<Scalar>,
    /// For each column, how often it is accessed.
    pub counts_cols: Vec<Scalar>,
    /// The size of the memory.
    pub memory: usize,
}

/// The proof is what the run of an honest prover yields.
pub open spec fn honest_proof(
    run: SparkProver,
    proof: SparkProof,
    vals: Seq<int>,
    rows: Seq<int>,
    cols: Seq<int>,
    memory: nat,
) -> bool {
    &&& proof.vals.deep_view() == vals
    &&& proof.read_rows.deep_view() == rows
    &&& proof.read_cols.deep_view() == cols
    &&& proof.memory == memory
    &&& proof.e_rx.deep_view() == run.e_rx
    &&& proof.e_ry.deep_view() == run.e_ry
    &&& proof.times_rows.deep_view() == run.times_rows
    &&& proof.times_cols.deep_view() == run.times_cols
    &&& proof.counts_rows.deep_view() == run.counts_rows
    &&& proof.counts_cols.deep_view() == run.counts_cols
    &&& proof.primary_sumcheck_proof.claim@ == run.primary_claim
    &&& proof.primary_sumcheck_proof.degree == 3
    &&& proof.primary_sumcheck_proof.rounds == log2(next_power_of_two(vals.len()))
    &&& proof.primary_sumcheck_proof.polynomials.deep_view() == run.primary.polynomials
    &&& proof.primary_sumcheck_proof.rands.deep_view() == run.primary.challenges
    &&& proof.primary_sumcheck_proof.final_terms.deep_view() == first_entries(run.primary.tables)
    &&& proof.row_grand_product_proof.claims.deep_view() == run.row.claims
    &&& proof.row_grand_product_proof.left_evals.deep_view() == run.row.left_evals
    &&& proof.row_grand_product_proof.right_evals.deep_view() == run.row.right_evals
    &&& proof.row_grand_product_proof.sumcheck_proofs.deep_view() == run.row.proofs
    &&& proof.col_grand_product_proof.claims.deep_view() == run.col.claims
    &&& proof.col_grand_product_proof.left_evals.deep_view() == run.col.left_evals
    &&& proof.col_grand_product_proof.right_evals.deep_view() == run.col.right_evals
    &&& proof.col_grand_product_proof.sumcheck_proofs.deep_view() == run.col.proofs
}

/// The parts of a proof fit together.
pub open spec fn spark_shape(proof: SparkProof) -> bool {
    let entries = proof.vals.len();
    let memory = proof.memory;
    &&& entries >= 2
    &&& pow2(log2(memory as nat)) == memory
    &&& memory + entries <= usize::MAX / 2 + 1
    &&& proof.e_rx.len() == entries
    &&& proof.e_ry.len() == entries
    &&& proof.read_rows.len() == entries
    &&& proof.read_cols.len() == entries
    &&& proof.times_rows.len() == entries
    &&& proof.times_cols.len() == entries
    &&& proof.counts_rows.len() == memory
    &&& proof.counts_cols.len() == memory
    &&& proof.primary_sumcheck_proof.degree == 3
    &&& proof.primary_sumcheck_proof.rounds == log2(next_power_of_two(entries as nat))
    &&& proof.primary_sumcheck_proof.final_terms.len() == 3
    &&& proof.row_grand_product_proof.claims.len() == log2(
        next_power_of_two((memory + entries) as nat),
    ) + 1
    &&& proof.col_grand_product_proof.claims.len() == log2(
        next_power_of_two((memory + entries) as nat),
    ) + 1
}

/// Whether the check of one memory passes, and the state of the sponge after
/// it: the grand product must pass, its last claim must be the value of the
/// write side at its point, and its first claim must be the product of the
/// read side.
pub open spec fn memory_accepted(
    sponge: Sponge,
    state: Seq<u8>,
    table: Seq<int>,
    addrs: Seq<int>,
    values: Seq<int>,
    times: Seq<int>,
    counts: Seq<int>,
    gamma: int,
    tau: int,
    proof: GrandProductProof,
) -> (bool, Seq<u8>) {
    let end = product_verifier_end(
        sponge,
        state,
        proof.claims.deep_view(),
        proof.left_evals.deep_view(),
        proof.right_evals.deep_view(),
        proof.sumcheck_proofs.deep_view(),
    );
    let witness = memory_witness(table, addrs, values, times, gamma, tau);
    (
        product_shape(
            proof.claims.deep_view(),
            proof.left_evals.deep_view(),
            proof.right_evals.deep_view(),
            proof.sumcheck_proofs.deep_view(),
        ) && end.accepted && end.claim == reduce(mle_eval(end.point, witness))
            && proof.claims.deep_view()[0] == reduce(
            product_of(read_trace(table, addrs, values, times, counts, gamma, tau)),
        ),
        end.sponge_state,
    )
}

/// Whether the sumcheck over the entries passes, with the challenges and the
/// state of the sponge after it: the final terms must multiply to its final
/// value, and must be the values of the three lists at its point.
pub open spec fn primary_accepted(sponge: Sponge, state: Seq<u8>, proof: SparkProof) -> (
    bool,
    Seq<u8>,
) {
    let sumcheck = proof.primary_sumcheck_proof;
    let end = verifier_end(
        sponge,
        state,
        sumcheck.claim@,
        sumcheck.polynomials.deep_view(),
        sumcheck.degree as nat,
        sumcheck.rounds as nat,
    );
    let terms = sumcheck.final_terms.deep_view();
    (
        well_shaped(
            sumcheck.polynomials.deep_view(),
            sumcheck.degree as nat,
            sumcheck.rounds as nat,
        ) && end.accepted && end.challenges == sumcheck.rands.deep_view() && end.claim == reduce(
            terms[0] * terms[1] * terms[2],
        ) && terms[0] == reduce(mle_eval(end.challenges, padded(proof.vals.deep_view(), 0)))
            && terms[1] == reduce(mle_eval(end.challenges, padded(proof.e_rx.deep_view(), 0)))
            && terms[2] == reduce(mle_eval(end.challenges, padded(proof.e_ry.deep_view(), 0))),
        end.sponge_state,
    )
}

/// Whether the verifier accepts a proof, and the state in which it then
/// leaves the sponge.
pub open spec fn spark_verifier(sponge: Sponge, state: Seq<u8>, proof: SparkProof) -> (
    bool,
    Seq<u8>,
) {
    let setup = spark_setup(
        sponge,
        state,
        proof.vals.deep_view(),
        proof.read_rows.deep_view(),
        proof.read_cols.deep_view(),
        proof.memory as nat,
    );
    let primary = primary_accepted(sponge, setup.sponge_state, proof);
    let chosen = fingerprint_challenges(sponge, primary.1);
    let row = memory_accepted(
        sponge,
        chosen.2,
        eq_table(setup.rx),
        proof.read_rows.deep_view(),
        proof.e_rx.deep_view(),
        proof.times_rows.deep_view(),
        proof.counts_rows.deep_view(),
        chosen.0,
        chosen.1,
        proof.row_grand_product_proof,
    );
    let col = memory_accepted(
        sponge,
        row.1,
        eq_table(setup.ry),
        proof.read_cols.deep_view(),
        proof.e_ry.deep_view(),
        proof.times_cols.deep_view(),
        proof.counts_cols.deep_view(),
        chosen.0,
        chosen.1,
        proof.col_grand_product_proof,
    );
    (spark_shape(proof) && primary.0 && row.0 && col.0, col.1)
}

/// The state in which the verifier leaves the sponge, whether it accepts or
/// not: untouched where the parts of the proof do not fit together; as the
/// sumcheck over the entries leaves it, where that sumcheck or one of its
/// cross-checks fails; and else as the grand product of the first memory
/// that fails leaves it, or of the memory of the columns where none does.
pub open spec fn spark_verifier_leaves(sponge: Sponge, state: Seq<u8>, proof: SparkProof) -> Seq<
    u8,
> {
    let setup = spark_setup(
        sponge,
        state,
        proof.vals.deep_view(),
        proof.read_rows.deep_view(),
        proof.read_cols.deep_view(),
        proof.memory as nat,
    );
    let sumcheck = proof.primary_sumcheck_proof;
    let primary = primary_accepted(sponge, setup.sponge_state, proof);
    let chosen = fingerprint_challenges(sponge, primary.1);
    let rows = proof.row_grand_product_proof;
    let cols = proof.col_grand_product_proof;
    let row = memory_accepted(
        sponge,
        chosen.2,
        eq_table(setup.rx),
        proof.read_rows.deep_view(),
        proof.e_rx.deep_view(),
        proof.times_rows.deep_view(),
        proof.counts_rows.deep_view(),
        chosen.0,
        chosen.1,
        rows,
    );
    if !spark_shape(proof) {
        state
    } else if !primary.0 {
        verifier_leaves(
            sponge,
            setup.sponge_state,
            sumcheck.claim@,
            sumcheck.polynomials.deep_view(),
            sumcheck.degree as nat,
            sumcheck.rounds as nat,
        )
    } else if !row.0 {
        product_verifier_leaves(
            sponge,
            chosen.2,
            rows.claims.deep_view(),
            rows.left_evals.deep_view(),
            rows.right_evals.deep_view(),
            rows.sumcheck_proofs.deep_view(),
        )
    } else {
        product_verifier_leaves(
            sponge,
            row.1,
            cols.claims.deep_view(),
            cols.left_evals.deep_view(),
            cols.right_evals.deep_view(),
            cols.sumcheck_proofs.deep_view(),
        )
    }
}

/// The nonzero entries of a matrix that is stored row by row, each with its
/// row and its column.
pub fn densify(matrix: &[Scalar], row_count: usize, col_count: usize) -> (out: (
    Vec<Scalar>,
    Vec<usize>,
    Vec<usize>,
))
    requires
        col_count > 0,
    ensures
        ({
            let found = nonzero_indices(matrix.deep_view(), matrix.len() as nat);
            &&& out.0.deep_view() == Seq::new(found.len(), |k: int| matrix.deep_view()[found[k]])
            &&& as_ints(out.1@) == Seq::new(found.len(), |k: int| found[k] / (col_count as int))
            &&& as_ints(out.2@) == Seq::new(found.len(), |k: int| found[k] % (col_count as int))
        }),
{
    let ghost entries = matrix.deep_view();
    let mut vals: Vec<Scalar> = Vec::new();
    let mut rows: Vec<usize> = Vec::new();
    let mut cols: Vec<usize> = Vec::new();
    let mut i: usize = 0;
    while i < matrix.len()
        invariant
            i <= matrix.len(),
            col_count > 0,
            entries == matrix.deep_view(),
            ({
                let found = nonzero_indices(entries, i as nat);
                &&& vals.deep_view() == Seq::new(found.len(), |k: int| entries[found[k]])
                &&& as_ints(rows@) == Seq::new(found.len(), |k: int| found[k] / (col_count as int))
                &&& as_ints(cols@) == Seq::new(found.len(), |k: int| found[k] % (col_count as int))
            }),
        decreases matrix.len() - i,
    {
        let val = matrix[i];
        let ghost found = nonzero_indices(entries, i as nat);
        let ghost vals_before = vals.deep_view();
        let ghost rows_before = as_ints(rows@);
        let ghost cols_before = as_ints(cols@);
        if !val.is_zero() {
            let row = i / col_count;
            let col = i % col_count;
            vals.push(val);
            rows.push(row);
            cols.push(col);
            proof {
                let longer = nonzero_indices(entries, (i + 1) as nat);
                assert(longer == found.push(i as int));
                assert(vals.deep_view() =~= vals_before.push(val@));
                assert(as_ints(rows@) =~= rows_before.push(row as int));
                assert(as_ints(cols@) =~= cols_before.push(col as int));
                assert(vals.deep_view() =~= Seq::new(longer.len(), |k: int| entries[longer[k]]));
                assert(as_ints(rows@) =~= Seq::new(
                    longer.len(),
                    |k: int| longer[k] / (col_count as int),
                ));
                assert(as_ints(cols@) =~= Seq::new(
                    longer.len(),
                    |k: int| longer[k] % (col_count as int),
                ));
            }
        } else {
            proof {
                assert(nonzero_indices(entries, (i + 1) as nat) == found);
            }
        }
        i += 1;
    }
    (vals, rows, cols)
}

/// The addresses as field elements.
fn addresses(indices: &[usize]) -> (out: Vec<Scalar>)
    ensures
        out.deep_view() == as_ints(indices@),
        out.len() == indices.len(),
{
    let mut out: Vec<Scalar> = Vec::new();
    let mut i: usize = 0;
    while i < indices.len()
        invariant
            i <= indices.len(),
            out.len() == i,
            out.deep_view() == as_ints(indices@).take(i as int),
        decreases indices.len() - i,
    {
        let ghost before = out.deep_view();
        let address = Scalar::from_u64(indices[i] as u64);
        out.push(address);
        proof {
            assert(out.deep_view() =~= before.push(address@));
            assert(as_ints(indices@).take(i + 1) =~= before.push(address@));
        }
        i += 1;
    }
    proof {
        assert(as_ints(indices@).take(i as int) =~= as_ints(indices@));
    }
    out
}

/// The entries of `table` at `indices`.
fn lookup_all(table: &[Scalar], indices: &[usize]) -> (out: Vec<Scalar>)
    requires
        forall|i: int| 0 <= i < indices.len() ==> (#[trigger] indices[i]) < table.len(),
    ensures
        out.deep_view() == lookup(table.deep_view(), as_ints(indices@)),
        out.len() == indices.len(),
{
    let ghost expected = lookup(table.deep_view(), as_ints(indices@));
    let mut out: Vec<Scalar> = Vec::new();
    let mut i: usize = 0;
    while i < indices.len()
        invariant
            i <= indices.len(),
            forall|i: int| 0 <= i < indices.len() ==> (#[trigger] indices[i]) < table.len(),
            expected == lookup(table.deep_view(), as_ints(indices@)),
            out.len() == i,
            out.deep_view() == expected.take(i as int),
        decreases indices.len() - i,
    {
        let ghost before = out.deep_view();
        let entry = table[indices[i]];
        out.push(entry);
        proof {
            assert(out.deep_view() =~= before.push(entry@));
            assert(expected.take(i + 1) =~= before.push(entry@));
        }
        i += 1;
    }
    proof {
        assert(expected.take(i as int) =~= expected);
    }
    out
}

/// Counting never passes the number of accesses counted.
proof fn lemma_occurrences_bound(addrs: Seq<int>, upto: nat, a: int)
    ensures
        occurrences(addrs, upto, a) <= upto,
    decreases upto,
{
    if upto > 0 {
        lemma_occurrences_bound(addrs, (upto - 1) as nat, a);
    }
}

/// For each access the time that it reads, and for each address the time
/// that it holds at last.
fn access_times(indices: &[usize], memory: usize) -> (out: (Vec<Scalar>, Vec<Scalar>))
    requires
        forall|i: int| 0 <= i < indices.len() ==> (#[trigger] indices[i]) < memory,
    ensures
        out.0.deep_view() == read_times(as_ints(indices@)),
        out.1.deep_view() == final_counts(as_ints(indices@), memory as nat),
        out.0.len() == indices.len(),
        out.1.len() == memory,
{
    let ghost addrs = as_ints(indices@);
    let ghost expected = read_times(addrs);
    let mut tally: Vec<usize> = Vec::new();
    let mut a: usize = 0;
    while a < memory
        invariant
            a <= memory,
            tally.len() == a,
            forall|b: int| 0 <= b < a ==> #[trigger] tally[b] == 0,
        decreases memory - a,
    {
        tally.push(0);
        a += 1;
    }
    let mut times: Vec<Scalar> = Vec::new();
    let mut i: usize = 0;
    while i < indices.len()
        invariant
            i <= indices.len(),
            addrs == as_ints(indices@),
            expected == read_times(addrs),
            forall|i: int| 0 <= i < indices.len() ==> (#[trigger] indices[i]) < memory,
            tally.len() == memory,
            forall|b: int| 0 <= b < memory ==> #[trigger] tally[b] == occurrences(addrs, i as nat, b),
            times.len() == i,
            times.deep_view() == expected.take(i as int),
        decreases indices.len() - i,
    {
        let ghost before = times.deep_view();
        let address = indices[i];
        let seen = tally[address];
        proof {
            lemma_occurrences_bound(addrs, i as nat, address as int);
        }
        let time = Scalar::from_u64(seen as u64);
        times.push(time);
        tally.set(address, seen + 1);
        proof {
            assert(times.deep_view() =~= before.push(time@));
            assert(expected.take(i + 1) =~= before.push(time@));
            assert forall|b: int| 0 <= b < memory implies #[trigger] tally[b] == occurrences(
                addrs,
                (i + 1) as nat,
                b,
            ) by {
                assert(addrs[i as int] == address);
            }
        }
        i += 1;
    }
    let ghost last = final_counts(addrs, memory as nat);
    let mut counts: Vec<Scalar> = Vec::new();
    let mut a: usize = 0;
    while a < memory
        invariant
            a <= memory,
            i == indices.len(),
            addrs == as_ints(indices@),
            last == final_counts(addrs, memory as nat),
            tally.len() == memory,
            forall|b: int| 0 <= b < memory ==> #[trigger] tally[b] == occurrences(addrs, i as nat, b),
            counts.len() == a,
            counts.deep_view() == last.take(a as int),
        decreases memory - a,
    {
        let ghost before = counts.deep_view();
        let count = Scalar::from_u64(tally[a] as u64);
        counts.push(count);
        proof {
            assert(counts.deep_view() =~= before.push(count@));
            assert(last.take(a + 1) =~= before.push(count@));
        }
        a += 1;
    }
    proof {
        assert(expected.take(i as int) =~= expected);
        assert(last.take(a as int) =~= last);
    }
    (times, counts)
}

/// The fingerprint of an address, a value and a time.
fn fingerprint_of(
    a: &Scalar,
    v: &Scalar,
    t: &Scalar,
    gamma: &Scalar,
    gamma_squared: &Scalar,
    tau: &Scalar,
) -> (out: Scalar)
    requires
        gamma_squared@ == reduce(gamma@ * gamma@),
    ensures
        out@ == reduce(fingerprint(a@, v@, t@, gamma@, tau@)),
{
    let first = a.mul(gamma_squared);
    let second = v.mul(gamma);
    let out = first.add(&second).add(t).sub(tau);
    proof {
        lemma_reduce_mul(a@, gamma@ * gamma@);
        lemma_reduce_add(a@ * (gamma@ * gamma@), v@ * gamma@);
        lemma_reduce_add(a@ * (gamma@ * gamma@) + v@ * gamma@, t@);
        lemma_reduce_sub(a@ * (gamma@ * gamma@) + v@ * gamma@ + t@, tau@);
        lemma_reduce_add(first@ + second@, t@);
        lemma_reduce_sub(reduce(first@ + second@) + t@, tau@);
    }
    out
}

/// The write side of a memory: see [`write_trace`].
fn write_trace_of(
    table: &[Scalar],
    addrs: &[Scalar],
    values: &[Scalar],
    times: &[Scalar],
    gamma: &Scalar,
    tau: &Scalar,
) -> (out: Vec<Scalar>)
    requires
        values.len() == addrs.len(),
        times.len() == addrs.len(),
        table.len() + addrs.len() <= usize::MAX,
    ensures
        out.deep_view() == write_trace(
            table.deep_view(),
            addrs.deep_view(),
            values.deep_view(),
            times.deep_view(),
            gamma@,
            tau@,
        ),
        out.len() == table.len() + addrs.len(),
{
    let ghost expected = write_trace(
        table.deep_view(),
        addrs.deep_view(),
        values.deep_view(),
        times.deep_view(),
        gamma@,
        tau@,
    );
    let gamma_squared = gamma.mul(gamma);
    let zero = Scalar::zero();
    let one = Scalar::one();
    let mut out: Vec<Scalar> = Vec::new();
    let mut a: usize = 0;
    while a < table.len()
        invariant
            a <= table.len(),
            zero@ == 0,
            gamma_squared@ == reduce(gamma@ * gamma@),
            expected == write_trace(
                table.deep_view(),
                addrs.deep_view(),
                values.deep_view(),
                times.deep_view(),
                gamma@,
                tau@,
            ),
            out.len() == a,
            out.deep_view() == expected.take(a as int),
        decreases table.len() - a,
    {
        let ghost before = out.deep_view();
        let address = Scalar::from_u64(a as u64);
        let print = fingerprint_of(&address, &table[a], &zero, gamma, &gamma_squared, tau);
        out.push(print);
        proof {
            assert(out.deep_view() =~= before.push(print@));
            assert(expected.take(a + 1) =~= before.push(print@));
        }
        a += 1;
    }
    let mut k: usize = 0;
    while k < addrs.len()
        invariant
            k <= addrs.len(),
            values.len() == addrs.len(),
            times.len() == addrs.len(),
            table.len() + addrs.len() <= usize::MAX,
            one@ == 1,
            gamma_squared@ == reduce(gamma@ * gamma@),
            expected == write_trace(
                table.deep_view(),
                addrs.deep_view(),
                values.deep_view(),
                times.deep_view(),
                gamma@,
                tau@,
            ),
            out.len() == table.len() + k,
            out.deep_view() == expected.take(table.len() + k),
        decreases addrs.len() - k,
    {
        let ghost before = out.deep_view();
        let time = times[k].add(&one);
        let print = fingerprint_of(&addrs[k], &values[k], &time, gamma, &gamma_squared, tau);
        out.push(print);
        proof {
            let (a, v, t) = (addrs[k as int]@, values[k as int]@, times[k as int]@);
            lemma_reduce_add(a * (gamma@ * gamma@) + v * gamma@, t + 1);
            lemma_reduce_sub(a * (gamma@ * gamma@) + v * gamma@ + time@, tau@);
            lemma_reduce_sub(a * (gamma@ * gamma@) + v * gamma@ + (t + 1), tau@);
            assert(print@ == reduce(fingerprint(a, v, t + 1, gamma@, tau@)));
            assert(out.deep_view() =~= before.push(print@));
            assert(expected.take(table.len() + k + 1) =~= before.push(print@));
        }
        k += 1;
    }
    proof {
        assert(expected.take(table.len() + addrs.len()) =~= expected);
    }
    out
}

/// The read side of a memory: see [`read_trace`].
fn read_trace_of(
    table: &[Scalar],
    addrs: &[Scalar],
    values: &[Scalar],
    times: &[Scalar],
    counts: &[Scalar],
    gamma: &Scalar,
    tau: &Scalar,
) -> (out: Vec<Scalar>)
    requires
        values.len() == addrs.len(),
        times.len() == addrs.len(),
        counts.len() == table.len(),
        table.len() + addrs.len() <= usize::MAX,
    ensures
        out.deep_view() == read_trace(
            table.deep_view(),
            addrs.deep_view(),
            values.deep_view(),
            times.deep_view(),
            counts.deep_view(),
            gamma@,
            tau@,
        ),
{
    let ghost expected = read_trace(
        table.deep_view(),
        addrs.deep_view(),
        values.deep_view(),
        times.deep_view(),
        counts.deep_view(),
        gamma@,
        tau@,
    );
    let gamma_squared = gamma.mul(gamma);
    let mut out: Vec<Scalar> = Vec::new();
    let mut k: usize = 0;
    while k < addrs.len()
        invariant
            k <= addrs.len(),
            values.len() == addrs.len(),
            times.len() == addrs.len(),
            gamma_squared@ == reduce(gamma@ * gamma@),
            expected == read_trace(
                table.deep_view(),
                addrs.deep_view(),
                values.deep_view(),
                times.deep_view(),
                counts.deep_view(),
                gamma@,
                tau@,
            ),
            out.len() == k,
            out.deep_view() == expected.take(k as int),
        decreases addrs.len() - k,
    {
        let ghost before = out.deep_view();
        let print = fingerprint_of(&addrs[k], &values[k], &times[k], gamma, &gamma_squared, tau);
        out.push(print);
        proof {
            assert(out.deep_view() =~= before.push(print@));
            assert(expected.take(k + 1) =~= before.push(print@));
        }
        k += 1;
    }
    let mut a: usize = 0;
    while a < table.len()
        invariant
            a <= table.len(),
            counts.len() == table.len(),
            table.len() + addrs.len() <= usize::MAX,
            gamma_squared@ == reduce(gamma@ * gamma@),
            expected == read_trace(
                table.deep_view(),
                addrs.deep_view(),
                values.deep_view(),
                times.deep_view(),
                counts.deep_view(),
                gamma@,
                tau@,
            ),
            out.len() == addrs.len() + a,
            out.deep_view() == expected.take(addrs.len() + a),
        decreases table.len() - a,
    {
        let ghost before = out.deep_view();
        let address = Scalar::from_u64(a as u64);
        let print = fingerprint_of(&address, &table[a], &counts[a], gamma, &gamma_squared, tau);
        out.push(print);
        proof {
            assert(out.deep_view() =~= before.push(print@));
            assert(expected.take(addrs.len() + a + 1) =~= before.push(print@));
        }
        a += 1;
    }
    proof {
        assert(expected.take(addrs.len() + table.len()) =~= expected);
    }
    out
}

/// The product of the entries of a list.
fn product_all(list: &[Scalar]) -> (out: Scalar)
    ensures
        out@ == reduce(product_of(list.deep_view())),
{
    let ghost factors = entries(list.deep_view());
    let mut out = Scalar::one();
    proof {
        lemma_reduce_zero_one();
    }
    let mut i: usize = 0;
    while i < list.len()
        invariant
            i <= list.len(),
            factors == entries(list.deep_view()),
            out@ == reduce(product_to(i as nat, factors)),
        decreases list.len() - i,
    {
        let next = out.mul(&list[i]);
        proof {
            assert(factors(i as int) == list[i as int]@);
            lemma_reduce_mul(product_to(i as nat, factors), list[i as int]@);
        }
        out = next;
        i += 1;
    }
    out
}

/// The sum over the entries of the product of the three lists.
fn triple_sum_of(a: &[Scalar], b: &[Scalar], c: &[Scalar]) -> (out: Scalar)
    requires
        b.len() == a.len(),
        c.len() == a.len(),
    ensures
        out@ == reduce(triple_sum(a.deep_view(), b.deep_view(), c.deep_view())),
{
    let ghost terms = triple_terms(a.deep_view(), b.deep_view(), c.deep_view());
    let mut out = Scalar::zero();
    proof {
        lemma_reduce_zero_one();
    }
    let mut i: usize = 0;
    while i < a.len()
        invariant
            i <= a.len(),
            b.len() == a.len(),
            c.len() == a.len(),
            terms == triple_terms(a.deep_view(), b.deep_view(), c.deep_view()),
            out@ == reduce(sum_to(i as nat, terms)),
        decreases a.len() - i,
    {
        let term = a[i].mul(&b[i]).mul(&c[i]);
        let next = out.add(&term);
        proof {
            let (x, y, z) = (a[i as int]@, b[i as int]@, c[i as int]@);
            assert(terms(i as int) == x * y * z);
            lemma_reduce_mul(x * y, z);
            lemma_reduce_add(sum_to(i as nat, terms), x * y * z);
        }
        out = next;
        i += 1;
    }
    out
}

/// Absorbs the entries and squeezes the two points.
fn setup<T: ProtocolTranscript>(
    vals: &[Scalar],
    rows: &[Scalar],
    cols: &[Scalar],
    memory: usize,
    transcript: &mut T,
) -> (out: (Vec<Scalar>, Vec<Scalar>))
    requires
        memory <= usize::MAX / 2,
    ensures
        ({
            let expected = spark_setup(
                T::sponge(),
                old(transcript).state(),
                vals.deep_view(),
                rows.deep_view(),
                cols.deep_view(),
                memory as nat,
            );
            &&& out.0.deep_view() == expected.rx
            &&& out.1.deep_view() == expected.ry
            &&& final(transcript).state() == expected.sponge_state
        }),
        out.0.len() == log2(memory as nat),
        out.1.len() == log2(memory as nat),
{
    transcript.append_points("spark_vals".as_bytes(), vals);
    transcript.append_points("spark_rows".as_bytes(), rows);
    transcript.append_points("spark_cols".as_bytes(), cols);
    let bits = ilog2(memory);
    proof {
        lemma_log2_below(memory as nat);
    }
    let r = transcript.challenge_scalars("spark_challenge".as_bytes(), 2 * bits);
    let ghost all = r.deep_view();
    proof {
        lemma_squeeze_many_len(
            T::sponge(),
            spark_absorbed(
                T::sponge(),
                old(transcript).state(),
                vals.deep_view(),
                rows.deep_view(),
                cols.deep_view(),
            ),
            "spark_challenge".spec_bytes(),
            (2 * bits) as nat,
        );
        assert(r.len() == all.len());
    }
    let mut rx: Vec<Scalar> = Vec::new();
    let mut ry: Vec<Scalar> = Vec::new();
    let mut i: usize = 0;
    while i < bits
        invariant
            i <= bits,
            r.len() == 2 * bits,
            all == r.deep_view(),
            rx.len() == i,
            rx.deep_view() == all.take(bits as int).take(i as int),
        decreases bits - i,
    {
        let ghost before = rx.deep_view();
        rx.push(r[i]);
        proof {
            assert(rx.deep_view() =~= before.push(r[i as int]@));
            assert(all.take(bits as int).take(i + 1) =~= before.push(r[i as int]@));
        }
        i += 1;
    }
    let mut j: usize = 0;
    while j < bits
        invariant
            j <= bits,
            r.len() == 2 * bits,
            all == r.deep_view(),
            ry.len() == j,
            ry.deep_view() == all.skip(bits as int).take(j as int),
        decreases bits - j,
    {
        let ghost before = ry.deep_view();
        ry.push(r[bits + j]);
        proof {
            assert(ry.deep_view() =~= before.push(r[bits + j]@));
            assert(all.skip(bits as int).take(j + 1) =~= before.push(r[bits + j]@));
        }
        j += 1;
    }
    proof {
        assert(all.take(bits as int).take(bits as int) =~= all.take(bits as int));
        assert(all.skip(bits as int).take(bits as int) =~= all.skip(bits as int));
    }
    (rx, ry)
}

/// Squeezes the two challenges of the fingerprints.
fn choose_fingerprint<T: ProtocolTranscript>(transcript: &mut T) -> (out: (Scalar, Scalar))
    ensures
        ({
            let chosen = fingerprint_challenges(T::sponge(), old(transcript).state());
            &&& out.0@ == chosen.0
            &&& out.1@ == chosen.1
            &&& final(transcript).state() == chosen.2
        }),
{
    let gamma = transcript.challenge_scalar("spark_gamma".as_bytes());
    let tau = transcript.challenge_scalar("spark_tau".as_bytes());
    (gamma, tau)
}

/// The witness of the grand product of one memory.
fn memory_witness_of(
    table: &[Scalar],
    addrs: &[Scalar],
    values: &[Scalar],
    times: &[Scalar],
    gamma: &Scalar,
    tau: &Scalar,
) -> (out: Vec<Scalar>)
    requires
        values.len() == addrs.len(),
        times.len() == addrs.len(),
        2 <= table.len() + addrs.len() <= usize::MAX / 2 + 1,
    ensures
        out.deep_view() == memory_witness(
            table.deep_view(),
            addrs.deep_view(),
            values.deep_view(),
            times.deep_view(),
            gamma@,
            tau@,
        ),
        out.len() == next_power_of_two((table.len() + addrs.len()) as nat),
        witness_ready(out.deep_view()),
{
    let trace = write_trace_of(table, addrs, values, times, gamma, tau);
    let out = pad_with(trace.as_slice(), Scalar::one());
    proof {
        lemma_next_power_of_two_exists(trace.len() as nat);
        assert(out.deep_view().len() == out.len());
    }
    out
}

/// Proves the product of the write side of one memory.
fn prove_memory<T: ProtocolTranscript>(
    table: &[Scalar],
    addrs: &[Scalar],
    values: &[Scalar],
    times: &[Scalar],
    gamma: &Scalar,
    tau: &Scalar,
    transcript: &mut T,
) -> (proof: GrandProductProof)
    requires
        values.len() == addrs.len(),
        times.len() == addrs.len(),
        2 <= table.len() + addrs.len() <= usize::MAX / 2 + 1,
    ensures
        ({
            let witness = memory_witness(
                table.deep_view(),
                addrs.deep_view(),
                values.deep_view(),
                times.deep_view(),
                gamma@,
                tau@,
            );
            let end = product_prover_end(
                T::sponge(),
                old(transcript).state(),
                reduce(product_of(witness)),
                witness,
            );
            &&& proof.claims.deep_view() == end.claims
            &&& proof.left_evals.deep_view() == end.left_evals
            &&& proof.right_evals.deep_view() == end.right_evals
            &&& proof.sumcheck_proofs.deep_view() == end.proofs
            &&& final(transcript).state() == end.sponge_state
        }),
{
    let witness = memory_witness_of(table, addrs, values, times, gamma, tau);
    let claim = product_all(witness.as_slice());
    GrandProductProof::prove(witness.as_slice(), claim, transcript)
}

/// Checks one memory: see [`memory_accepted`].
fn verify_memory<T: ProtocolTranscript>(
    table: &[Scalar],
    addrs: &[Scalar],
    values: &[Scalar],
    times: &[Scalar],
    counts: &[Scalar],
    gamma: &Scalar,
    tau: &Scalar,
    proof: &GrandProductProof,
    transcript: &mut T,
) -> (ok: bool)
    requires
        values.len() == addrs.len(),
        times.len() == addrs.len(),
        counts.len() == table.len(),
        2 <= table.len() + addrs.len() <= usize::MAX / 2 + 1,
        proof.claims.len() == log2(next_power_of_two((table.len() + addrs.len()) as nat)) + 1,
    ensures
        ({
            let expected = memory_accepted(
                T::sponge(),
                old(transcript).state(),
                table.deep_view(),
                addrs.deep_view(),
                values.deep_view(),
                times.deep_view(),
                counts.deep_view(),
                gamma@,
                tau@,
                *proof,
            );
            &&& ok == expected.0
            &&& ok ==> final(transcript).state() == expected.1
        }),
        final(transcript).state() == product_verifier_leaves(
            T::sponge(),
            old(transcript).state(),
            proof.claims.deep_view(),
            proof.left_evals.deep_view(),
            proof.right_evals.deep_view(),
            proof.sumcheck_proofs.deep_view(),
        ),
{
    let checked = proof.verify(transcript);
    if checked.is_none() {
        return false;
    }
    let (claim, point) = checked.unwrap();
    let witness = memory_witness_of(table, addrs, values, times, gamma, tau);
    proof {
        assert(point.deep_view().len() == point.len());
    }
    let value = eval_mle(point.as_slice(), witness.as_slice());
    if !claim.equals(&value) {
        return false;
    }
    let reads = read_trace_of(table, addrs, values, times, counts, gamma, tau);
    let product = product_all(reads.as_slice());
    proof {
        assert(proof.claims.deep_view()[0] == proof.claims[0]@);
    }
    proof.claims[0].equals(&product)
}

impl SparkProof {
    /// Proves the value of the bilinear form of the matrix with the entries
    /// `vals` at `rows` and `cols`, at the two points that the transcript
    /// yields. The value proved is the claim of the primary sumcheck.
    pub fn prove<T: ProtocolTranscript>(
        vals: &[Scalar],
        rows: &[usize],
        cols: &[usize],
        memory: usize,
        transcript: &mut T,
    ) -> (proof: Self)
        requires
            spark_ready(vals.deep_view(), as_ints(rows@), as_ints(cols@), memory as nat),
        ensures
            honest_proof(
                spark_prover(
                    T::sponge(),
                    old(transcript).state(),
                    vals.deep_view(),
                    as_ints(rows@),
                    as_ints(cols@),
                    memory as nat,
                ),
                proof,
                vals.deep_view(),
                as_ints(rows@),
                as_ints(cols@),
                memory as nat,
            ),
            final(transcript).state() == spark_prover(
                T::sponge(),
                old(transcript).state(),
                vals.deep_view(),
                as_ints(rows@),
                as_ints(cols@),
                memory as nat,
            ).col.sponge_state,
    {
        let ghost sponge = T::sponge();
        let ghost entries = vals.deep_view();
        let read_rows = addresses(rows);
        let read_cols = addresses(cols);
        let (rx, ry) = setup(vals, read_rows.as_slice(), read_cols.as_slice(), memory, transcript);
        proof {
            assert(rx.deep_view().len() == rx.len());
            assert(ry.deep_view().len() == ry.len());
        }
        let chi_rx = chis(rx.as_slice());
        let chi_ry = chis(ry.as_slice());
        proof {
            assert(chi_rx.deep_view() =~= eq_table(rx.deep_view()));
            assert(chi_ry.deep_view() =~= eq_table(ry.deep_view()));
            assert forall|i: int| 0 <= i < rows.len() implies (#[trigger] rows[i]) < chi_rx.len() by {
                assert(as_ints(rows@)[i] == rows[i]);
            }
            assert forall|i: int| 0 <= i < cols.len() implies (#[trigger] cols[i]) < chi_ry.len() by {
                assert(as_ints(cols@)[i] == cols[i]);
            }
            assert(as_ints(rows@).len() == rows.len());
            assert(as_ints(cols@).len() == cols.len());
        }
        let e_rx = lookup_all(chi_rx.as_slice(), rows);
        let e_ry = lookup_all(chi_ry.as_slice(), cols);
        let claim = triple_sum_of(vals, e_rx.as_slice(), e_ry.as_slice());
        let mles = vec![
            pad_next_power_of_two(vals),
            pad_next_power_of_two(e_rx.as_slice()),
            pad_next_power_of_two(e_ry.as_slice()),
        ];
        proof {
            lemma_next_power_of_two_exists(vals.len() as nat);
            assert(mles.deep_view() =~= seq![
                padded(entries, 0),
                padded(e_rx.deep_view(), 0),
                padded(e_ry.deep_view(), 0),
            ]);
            assert(mles[0].deep_view().len() == mles[0].len());
            assert(mles[1].deep_view().len() == mles[1].len());
            assert(mles[2].deep_view().len() == mles[2].len());
            assert(tables_ready(mles.deep_view()));
        }
        let primary = SumcheckProof::prove(claim, mles, transcript);
        let (gamma, tau) = choose_fingerprint(transcript);
        let (times_rows, counts_rows) = access_times(rows, memory);
        let (times_cols, counts_cols) = access_times(cols, memory);
        let row = prove_memory(
            chi_rx.as_slice(),
            read_rows.as_slice(),
            e_rx.as_slice(),
            times_rows.as_slice(),
            &gamma,
            &tau,
            transcript,
        );
        let col = prove_memory(
            chi_ry.as_slice(),
            read_cols.as_slice(),
            e_ry.as_slice(),
            times_cols.as_slice(),
            &gamma,
            &tau,
            transcript,
        );
        SparkProof {
            primary_sumcheck_proof: primary,
            row_grand_product_proof: row,
            col_grand_product_proof: col,
            vals: slice_to_vec(vals),
            e_rx,
            e_ry,
            read_rows,
            read_cols,
            times_rows,
            times_cols,
            counts_rows,
            counts_cols,
            memory,
        }
    }

    /// Whether the parts of the proof fit together.
    fn check_shape(&self) -> (ok: bool)
        ensures
            ok == spark_shape(*self),
    {
        let entries = self.vals.len();
        let memory = self.memory;
        if entries < 2 || memory > usize::MAX / 2 + 1 || entries > usize::MAX / 2 + 1 - memory {
            return false;
        }
        if !is_power_of_two(memory) {
            return false;
        }
        let trace_len = memory + entries;
        let primary = &self.primary_sumcheck_proof;
        self.e_rx.len() == entries && self.e_ry.len() == entries && self.read_rows.len()
            == entries && self.read_cols.len() == entries && self.times_rows.len() == entries
            && self.times_cols.len() == entries && self.counts_rows.len() == memory
            && self.counts_cols.len() == memory && primary.degree == 3 && primary.rounds
            == padded_log2(entries) && primary.final_terms.len() == 3
            && self.row_grand_product_proof.claims.len()
            == padded_log2(trace_len) + 1 && self.col_grand_product_proof.claims.len()
            == padded_log2(trace_len) + 1
    }

    /// Checks the proof.
    ///
    /// Accepts where the parts of the proof fit together, the sumcheck over
    /// the entries passes and ends in the product of its final terms, which
    /// are the values of the three lists at its point, and the checks of
    /// the two memories pass. A verifier that rejects stops at the first
    /// check that fails; [`spark_verifier_leaves`] says how the transcript
    /// is left.
    pub fn verify<T: ProtocolTranscript>(&self, transcript: &mut T) -> (accepted: bool)
        ensures
            accepted == spark_verifier(T::sponge(), old(transcript).state(), *self).0,
            accepted ==> final(transcript).state() == spark_verifier(
                T::sponge(),
                old(transcript).state(),
                *self,
            ).1,
            final(transcript).state() == spark_verifier_leaves(
                T::sponge(),
                old(transcript).state(),
                *self,
            ),
    {
        if !self.check_shape() {
            return false;
        }
        let memory = self.memory;
        let (rx, ry) = setup(
            self.vals.as_slice(),
            self.read_rows.as_slice(),
            self.read_cols.as_slice(),
            memory,
            transcript,
        );
        proof {
            assert(rx.deep_view().len() == rx.len());
            assert(ry.deep_view().len() == ry.len());
            lemma_next_power_of_two_exists(self.vals.len() as nat);
        }
        let primary = &self.primary_sumcheck_proof;
        let checked = primary.verify(transcript);
        if checked.is_none() {
            return false;
        }
        let (rz, eval) = checked.unwrap();
        let terms = &primary.final_terms;
        proof {
            assert(terms.deep_view()[0] == terms[0]@);
            assert(terms.deep_view()[1] == terms[1]@);
            assert(terms.deep_view()[2] == terms[2]@);
            lemma_reduce_mul(terms[0]@ * terms[1]@, terms[2]@);
            assert(rz.deep_view().len() == rz.len());
        }
        let product = terms[0].mul(&terms[1]).mul(&terms[2]);
        let padded_vals = pad_next_power_of_two(self.vals.as_slice());
        let padded_rx = pad_next_power_of_two(self.e_rx.as_slice());
        let padded_ry = pad_next_power_of_two(self.e_ry.as_slice());
        if !product.equals(&eval) || !terms[0].equals(
            &eval_mle(rz.as_slice(), padded_vals.as_slice()),
        ) || !terms[1].equals(&eval_mle(rz.as_slice(), padded_rx.as_slice())) || !terms[2].equals(
            &eval_mle(rz.as_slice(), padded_ry.as_slice()),
        ) {
            return false;
        }
        let (gamma, tau) = choose_fingerprint(transcript);
        let chi_rx = chis(rx.as_slice());
        let chi_ry = chis(ry.as_slice());
        proof {
            assert(chi_rx.deep_view() =~= eq_table(rx.deep_view()));
            assert(chi_ry.deep_view() =~= eq_table(ry.deep_view()));
        }
        if !verify_memory(
            chi_rx.as_slice(),
            self.read_rows.as_slice(),
            self.e_rx.as_slice(),
            self.times_rows.as_slice(),
            self.counts_rows.as_slice(),
            &gamma,
            &tau,
            &self.row_grand_product_proof,
            transcript,
        ) {
            return false;
        }
        verify_memory(
            chi_ry.as_slice(),
            self.read_cols.as_slice(),
            self.e_ry.as_slice(),
            self.times_cols.as_slice(),
            self.counts_cols.as_slice(),
            &gamma,
            &tau,
            &self.col_grand_product_proof,
            transcript,
        )
    }
}

} // verus!
