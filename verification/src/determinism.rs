//! The arguments are deterministic: what a prover sends, and the state in
//! which it leaves the transcript, are functions of its input and of the
//! state in which it finds the transcript.

use crate::fiatshamir::Sponge;
use crate::grandproduct::product_prover_end;
use crate::linearsumcheck::prover_end;
use crate::spark::spark_prover;
use vstd::prelude::*;

verus! {

/// Two runs of the sumcheck prover on the same claim and the same tables,
/// from the same state of the sponge, send the same round polynomials, are
/// asked the same challenges, fold to the same tables and leave the sponge
/// in the same state.
pub proof fn lemma_sumcheck_deterministic(
    sponge: Sponge,
    first_state: Seq<u8>,
    first_claim: int,
    first_mles: Seq<Seq<int>>,
    second_state: Seq<u8>,
    second_claim: int,
    second_mles: Seq<Seq<int>>,
)
    requires
        first_state == second_state,
        first_claim == second_claim,
        first_mles == second_mles,
    ensures
        prover_end(sponge, first_state, first_claim, first_mles) == prover_end(
            sponge,
            second_state,
            second_claim,
            second_mles,
        ),
{
}

/// Two runs of the grand-product prover on the same claim and the same
/// witness, from the same state of the sponge, yield the same proof and
/// leave the sponge in the same state.
pub proof fn lemma_grand_product_deterministic(
    sponge: Sponge,
    first_state: Seq<u8>,
    first_claim: int,
    first_witness: Seq<int>,
    second_state: Seq<u8>,
    second_claim: int,
    second_witness: Seq<int>,
)
    requires
        first_state == second_state,
        first_claim == second_claim,
        first_witness == second_witness,
    ensures
        product_prover_end(sponge, first_state, first_claim, first_witness) == product_prover_end(
            sponge,
            second_state,
            second_claim,
            second_witness,
        ),
{
}

/// Two runs of the prover of the sparse argument on the same entries and
/// the same memory, from the same state of the sponge, yield the same proof
/// and leave the sponge in the same state.
pub proof fn lemma_spark_deterministic(
    sponge: Sponge,
    first_state: Seq<u8>,
    second_state: Seq<u8>,
    vals: Seq<int>,
    rows: Seq<int>,
    cols: Seq<int>,
    memory: nat,
)
    requires
        first_state == second_state,
    ensures
        spark_prover(sponge, first_state, vals, rows, cols, memory) == spark_prover(
            sponge,
            second_state,
            vals,
            rows,
            cols,
            memory,
        ),
{
}

} // verus!
