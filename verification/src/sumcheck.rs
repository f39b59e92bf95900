//! A sumcheck proof as one value: what the prover sent, what it was asked,
//! and what the tables are worth at the point that the challenges make.

use crate::fiatshamir::ProtocolTranscript;
use crate::field::same_scalars;
use crate::field::Scalar;
use crate::linearsumcheck::prove_rounds;
use crate::linearsumcheck::prover_end;
use crate::linearsumcheck::tables_ready;
use crate::linearsumcheck::verifier_end;
use crate::linearsumcheck::verifier_leaves;
use crate::linearsumcheck::well_shaped;
use crate::multilinear::log2;
use vstd::prelude::*;

verus! {

/// The proof of a sumcheck.
#[derive(Clone, Debug)]
pub struct SumcheckProof {
    /// The round polynomials, each by its values at `0, 1, ..., degree`.
    pub polynomials: Vec<Vec<Scalar>>,
    /// The challenges, one for each round.
    pub rands: Vec<Scalar>,
    /// The value of each table at the point that the challenges make.
    pub final_terms: Vec<Scalar>,
    /// The number of tables, which is the degree of the round polynomials.
    pub degree: usize,
    /// The number of rounds, which is the number of variables.
    pub rounds: usize,
    /// The claimed sum.
    pub claim: Scalar,
}

/// The only entry of each table.
pub open spec fn first_entries(tables: Seq<Seq<int>>) -> Seq<int> {
    Seq::new(tables.len(), |k: int| tables[k][0])
}

impl SumcheckProof {
    /// Proves that the sum over the hypercube of the product of `mles` is
    /// `claim`.
    pub fn prove<T: ProtocolTranscript>(claim: Scalar, mles: Vec<Vec<Scalar>>, transcript: &mut T) -> (proof:
        Self)
        requires
            tables_ready(mles.deep_view()),
            mles.len() < usize::MAX,
        ensures
            ({
                let end = prover_end(
                    T::sponge(),
                    old(transcript).state(),
                    claim@,
                    mles.deep_view(),
                );
                &&& proof.polynomials.deep_view() == end.polynomials
                &&& proof.rands.deep_view() == end.challenges
                &&& proof.final_terms.deep_view() == first_entries(end.tables)
                &&& final(transcript).state() == end.sponge_state
            }),
            proof.degree == mles.len(),
            proof.rounds == log2(mles[0].len() as nat),
            proof.claim == claim,
    {
        let degree = mles.len();
        let ghost expected = first_entries(
            prover_end(T::sponge(), transcript.state(), claim@, mles.deep_view()).tables,
        );
        let (polynomials, rands, tables) = prove_rounds(claim, mles, transcript);
        let rounds = rands.len();
        let mut final_terms: Vec<Scalar> = Vec::new();
        let mut k: usize = 0;
        while k < tables.len()
            invariant
                k <= tables.len(),
                expected == first_entries(tables.deep_view()),
                forall|i: int| 0 <= i < tables.len() ==> (#[trigger] tables[i]).len() == 1,
                final_terms.deep_view() == expected.take(k as int),
            decreases tables.len() - k,
        {
            let ghost before = final_terms.deep_view();
            let term = tables[k][0];
            proof {
                assert(tables.deep_view()[k as int] == tables[k as int].deep_view());
            }
            final_terms.push(term);
            proof {
                assert(final_terms.deep_view() =~= before.push(term@));
                assert(expected.take(k + 1) =~= before.push(term@));
            }
            k += 1;
        }
        proof {
            assert(expected.take(k as int) =~= expected);
        }
        SumcheckProof { polynomials, rands, final_terms, degree, rounds, claim }
    }

    /// Checks the proof against its own claim.
    ///
    /// Accepts where the round polynomials pass the checks of the sumcheck
    /// and the challenges squeezed are the ones that the proof records; then
    /// returns the challenges and the value that the product of the tables
    /// must have at the point that they make. A verifier that rejects stops
    /// at the first check that fails; [`verifier_leaves`] says how the
    /// transcript is left.
    pub fn verify<T: ProtocolTranscript>(&self, transcript: &mut T) -> (out: Option<
        (Vec<Scalar>, Scalar),
    >)
        ensures
            ({
                let end = verifier_end(
                    T::sponge(),
                    old(transcript).state(),
                    self.claim@,
                    self.polynomials.deep_view(),
                    self.degree as nat,
                    self.rounds as nat,
                );
                &&& out.is_some() <==> well_shaped(
                    self.polynomials.deep_view(),
                    self.degree as nat,
                    self.rounds as nat,
                ) && end.accepted && end.challenges == self.rands.deep_view()
                &&& out matches Some(pair) ==> {
                    &&& pair.0.deep_view() == end.challenges
                    &&& pair.0.len() == self.rounds
                    &&& pair.1@ == end.claim
                    &&& final(transcript).state() == end.sponge_state
                }
            }),
            final(transcript).state() == verifier_leaves(
                T::sponge(),
                old(transcript).state(),
                self.claim@,
                self.polynomials.deep_view(),
                self.degree as nat,
                self.rounds as nat,
            ),
    {
        let checked = crate::linearsumcheck::verify(
            self.claim,
            &self.polynomials,
            self.degree,
            self.rounds,
            transcript,
        );
        match checked {
            Some((rs, value)) => {
                if same_scalars(rs.as_slice(), self.rands.as_slice()) {
                    Some((rs, value))
                } else {
                    None
                }
            },
            None => None,
        }
    }
}

} // verus!
