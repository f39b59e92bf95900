//! The Fiat-Shamir transcript: messages are absorbed under labels, and
//! challenges are squeezed out of everything absorbed so far.
//!
//! A transcript is modelled by the state of its sponge. What a challenge is,
//! and what state an operation leaves, are functions of the state before and
//! of the operation's arguments; nothing else is known of them, and nothing
//! else is needed for a prover and a verifier to agree.

use crate::field::le_bytes;
use crate::field::le_value;
use crate::field::lemma_reduce_range;
use crate::field::modulus;
use crate::field::reduce;
use crate::field::Scalar;
use merlin::Transcript;
use vstd::prelude::*;
use vstd::string::is_ascii_spec_bytes;
use vstd::string::StringSliceAdditionalSpecFns;

verus! {

/// The Merlin transcript, taken as it is: nothing is known of what it holds
/// but through [`sponge_state`].
#[verifier::external_type_specification]
#[verifier::external_body]
pub struct ExTranscript(Transcript);

/// What a Merlin transcript holds: the state of its sponge.
pub uninterp spec fn sponge_state(transcript: Transcript) -> Seq<u8>;

/// The state in which `Transcript::append_message` leaves a sponge.
pub uninterp spec fn sponge_absorb(state: Seq<u8>, label: Seq<u8>, message: Seq<u8>) -> Seq<u8>;

/// The bytes that `Transcript::challenge_bytes` writes, and the state in
/// which it leaves the sponge.
pub uninterp spec fn sponge_squeeze(state: Seq<u8>, label: Seq<u8>, len: nat) -> (
    Seq<u8>,
    Seq<u8>,
);

/// The message that opens a list of scalars.
pub open spec fn begin_marker() -> Seq<u8> {
    "begin_append_points".spec_bytes()
}

/// The message that closes a list of scalars.
pub open spec fn end_marker() -> Seq<u8> {
    "end_append_points".spec_bytes()
}

/// The canonical encoding of a scalar: 32 little-endian bytes.
pub open spec fn scalar_bytes(scalar: int) -> Seq<u8> {
    le_bytes(scalar, 32)
}

/// How a sponge behaves: the state that absorbing leaves, and the challenge
/// that squeezing yields together with the state that it leaves.
pub struct Sponge {
    pub absorb: spec_fn(Seq<u8>, Seq<u8>, Seq<u8>) -> Seq<u8>,
    pub squeeze: spec_fn(Seq<u8>, Seq<u8>) -> (int, Seq<u8>),
}

/// Every challenge of the sponge is a canonical field element.
pub open spec fn well_behaved(sponge: Sponge) -> bool {
    forall|state: Seq<u8>, label: Seq<u8>|
        0 <= (#[trigger] (sponge.squeeze)(state, label)).0 < modulus()
}

/// The state after each of `points` is absorbed under `label`, in order.
pub open spec fn absorb_each(sponge: Sponge, state: Seq<u8>, label: Seq<u8>, points: Seq<int>) -> Seq<
    u8,
>
    decreases points.len(),
{
    if points.len() == 0 {
        state
    } else {
        (sponge.absorb)(
            absorb_each(sponge, state, label, points.drop_last()),
            label,
            scalar_bytes(points.last()),
        )
    }
}

/// The state after `points` is absorbed as a framed list.
pub open spec fn absorb_points(
    sponge: Sponge,
    state: Seq<u8>,
    label: Seq<u8>,
    points: Seq<int>,
) -> Seq<u8> {
    (sponge.absorb)(
        absorb_each(sponge, (sponge.absorb)(state, label, begin_marker()), label, points),
        label,
        end_marker(),
    )
}

/// The first `count` challenges squeezed under `label`, and the state after
/// them.
pub open spec fn squeeze_many(sponge: Sponge, state: Seq<u8>, label: Seq<u8>, count: nat) -> (
    Seq<int>,
    Seq<u8>,
)
    decreases count,
{
    if count == 0 {
        (Seq::empty(), state)
    } else {
        let before = squeeze_many(sponge, state, label, (count - 1) as nat);
        let next = (sponge.squeeze)(before.1, label);
        (before.0.push(next.0), next.1)
    }
}

/// A transcript that absorbs labelled messages and squeezes labelled
/// challenges, each a function of all that came before.
pub trait ProtocolTranscript: Sized {
    /// The state of the sponge.
    spec fn state(&self) -> Seq<u8>;

    /// The behaviour of the sponge.
    spec fn sponge() -> Sponge;

    /// Absorbs the canonical encoding of `scalar`.
    fn append_scalar(&mut self, label: &'static [u8], scalar: &Scalar)
        ensures
            final(self).state() == (Self::sponge().absorb)(
                old(self).state(),
                label@,
                scalar_bytes(scalar@),
            ),
    ;

    /// Absorbs `message`.
    fn append_message(&mut self, label: &'static [u8], message: &[u8])
        requires
            message@.len() <= u32::MAX,
        ensures
            final(self).state() == (Self::sponge().absorb)(old(self).state(), label@, message@),
    ;

    /// Absorbs a list of scalars between an opening and a closing marker.
    fn append_points(&mut self, label: &'static [u8], points: &[Scalar])
        ensures
            final(self).state() == absorb_points(
                Self::sponge(),
                old(self).state(),
                label@,
                points.deep_view(),
            ),
    ;

    /// Squeezes one challenge.
    fn challenge_scalar(&mut self, label: &'static [u8]) -> (challenge: Scalar)
        ensures
            challenge@ == (Self::sponge().squeeze)(old(self).state(), label@).0,
            final(self).state() == (Self::sponge().squeeze)(old(self).state(), label@).1,
    ;

    /// Squeezes `count` challenges, one after the other.
    fn challenge_scalars(&mut self, label: &'static [u8], count: usize) -> (challenges: Vec<
        Scalar,
    >)
        ensures
            challenges.deep_view() == squeeze_many(
                Self::sponge(),
                old(self).state(),
                label@,
                count as nat,
            ).0,
            final(self).state() == squeeze_many(
                Self::sponge(),
                old(self).state(),
                label@,
                count as nat,
            ).1,
    ;
}

/// `Transcript::append_message`: the sponge absorbs the label, the length of
/// the message and the message.
#[verifier::external_body]
fn merlin_append(transcript: &mut Transcript, label: &'static [u8], message: &[u8])
    requires
        message@.len() <= u32::MAX,
    ensures
        sponge_state(*final(transcript)) == sponge_absorb(
            sponge_state(*old(transcript)),
            label@,
            message@,
        ),
{
    transcript.append_message(label, message)
}

/// `Transcript::challenge_bytes` with a buffer of 64 bytes: the sponge
/// absorbs the label and the length, then fills the buffer.
#[verifier::external_body]
fn merlin_challenge(transcript: &mut Transcript, label: &'static [u8]) -> (out: [u8; 64])
    ensures
        out@ == sponge_squeeze(sponge_state(*old(transcript)), label@, 64).0,
        sponge_state(*final(transcript)) == sponge_squeeze(
            sponge_state(*old(transcript)),
            label@,
            64,
        ).1,
{
    let mut out = [0u8; 64];
    transcript.challenge_bytes(label, &mut out);
    out
}

impl ProtocolTranscript for Transcript {
    open spec fn state(&self) -> Seq<u8> {
        sponge_state(*self)
    }

    /// A challenge is 64 squeezed bytes, read as a little-endian number and
    /// reduced.
    open spec fn sponge() -> Sponge {
        Sponge {
            absorb: |state: Seq<u8>, label: Seq<u8>, message: Seq<u8>|
                sponge_absorb(state, label, message),
            squeeze: |state: Seq<u8>, label: Seq<u8>|
                {
                    let out = sponge_squeeze(state, label, 64);
                    (reduce(le_value(out.0)), out.1)
                },
        }
    }

    fn append_scalar(&mut self, label: &'static [u8], scalar: &Scalar) {
        let bytes = scalar.to_bytes();
        proof {
            lemma_le_bytes_len(scalar@, 32);
        }
        merlin_append(self, label, bytes.as_slice());
    }

    fn append_message(&mut self, label: &'static [u8], message: &[u8]) {
        merlin_append(self, label, message);
    }

    fn append_points(&mut self, label: &'static [u8], points: &[Scalar]) {
        let begin = "begin_append_points".as_bytes();
        let end = "end_append_points".as_bytes();
        proof {
            reveal_strlit("begin_append_points");
            reveal_strlit("end_append_points");
            is_ascii_spec_bytes("begin_append_points");
            is_ascii_spec_bytes("end_append_points");
        }
        let ghost start = self.state();
        merlin_append(self, label, begin);
        let ghost opened = self.state();
        let mut i: usize = 0;
        while i < points.len()
            invariant
                i <= points.len(),
                opened == sponge_absorb(start, label@, begin_marker()),
                self.state() == absorb_each(
                    Self::sponge(),
                    opened,
                    label@,
                    points.deep_view().take(i as int),
                ),
            decreases points.len() - i,
        {
            self.append_scalar(label, &points[i]);
            proof {
                let taken = points.deep_view().take(i + 1);
                assert(taken.drop_last() =~= points.deep_view().take(i as int));
                assert(taken.last() == points[i as int]@);
            }
            i += 1;
        }
        proof {
            assert(points.deep_view().take(i as int) =~= points.deep_view());
        }
        merlin_append(self, label, end);
    }

    fn challenge_scalar(&mut self, label: &'static [u8]) -> (challenge: Scalar) {
        let out = merlin_challenge(self, label);
        Scalar::from_le_bytes_mod_order(out.as_slice())
    }

    fn challenge_scalars(&mut self, label: &'static [u8], count: usize) -> (challenges: Vec<
        Scalar,
    >) {
        let ghost start = self.state();
        let mut challenges: Vec<Scalar> = Vec::new();
        let mut i: usize = 0;
        while i < count
            invariant
                i <= count,
                challenges.deep_view() == squeeze_many(Self::sponge(), start, label@, i as nat).0,
                self.state() == squeeze_many(Self::sponge(), start, label@, i as nat).1,
            decreases count - i,
        {
            let ghost before = challenges.deep_view();
            let challenge = self.challenge_scalar(label);
            challenges.push(challenge);
            proof {
                assert(challenges.deep_view() =~= before.push(challenge@));
            }
            i += 1;
        }
        challenges
    }
}

/// The challenges of a Merlin transcript are canonical.
pub proof fn lemma_merlin_well_behaved()
    ensures
        well_behaved(Transcript::sponge()),
{
    let sponge = Transcript::sponge();
    assert forall|state: Seq<u8>, label: Seq<u8>|
        0 <= (#[trigger] (sponge.squeeze)(state, label)).0 < modulus() by {
        lemma_reduce_range(le_value(sponge_squeeze(state, label, 64).0));
    }
}

/// As many challenges come out as were asked for.
pub proof fn lemma_squeeze_many_len(sponge: Sponge, state: Seq<u8>, label: Seq<u8>, count: nat)
    ensures
        squeeze_many(sponge, state, label, count).0.len() == count,
    decreases count,
{
    if count > 0 {
        lemma_squeeze_many_len(sponge, state, label, (count - 1) as nat);
    }
}

/// An encoding has as many bytes as were asked for.
pub proof fn lemma_le_bytes_len(value: int, n: nat)
    ensures
        le_bytes(value, n).len() == n,
    decreases n,
{
    if n > 0 {
        lemma_le_bytes_len(value / 256, (n - 1) as nat);
    }
}

} // verus!
