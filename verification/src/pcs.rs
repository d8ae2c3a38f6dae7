//! Polynomial commitments for multilinear polynomials, and `MockPcs`, a
//! non-binding scheme that commits to a polynomial by keeping it.

use crate::field::{le_bytes, vals, Fe};
use crate::mle::{mle_eval, DenseMle, SparseMle};
use crate::transcript::{concat_bytes, CanonicalBytes, Transcript, TranscriptOp};
use ark_bn254::Fr;
use ark_ff::{BigInt, PrimeField};
use ark_poly::DenseMultilinearExtension;
use ark_serialize::CanonicalSerialize;
use ark_std::rand::rngs::StdRng;
use core::convert::Infallible;
use vstd::arithmetic::power2::pow2;
use vstd::prelude::*;

verus! {

#[verifier::external_type_specification]
#[verifier::external_body]
pub struct ExStdRng(StdRng);

/// A borrowed multilinear polynomial in either representation; both stand
/// for the polynomial with the same evaluations over `B_mu`.
#[derive(Clone, Copy)]
pub enum MleRef<'a> {
    Dense(&'a DenseMle),
    Sparse(&'a SparseMle),
}

impl<'a> MleRef<'a> {
    /// The polynomial's evaluations over `B_mu`.
    pub open spec fn table(self) -> Seq<int> {
        match self {
            MleRef::Dense(p) => p.table(),
            MleRef::Sparse(p) => p.table(),
        }
    }

    /// `mu`.
    pub open spec fn spec_num_vars(self) -> nat {
        match self {
            MleRef::Dense(p) => p.num_vars as nat,
            MleRef::Sparse(p) => p.num_vars as nat,
        }
    }

    /// The representation is well formed.
    pub open spec fn well_formed(self) -> bool {
        match self {
            MleRef::Dense(p) => p.well_formed(),
            MleRef::Sparse(p) => p.well_formed(),
        }
    }

    /// `mu`, the number of variables.
    pub fn num_vars(&self) -> (n: usize)
        ensures
            n == self.spec_num_vars(),
    {
        match self {
            MleRef::Dense(p) => p.num_vars,
            MleRef::Sparse(p) => p.num_vars,
        }
    }

    /// The polynomial's value at `point`.
    pub fn evaluate(&self, point: &[Fe]) -> (r: Fe)
        requires
            self.well_formed(),
            point@.len() == self.spec_num_vars(),
        ensures
            r.v() == mle_eval(self.table(), vals(point@)),
    {
        match self {
            MleRef::Dense(p) => p.evaluate(point),
            MleRef::Sparse(p) => p.evaluate(point),
        }
    }

    /// The dense evaluation table.
    pub fn to_dense(&self) -> (d: DenseMle)
        requires
            self.well_formed(),
        ensures
            d.well_formed(),
            d.table() == self.table(),
            d.num_vars == self.spec_num_vars(),
    {
        match self {
            MleRef::Dense(p) => (*p).clone(),
            MleRef::Sparse(p) => DenseMle::from_evaluations_vec(p.num_vars, p.to_evaluations()),
        }
    }
}

impl<'a> From<&'a DenseMle> for MleRef<'a> {
    fn from(p: &'a DenseMle) -> (r: Self)
        ensures
            r == MleRef::Dense(p),
    {
        MleRef::Dense(p)
    }
}

impl<'a> vstd::std_specs::convert::FromSpecImpl<&'a DenseMle> for MleRef<'a> {
    open spec fn obeys_from_spec() -> bool {
        true
    }

    open spec fn from_spec(p: &'a DenseMle) -> Self {
        MleRef::Dense(p)
    }
}

impl<'a> From<&'a SparseMle> for MleRef<'a> {
    fn from(p: &'a SparseMle) -> (r: Self)
        ensures
            r == MleRef::Sparse(p),
    {
        MleRef::Sparse(p)
    }
}

impl<'a> vstd::std_specs::convert::FromSpecImpl<&'a SparseMle> for MleRef<'a> {
    open spec fn obeys_from_spec() -> bool {
        true
    }

    open spec fn from_spec(p: &'a SparseMle) -> Self {
        MleRef::Sparse(p)
    }
}

/// A multilinear polynomial commitment scheme, transcript-aware so that its
/// evaluation proofs can be made non-interactive.
pub trait PolynomialCommitment {
    type ProverKey;
    type VerifierKey;
    type Commitment: CanonicalBytes;
    type CommitmentView;
    type Proof;
    type Error;

    /// What a commitment stands for.
    spec fn view_of(c: Self::Commitment) -> Self::CommitmentView;

    /// Keys can be made for polynomials of up to `max_num_vars` variables.
    spec fn setup_admits(max_num_vars: nat) -> bool;

    /// The prover key has the shape `setup` gives it.
    spec fn prover_key_valid(pk: &Self::ProverKey) -> bool;

    /// Committing to a polynomial of `num_vars` variables succeeds.
    spec fn commit_admits(pk: &Self::ProverKey, num_vars: nat) -> bool;

    /// The encoding of a commitment to a polynomial of `num_vars`
    /// variables fits in one transcript message.
    spec fn commitment_fits(pk: &Self::ProverKey, num_vars: nat) -> bool;

    /// The error `commit` returns for a polynomial of `num_vars` variables
    /// when it refuses it.
    spec fn commit_error(pk: &Self::ProverKey, num_vars: nat) -> Self::Error;

    /// `open` refuses a point whose length differs from the number of
    /// variables, rather than requiring the lengths to agree.
    spec fn checks_point_len() -> bool;

    /// The error `open` returns for a polynomial of `num_vars` variables and
    /// a point of `point_len` coordinates when it refuses them.
    spec fn open_error(pk: &Self::ProverKey, num_vars: nat, point_len: nat) -> Self::Error;

    /// `c` is the commitment to the table.
    spec fn commits_to(
        pk: &Self::ProverKey,
        table: Seq<int>,
        num_vars: nat,
        c: Self::CommitmentView,
    ) -> bool;

    /// Opening a polynomial of `num_vars` variables succeeds.
    spec fn open_admits(pk: &Self::ProverKey, num_vars: nat) -> bool;

    /// The transcript that opening leaves.
    spec fn open_log(
        pk: &Self::ProverKey,
        table: Seq<int>,
        num_vars: nat,
        point: Seq<int>,
        log: Seq<TranscriptOp>,
    ) -> Seq<TranscriptOp>;

    /// `proof` is an opening proof that `open` makes for the table at the
    /// point.
    spec fn is_honest_proof(
        pk: &Self::ProverKey,
        table: Seq<int>,
        num_vars: nat,
        point: Seq<int>,
        proof: Self::Proof,
    ) -> bool;

    /// The commitment, a point of `point_len` coordinates and the proof
    /// have a shape that verification handles.
    spec fn verify_admits(
        vk: &Self::VerifierKey,
        c: Self::CommitmentView,
        point_len: nat,
        proof: Self::Proof,
    ) -> bool;

    /// The verdict of verification and the transcript it leaves.
    spec fn verify_outcome(
        vk: &Self::VerifierKey,
        c: Self::CommitmentView,
        point: Seq<int>,
        value: int,
        proof: Self::Proof,
        log: Seq<TranscriptOp>,
    ) -> (Result<bool, Self::Error>, Seq<TranscriptOp>);

    /// Keys for polynomials of up to `max_num_vars` variables.
    fn setup(max_num_vars: usize, rng: &mut StdRng) -> (r: Result<
        (Self::ProverKey, Self::VerifierKey),
        Self::Error,
    >)
        requires
            Self::setup_admits(max_num_vars as nat),
        ensures
            r matches Ok(keys) ==> Self::prover_key_valid(&keys.0),
    ;

    /// A copy of a commitment.
    fn clone_commitment(c: &Self::Commitment) -> (d: Self::Commitment)
        ensures
            Self::view_of(d) == Self::view_of(*c),
            d.canonical_bytes() == c.canonical_bytes(),
    ;

    /// Commit to a polynomial; a sparse polynomial and its densification
    /// commit alike.
    fn commit(pk: &Self::ProverKey, poly: MleRef<'_>) -> (r: Result<Self::Commitment, Self::Error>)
        requires
            Self::prover_key_valid(pk),
            poly.well_formed(),
        ensures
            r is Ok <==> Self::commit_admits(pk, poly.spec_num_vars()),
            r matches Err(e) ==> e == Self::commit_error(pk, poly.spec_num_vars()),
            Self::commitment_fits(pk, poly.spec_num_vars()) ==> (r matches Ok(c)
                ==> c.canonical_bytes().len() <= u32::MAX),
            r matches Ok(c) ==> Self::commits_to(
                pk,
                poly.table(),
                poly.spec_num_vars(),
                Self::view_of(c),
            ),
    ;

    /// Prove `poly(point) = value`; returns the value and the proof.
    fn open(pk: &Self::ProverKey, poly: MleRef<'_>, point: &[Fe], transcript: &mut Transcript) -> (r:
        Result<(Fe, Self::Proof), Self::Error>)
        requires
            Self::prover_key_valid(pk),
            poly.well_formed(),
            point@.len() == poly.spec_num_vars() || Self::checks_point_len(),
        ensures
            r is Ok <==> Self::open_admits(pk, poly.spec_num_vars()) && point@.len()
                == poly.spec_num_vars(),
            r matches Err(e) ==> e == Self::open_error(pk, poly.spec_num_vars(), point@.len() as nat),
            r matches Ok(o) ==> o.0.v() == mle_eval(poly.table(), vals(point@)),
            r matches Ok(o) ==> Self::is_honest_proof(
                pk,
                poly.table(),
                poly.spec_num_vars(),
                vals(point@),
                o.1,
            ),
            final(transcript)@ == Self::open_log(
                pk,
                poly.table(),
                poly.spec_num_vars(),
                vals(point@),
                old(transcript)@,
            ),
    ;

    /// Check an evaluation proof against a commitment.
    fn verify(
        vk: &Self::VerifierKey,
        commitment: &Self::Commitment,
        point: &[Fe],
        value: Fe,
        proof: &Self::Proof,
        transcript: &mut Transcript,
    ) -> (r: Result<bool, Self::Error>)
        requires
            Self::verify_admits(vk, Self::view_of(*commitment), point@.len() as nat, *proof),
        ensures
            (r, final(transcript)@) == Self::verify_outcome(
                vk,
                Self::view_of(*commitment),
                vals(point@),
                value.v(),
                *proof,
                old(transcript)@,
            ),
    ;
}

/// The scheme is complete for the keys `pk` and `vk`: an honest opening of
/// a committed table at a point verifies with the table's value there, and
/// verification leaves the transcript as opening left it.
pub open spec fn openings_verify<P: PolynomialCommitment>(
    pk: &P::ProverKey,
    vk: &P::VerifierKey,
) -> bool {
    forall|table: Seq<int>, nv: nat, point: Seq<int>, c: P::CommitmentView, proof: P::Proof, log: Seq<TranscriptOp>|
        #![trigger P::is_honest_proof(pk, table, nv, point, proof), P::commits_to(pk, table, nv, c), P::open_log(pk, table, nv, point, log)]
        P::commits_to(pk, table, nv, c) && P::is_honest_proof(pk, table, nv, point, proof)
            ==> P::verify_outcome(vk, c, point, mle_eval(table, point), proof, log) == (
        Ok::<bool, P::Error>(true), P::open_log(pk, table, nv, point, log))
}

/// With the keys `pk` and `vk`, an honest opening proof of a committed
/// table at a point is refused with any value other than the table's value
/// there.
pub open spec fn wrong_values_refused<P: PolynomialCommitment>(
    pk: &P::ProverKey,
    vk: &P::VerifierKey,
) -> bool {
    forall|table: Seq<int>, nv: nat, point: Seq<int>, c: P::CommitmentView, proof: P::Proof, value: int, log: Seq<TranscriptOp>|
        #![trigger P::is_honest_proof(pk, table, nv, point, proof), P::commits_to(pk, table, nv, c), P::verify_outcome(vk, c, point, value, proof, log)]
        P::commits_to(pk, table, nv, c) && P::is_honest_proof(pk, table, nv, point, proof)
            && point.len() == nv && table.len() == pow2(nv) && crate::field::all_canonical(table)
            && crate::field::all_canonical(point) && value != mle_eval(table, point)
            ==> P::verify_outcome(vk, c, point, value, proof, log).0 == Ok::<bool, P::Error>(false)
}

/// The encoding of a dense polynomial: the evaluation vector (its length as
/// eight little-endian bytes, then each element), then `num_vars` as eight
/// little-endian bytes.
pub open spec fn dense_bytes(p: DenseMle) -> Seq<u8> {
    le_bytes(p.evaluations@.len() as int, 8) + concat_bytes(p.evaluations@) + le_bytes(
        p.num_vars as int,
        8,
    )
}

/// `ark_serialize` compressed serialization of an `ark_poly`
/// `DenseMultilinearExtension`: the evaluation vector, then the number of
/// variables.
#[verifier::external_body]
fn ark_dense_serialize(p: &DenseMle) -> (b: Vec<u8>)
    ensures
        b@ == dense_bytes(*p),
{
    let f = |e: &Fe| Fr::from_bigint(BigInt::new([e.l0, e.l1, e.l2, e.l3])).unwrap();
    let poly = DenseMultilinearExtension { evaluations: p.evaluations.iter().map(f).collect(), num_vars: p.num_vars };
    let mut buf = Vec::new();
    poly.serialize_compressed(&mut buf).unwrap();
    buf
}

impl CanonicalBytes for DenseMle {
    open spec fn canonical_bytes(&self) -> Seq<u8> {
        dense_bytes(*self)
    }

    fn serialize_compressed(&self) -> (b: Vec<u8>) {
        ark_dense_serialize(self)
    }
}

} // verus!

verus! {

/// A non-cryptographic scheme whose commitment is the polynomial itself;
/// for exercising the protocols, never for use outside tests.
pub struct MockPcs;

impl PolynomialCommitment for MockPcs {
    type ProverKey = ();
    type VerifierKey = ();
    type Commitment = DenseMle;
    type CommitmentView = (Seq<Fe>, usize);
    type Proof = ();
    type Error = Infallible;

    open spec fn view_of(c: DenseMle) -> (Seq<Fe>, usize) {
        (c.evaluations@, c.num_vars)
    }

    open spec fn setup_admits(max_num_vars: nat) -> bool {
        true
    }

    open spec fn prover_key_valid(pk: &()) -> bool {
        true
    }

    open spec fn commit_admits(pk: &(), num_vars: nat) -> bool {
        true
    }

    open spec fn commit_error(pk: &(), num_vars: nat) -> Infallible {
        vstd::pervasive::arbitrary()
    }

    open spec fn checks_point_len() -> bool {
        false
    }

    open spec fn open_error(pk: &(), num_vars: nat, point_len: nat) -> Infallible {
        vstd::pervasive::arbitrary()
    }

    open spec fn commitment_fits(pk: &(), num_vars: nat) -> bool {
        16 + 32 * pow2(num_vars) <= u32::MAX
    }

    open spec fn commits_to(pk: &(), table: Seq<int>, num_vars: nat, c: (Seq<Fe>, usize)) -> bool {
        vals(c.0) == table && c.1 == num_vars
    }

    open spec fn open_admits(pk: &(), num_vars: nat) -> bool {
        true
    }

    open spec fn open_log(
        pk: &(),
        table: Seq<int>,
        num_vars: nat,
        point: Seq<int>,
        log: Seq<TranscriptOp>,
    ) -> Seq<TranscriptOp> {
        log
    }

    open spec fn is_honest_proof(
        pk: &(),
        table: Seq<int>,
        num_vars: nat,
        point: Seq<int>,
        proof: (),
    ) -> bool {
        true
    }

    open spec fn verify_admits(vk: &(), c: (Seq<Fe>, usize), point_len: nat, proof: ()) -> bool {
        c.0.len() == pow2(c.1 as nat) && c.1 < usize::BITS && c.1 == point_len
    }

    open spec fn verify_outcome(
        vk: &(),
        c: (Seq<Fe>, usize),
        point: Seq<int>,
        value: int,
        proof: (),
        log: Seq<TranscriptOp>,
    ) -> (Result<bool, Infallible>, Seq<TranscriptOp>) {
        (Ok(mle_eval(vals(c.0), point) == value), log)
    }

    fn setup(max_num_vars: usize, rng: &mut StdRng) -> (r: Result<((), ()), Infallible>)
        ensures
            r == Ok::<((), ()), Infallible>(((), ())),
    {
        Ok(((), ()))
    }

    fn clone_commitment(c: &DenseMle) -> (d: DenseMle) {
        c.clone()
    }

    fn commit(pk: &(), poly: MleRef<'_>) -> (r: Result<DenseMle, Infallible>) {
        let d = poly.to_dense();
        proof {
            assert forall|i: int| 0 <= i < d.evaluations@.len() implies (
            #[trigger] d.evaluations@[i]).canonical_bytes().len() == 32 by {}
            crate::transcript::lemma_concat_bytes_len(d.evaluations@, 32);
        }
        Ok(d)
    }

    fn open(pk: &(), poly: MleRef<'_>, point: &[Fe], transcript: &mut Transcript) -> (r: Result<
        (Fe, ()),
        Infallible,
    >) {
        Ok((poly.evaluate(point), ()))
    }

    fn verify(
        vk: &(),
        commitment: &DenseMle,
        point: &[Fe],
        value: Fe,
        proof: &(),
        transcript: &mut Transcript,
    ) -> (r: Result<bool, Infallible>) {
        Ok(commitment.evaluate(point) == value)
    }
}

/// With the mock scheme, the commitment to a polynomial accepts exactly
/// the polynomial's value at a point: an honest opening verifies, any other
/// value is refused.
pub proof fn lemma_mock_pcs_round_trip(
    table: Seq<int>,
    num_vars: nat,
    c: (Seq<Fe>, usize),
    point: Seq<int>,
    value: int,
    log: Seq<TranscriptOp>,
)
    requires
        MockPcs::commits_to(&(), table, num_vars, c),
    ensures
        MockPcs::verify_outcome(&(), c, point, value, (), log).0 == Ok::<bool, Infallible>(
            value == mle_eval(table, point),
        ),
{
}

/// The mock scheme is complete.
pub proof fn lemma_mock_openings_verify()
    ensures
        openings_verify::<MockPcs>(&(), &()),
{
}

/// The mock scheme refuses every wrong value.
pub proof fn lemma_mock_wrong_values_refused()
    ensures
        wrong_values_refused::<MockPcs>(&(), &()),
{
}

} // verus!
