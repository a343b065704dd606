//! The KZG backend of the vector-commitment interface, over BLS12-381.
//!
//! A digest vector is interpreted as the evaluations of a polynomial over
//! the multiplicative subgroup of order 256 of the scalar field (slot `i`
//! at domain point `w^i`); the commitment is the KZG commitment to that
//! polynomial, and an opening at slot `i` is a KZG evaluation proof at
//! `w^i`. All of that arithmetic lives in the arkworks crates and is
//! reached through the trusted wrappers below.
//!
//! `KzgVc` carries, besides the arkworks prover and verifier keys, the
//! canonical serialization of those keys in `srs`. The serialized form
//! pins the keys down byte-for-byte, so commitment and verification
//! results are functions of `(srs, inputs)` alone; the two uninterpreted
//! spec functions name exactly those two functions, and the wrappers'
//! contracts are stated over them. `KzgVc` values are built only by
//! `setup`, which keeps `srs` and the keys consistent.

use vstd::prelude::*;

use ark_bls12_381::{Bls12_381, Fr};
use ark_ff::PrimeField;
use ark_poly::univariate::DensePolynomial;
use ark_poly::{DenseUVPolynomial, EvaluationDomain, Radix2EvaluationDomain};
use ark_poly_commit::kzg10::{Commitment, Powers, Proof, VerifierKey, KZG10};
use ark_poly_commit::PCCommitmentState;
use ark_serialize::{CanonicalDeserialize, CanonicalSerialize};

use crate::vc::{VectorCommitment, ARITY};

verus! {

#[verifier::external_type_specification]
#[verifier::external_body]
pub struct ExStdRng(rand::rngs::StdRng);

/// The arkworks key material, opaque to the verifier. Verus refuses a
/// declaration of `Powers` and `VerifierKey` themselves (their generics
/// are bounded by traits of the outside crate), so the two are held
/// together behind this one hidden struct; the serialized form in
/// `KzgVc::srs` is what the contracts speak about.
#[verifier::external_body]
pub(crate) struct KzgParams {
    powers: Powers<'static, Bls12_381>,
    vk: VerifierKey<Bls12_381>,
}

/// The trusted setup failed or its output could not be serialized.
#[derive(Debug, Clone, PartialEq, Eq)]
pub struct SetupError;

/// The commitment bytes that the KZG scheme with the serialized keys `srs`
/// assigns to a digest vector: deserialize each digest (little-endian,
/// reduced modulo the scalar field), interpolate over the fixed domain,
/// commit, serialize compressed. A function of its arguments alone.
pub uninterp spec fn kzg_commit_of(srs: Seq<u8>, children: Seq<Seq<u8>>) -> Seq<u8>;

/// The verdict of the KZG opening check with the serialized keys `srs` on
/// `(commitment, index, value_digest, opening)`, all as bytes: deserialize
/// (rejecting malformed points), pair, compare. A function of its
/// arguments alone.
pub uninterp spec fn kzg_verify_of(
    srs: Seq<u8>,
    commitment: Seq<u8>,
    index: int,
    value_digest: Seq<u8>,
    opening: Seq<u8>,
) -> bool;

/// The KZG vector commitment: prover key, verifier key, and their
/// canonical serialization.
pub struct KzgVc {
    params: KzgParams,
    srs: Vec<u8>,
}

impl KzgVc {
    /// Runs the KZG trusted setup for degree < 256 and trims it to a
    /// prover key of 256 powers and a verifier key.
    ///
    /// Relies on `KZG10::setup` (random structured reference string; with
    /// `max_degree == 255 >= 1` it does not fail). The hiding powers are
    /// left empty: commitments and openings are made without hiding and
    /// never read them. Nothing is promised of the result; it depends on
    /// the randomness drawn.
    #[verifier::external_body]
    fn setup_params(rng: &mut rand::rngs::StdRng) -> Result<KzgParams, SetupError> {
        let srs = KZG10::<Bls12_381, DensePolynomial<Fr>>::setup(ARITY - 1, false, rng)
            .map_err(|_| SetupError)?;
        let powers = Powers {
            powers_of_g: std::borrow::Cow::Owned(srs.powers_of_g[..ARITY].to_vec()),
            powers_of_gamma_g: std::borrow::Cow::Owned(Vec::new()),
        };
        let vk = VerifierKey {
            g: srs.powers_of_g[0],
            gamma_g: srs.powers_of_gamma_g[&0],
            h: srs.h,
            beta_h: srs.beta_h,
            prepared_h: srs.prepared_h.clone(),
            prepared_beta_h: srs.prepared_beta_h.clone(),
        };
        Ok(KzgParams { powers, vk })
    }

    /// Relies on `CanonicalSerialize` for `Powers` and `VerifierKey`: the
    /// canonical compressed encoding of the keys (writing to a `Vec` does
    /// not fail). Nothing is promised of the bytes.
    #[verifier::external_body]
    fn serialize_params(params: &KzgParams) -> Result<Vec<u8>, SetupError> {
        let mut bytes = Vec::new();
        params.powers.serialize_compressed(&mut bytes).map_err(|_| SetupError)?;
        params.vk.serialize_compressed(&mut bytes).map_err(|_| SetupError)?;
        Ok(bytes)
    }

    /// Generates the scheme's keys from the given randomness, keeping
    /// their serialized form alongside. A failure of the underlying setup
    /// is surfaced as `SetupError`.
    pub fn setup(rng: &mut rand::rngs::StdRng) -> Result<KzgVc, SetupError> {
        let params = match Self::setup_params(rng) {
            Ok(p) => p,
            Err(e) => return Err(e),
        };
        let srs = match Self::serialize_params(&params) {
            Ok(b) => b,
            Err(e) => return Err(e),
        };
        Ok(KzgVc { params, srs })
    }

    /// Relies on `Radix2EvaluationDomain::new(256)` (the fixed domain;
    /// never fails over this field), `EvaluationDomain::ifft`,
    /// `KZG10::commit` without hiding (deterministic; the interpolated
    /// polynomial has degree < 256, within the prover key) and compressed
    /// serialization. The result is the function of `(self.srs, children)`
    /// named `kzg_commit_of`.
    #[verifier::external_body]
    fn commit_raw(&self, children: &Vec<Vec<u8>>) -> (commitment: Vec<u8>)
        requires
            children@.len() == ARITY,
        ensures
            commitment@ == kzg_commit_of(self.srs@, children.deep_view()),
    {
        let domain = Radix2EvaluationDomain::<Fr>::new(ARITY).expect("domain");
        let evals: Vec<Fr> =
            children.iter().map(|b| Fr::from_le_bytes_mod_order(b)).collect();
        let poly = DensePolynomial::from_coefficients_vec(domain.ifft(&evals));
        let (comm, _) = KZG10::<Bls12_381, DensePolynomial<Fr>>::commit(
            &self.params.powers, &poly, None, None,
        ).expect("commitment");
        let mut bytes = Vec::new();
        comm.serialize_compressed(&mut bytes).expect("serialize commitment");
        bytes
    }

    /// Relies on `KZG10::open` without hiding (deterministic witness
    /// commitment; the witness degree is within the prover key). The
    /// returned opening verifies, under `kzg_verify_of` with the same
    /// keys, against the commitment of the same digest vector at the same
    /// index and the digest stored there: this is KZG completeness for the
    /// keys produced together by one trusted setup.
    #[verifier::external_body]
    fn open_raw(&self, children: &Vec<Vec<u8>>, index: usize) -> (opening: Vec<u8>)
        requires
            children@.len() == ARITY,
            index < ARITY,
        ensures
            kzg_verify_of(
                self.srs@,
                kzg_commit_of(self.srs@, children.deep_view()),
                index as int,
                children.deep_view()[index as int],
                opening@,
            ),
    {
        let domain = Radix2EvaluationDomain::<Fr>::new(ARITY).expect("domain");
        let evals: Vec<Fr> =
            children.iter().map(|b| Fr::from_le_bytes_mod_order(b)).collect();
        let poly = DensePolynomial::from_coefficients_vec(domain.ifft(&evals));
        let point = domain.element(index);
        let blind = ark_poly_commit::kzg10::Randomness::<Fr, DensePolynomial<Fr>>::empty();
        let pf = KZG10::<Bls12_381, DensePolynomial<Fr>>::open(&self.params.powers, &poly, point, &blind)
            .expect("open");
        let mut bytes = Vec::new();
        pf.serialize_compressed(&mut bytes).expect("serialize opening");
        bytes
    }

    /// Relies on `CanonicalDeserialize` for `Commitment` and `Proof`
    /// (malformed bytes are rejected, and the check then fails) and on
    /// `KZG10::check` (a pairing equation; it returns its verdict and does
    /// not fail). The verdict is the function of the five byte inputs
    /// named `kzg_verify_of`.
    #[verifier::external_body]
    fn verify_raw(
        &self,
        commitment: &Vec<u8>,
        index: usize,
        value_digest: &Vec<u8>,
        opening: &Vec<u8>,
    ) -> (ok: bool)
        requires
            index < ARITY,
        ensures
            ok == kzg_verify_of(self.srs@, commitment@, index as int, value_digest@, opening@),
    {
        let comm = match Commitment::<Bls12_381>::deserialize_compressed(commitment.as_slice()) {
            Ok(c) => c,
            Err(_) => return false,
        };
        let pf = match Proof::<Bls12_381>::deserialize_compressed(opening.as_slice()) {
            Ok(p) => p,
            Err(_) => return false,
        };
        let value = Fr::from_le_bytes_mod_order(value_digest);
        let domain = Radix2EvaluationDomain::<Fr>::new(ARITY).expect("domain");
        let point = domain.element(index);
        KZG10::<Bls12_381, DensePolynomial<Fr>>::check(&self.params.vk, &comm, point, value, &pf)
            .unwrap_or(false)
    }
}

impl VectorCommitment for KzgVc {
    closed spec fn commit_spec(&self, children: Seq<Seq<u8>>) -> Seq<u8> {
        kzg_commit_of(self.srs@, children)
    }

    closed spec fn verify_spec(
        &self,
        commitment: Seq<u8>,
        index: int,
        value_digest: Seq<u8>,
        opening: Seq<u8>,
    ) -> bool {
        kzg_verify_of(self.srs@, commitment, index, value_digest, opening)
    }

    fn commit_from_children(&self, children: &Vec<Vec<u8>>) -> (commitment: Vec<u8>) {
        self.commit_raw(children)
    }

    fn open_at(&self, children: &Vec<Vec<u8>>, index: usize) -> (r: (Vec<u8>, Vec<u8>)) {
        let value = children[index].clone();
        let opening = self.open_raw(children, index);
        proof {
            assert(value@ == children.deep_view()[index as int]);
        }
        (value, opening)
    }

    fn verify_at(
        &self,
        commitment: &Vec<u8>,
        index: usize,
        value_digest: &Vec<u8>,
        opening: &Vec<u8>,
    ) -> (ok: bool) {
        self.verify_raw(commitment, index, value_digest, opening)
    }
}

} // verus!
