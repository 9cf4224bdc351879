pub mod definitions;
pub mod helper;
pub mod signing;
pub mod verify;

use vstd::prelude::*;
use vstd::arithmetic::power2::{pow2, lemma2_to64, lemma_pow2_pos, lemma_pow2_strictly_increases};
use crate::lm_ots::LmotsAlgorithmType;
use crate::lms::definitions::{LmsAlgorithmType, LmsPrivateKey, LmsPublicKey, PrivateKeyModel};
use crate::lms::helper::{MutableExpandedAuxData, aux_ok_opt, get_tree_element, key_node, lemma_subtree_root};
use crate::lms::verify::public_key_of;

verus! {

/// A seed and a tree identifier `I`, from which a whole tree is derived.
pub struct SeedAndI {
    pub seed: Vec<u8>,
    pub i: Vec<u8>,
}

/// The algorithms of one tree.
#[derive(Debug, Clone, Copy, PartialEq, Eq, Structural)]
pub struct HssParameter {
    pub lmots_parameter: LmotsAlgorithmType,
    pub lms_parameter: LmsAlgorithmType,
}

impl HssParameter {
    pub fn new(lmots_parameter: LmotsAlgorithmType, lms_parameter: LmsAlgorithmType) -> (r: Self)
        ensures
            r.lmots_parameter == lmots_parameter,
            r.lms_parameter == lms_parameter,
    {
        HssParameter { lmots_parameter, lms_parameter }
    }

    pub open spec fn is_usable(&self) -> bool {
        self.lmots_parameter.is_usable() && self.lms_parameter.is_usable()
    }

    pub fn get_lmots_parameter(&self) -> (r: LmotsAlgorithmType)
        ensures
            r == self.lmots_parameter,
    {
        self.lmots_parameter
    }

    pub fn get_lms_parameter(&self) -> (r: LmsAlgorithmType)
        ensures
            r == self.lms_parameter,
    {
        self.lms_parameter
    }
}

/// A private key and the public key of the same tree.
pub struct LmsKeyPair {
    pub private_key: LmsPrivateKey,
    pub public_key: LmsPublicKey,
}

/// The key that `seed` and `parameter` derive, with its first leaf next.
pub open spec fn derived_key(seed: &SeedAndI, parameter: &HssParameter) -> PrivateKeyModel {
    (parameter.lms_parameter, parameter.lmots_parameter, seed.i@, seed.seed@, 0u32)
}

/// The key pair that `seed` and `parameter` derive.
pub open spec fn derived_pair(seed: &SeedAndI, parameter: &HssParameter, r: &LmsKeyPair) -> bool {
    &&& r.private_key@ == derived_key(seed, parameter)
    &&& r.private_key.wf()
    &&& r.public_key@ == public_key_of(derived_key(seed, parameter))
}

/// Derives a key pair from `seed`, filling `aux_data` with the upper tree nodes
/// it has room for.
pub fn generate_key_pair_with_seed_and_aux(seed: &SeedAndI, parameter: &HssParameter, aux_data: &mut Option<MutableExpandedAuxData>) -> (r: LmsKeyPair)
    requires
        parameter.is_usable(),
        seed.seed@.len() == 32,
        seed.i@.len() == 16,
        aux_ok_opt(*old(aux_data), derived_key(seed, parameter)),
    ensures
        derived_pair(seed, parameter, &r),
        aux_ok_opt(*final(aux_data), derived_key(seed, parameter)),
        (*final(aux_data)) is Some == (*old(aux_data)) is Some,
        (*final(aux_data)) matches Some(a) ==> {
            &&& (*old(aux_data)) matches Some(b) && a.levels == b.levels && a.nodes@.len() == b.nodes@.len()
            &&& forall|j: int| 0 <= j < a.nodes@.len() && j + 1 < 2 * pow2(parameter.lms_parameter.h())
                ==> (#[trigger] a.nodes@[j])@ == key_node(derived_key(seed, parameter), (j + 1) as nat)
        },
{
    let lmots_parameter = parameter.get_lmots_parameter();
    let lms_parameter = parameter.get_lms_parameter();
    let s = crate::codec::subvec(seed.seed.as_slice(), 0, 32);
    let id = crate::codec::subvec(seed.i.as_slice(), 0, 16);
    let id2 = crate::codec::subvec(seed.i.as_slice(), 0, 16);
    assert(s@ =~= seed.seed@);
    assert(id@ =~= seed.i@);
    assert(id2@ =~= seed.i@);
    let private_key = LmsPrivateKey::new(lms_parameter, lmots_parameter, s, id);
    proof {
        lemma2_to64();
        lemma_pow2_pos(lms_parameter.h());
    }
    let root = get_tree_element(1, &private_key, aux_data);
    proof {
        if (*aux_data) is Some {
            let a = (*aux_data)->Some_0;
            assert forall|j: int| 0 <= j < a.nodes@.len() && j + 1 < 2 * pow2(parameter.lms_parameter.h())
                implies (#[trigger] a.nodes@[j])@ == key_node(derived_key(seed, parameter), (j + 1) as nat) by {
                lemma_subtree_root((j + 1) as nat);
            }
        }
    }
    let public_key = LmsPublicKey::new(root, lmots_parameter, lms_parameter, id2);
    LmsKeyPair { private_key, public_key }
}

/// Derives a key pair from `seed`.
pub fn generate_key_pair_with_seed(seed: &SeedAndI, parameter: &HssParameter) -> (r: LmsKeyPair)
    requires
        parameter.is_usable(),
        seed.seed@.len() == 32,
        seed.i@.len() == 16,
    ensures
        derived_pair(seed, parameter, &r),
{
    let lmots_parameter = parameter.get_lmots_parameter();
    let lms_parameter = parameter.get_lms_parameter();
    let s = crate::codec::subvec(seed.seed.as_slice(), 0, 32);
    let id = crate::codec::subvec(seed.i.as_slice(), 0, 16);
    let id2 = crate::codec::subvec(seed.i.as_slice(), 0, 16);
    assert(s@ =~= seed.seed@);
    assert(id@ =~= seed.i@);
    assert(id2@ =~= seed.i@);
    let private_key = LmsPrivateKey::new(lms_parameter, lmots_parameter, s, id);
    proof {
        lemma2_to64();
        lemma_pow2_pos(lms_parameter.h());
    }
    let mut none: Option<MutableExpandedAuxData> = None;
    let root = get_tree_element(1, &private_key, &mut none);
    let public_key = LmsPublicKey::new(root, lmots_parameter, lms_parameter, id2);
    LmsKeyPair { private_key, public_key }
}

/// Relies on getrandom::getrandom: on success it has filled the whole buffer,
/// whose length it keeps.
#[verifier::external_body]
fn random_bytes(n: usize) -> (r: Option<Vec<u8>>)
    ensures
        r matches Some(v) ==> v@.len() == n,
{
    let mut buf = vec![0u8; n];
    match getrandom::getrandom(&mut buf) {
        Ok(()) => Some(buf),
        Err(_) => None,
    }
}

/// A fresh random seed and tree identifier; `None` when the system's random
/// source fails.
pub fn random_seed_and_i() -> (r: Option<SeedAndI>)
    ensures
        r matches Some(s) ==> s.seed@.len() == 32 && s.i@.len() == 16,
{
    let bytes = match random_bytes(48) {
        Some(b) => b,
        None => return None,
    };
    Some(SeedAndI { seed: crate::codec::subvec(bytes.as_slice(), 0, 32), i: crate::codec::subvec(bytes.as_slice(), 32, 16) })
}

/// Generates a key pair from a fresh random seed and identifier; `None` when the
/// system's random source fails.
pub fn generate_key_pair(parameter: &HssParameter) -> (r: Option<LmsKeyPair>)
    requires
        parameter.is_usable(),
    ensures
        r matches Some(kp) ==> exists|s: SeedAndI| s.seed@.len() == 32 && s.i@.len() == 16 && #[trigger] derived_pair(&s, parameter, &kp),
{
    let seed = match random_seed_and_i() {
        Some(s) => s,
        None => return None,
    };
    let kp = generate_key_pair_with_seed(&seed, parameter);
    Some(kp)
}

} // verus!
