use vstd::prelude::*;
use vstd::arithmetic::power2::{pow2, lemma_pow2_unfold, lemma_pow2_pos, lemma_pow2_strictly_increases};
use crate::codec::{u32_be, u32str, blocks};
use crate::hasher::append;
use crate::lm_ots::{ots_x, ots_signature, ots_private_bytes, generate_private_key, lmots_sign, derive_x};
use crate::lms::definitions::{LmsPrivateKey, PrivateKeyModel, LmsError};
use crate::lms::helper::{key_node, aux_ok, get_tree_element_signing, MutableExpandedAuxData};

verus! {

/// `n` halved `i` times: the ancestor of node `n` that is `i` levels up.
pub open spec fn anc(n: nat, i: nat) -> nat
    decreases i,
{
    if i == 0 {
        n
    } else {
        anc(n, (i - 1) as nat) / 2
    }
}

/// The other child of the parent of node `n`.
pub open spec fn sibling(n: nat) -> nat {
    if n % 2 == 0 {
        n + 1
    } else {
        (n - 1) as nat
    }
}

/// The authentication path of leaf `q`: the sibling of each of its ancestors,
/// from the leaf up.
pub open spec fn path_fn(k: PrivateKeyModel, q: u32) -> spec_fn(int) -> Seq<u8> {
    |l: int| key_node(k, sibling(anc(pow2(k.0.h()) + q as nat, l as nat)))
}

/// The randomizer that the one-time signature of leaf `q` uses.
pub open spec fn ots_c(k: PrivateKeyModel, q: u32) -> Seq<u8> {
    ots_x(k.2, q, 0xfffd, k.3)
}

/// The LMS signature of `msg` by leaf `q` of the tree of `k`:
/// `q`, the one-time signature, the lms typecode, the authentication path.
pub open spec fn lms_signature(k: PrivateKeyModel, q: u32, msg: Seq<u8>) -> Seq<u8> {
    u32_be(q) + ots_signature(k.2, q, k.1, ots_private_bytes(k.2, q, k.1, k.3), ots_c(k, q), msg) + u32_be(k.0.code())
        + blocks(path_fn(k, q), k.0.h())
}

/// An ancestor of leaf `pow2(h) + q`, `i` levels up, lies on level `h - i`.
pub proof fn lemma_anc_range(h: nat, q: nat, i: nat)
    requires
        q < pow2(h),
        i <= h,
    ensures
        pow2((h - i) as nat) <= anc(pow2(h) + q, i) < pow2((h - i + 1) as nat),
    decreases i,
{
    lemma_pow2_unfold((h + 1) as nat);
    if i > 0 {
        lemma_anc_range(h, q, (i - 1) as nat);
        lemma_pow2_unfold((h - i + 1) as nat);
        lemma_pow2_unfold((h - i + 2) as nat);
    }
}

/// The LMS signature of `message` by leaf `q` of `private_key`. With an aux
/// cache that holds only nodes of this tree, or none, it is `lms_signature`.
pub fn lms_sign_leaf(message: &[u8], private_key: &LmsPrivateKey, q: u32, aux_data: Option<&MutableExpandedAuxData>) -> (r: Vec<u8>)
    requires
        private_key.wf(),
        (q as nat) < pow2(private_key.lms_type.h()),
    ensures
        (aux_data matches Some(a) ==> aux_ok(*a, private_key@)) ==> r@ == lms_signature(private_key@, q, message@),
{
    let ghost k = private_key@;
    let par = private_key.lms_type.get_parameter();
    let leaves = par.number_of_lm_ots_keys();
    let h = par.h;
    let ots = generate_private_key(q, &private_key.I, &private_key.seed, private_key.lm_ots_type);
    let c = derive_x(&private_key.I, q, 0xfffd, &private_key.seed);
    let ots_sig = lmots_sign(&ots, &c, message);
    let mut sig = u32str(q);
    append(&mut sig, ots_sig.as_slice());
    let tb = u32str(private_key.lms_type.typecode());
    append(&mut sig, tb.as_slice());
    let ghost ok = aux_data matches Some(a) ==> aux_ok(*a, k);
    let mut path: Vec<u8> = Vec::new();
    let mut n: usize = leaves + q as usize;
    let mut l: u8 = 0;
    proof {
        lemma_pow2_unfold((h + 1) as nat);
    }
    while l < h
        invariant
            private_key@ == k,
            private_key.wf(),
            l <= h,
            h as nat == k.0.h(),
            leaves as nat == pow2(h as nat),
            leaves <= 0x200_0000,
            (q as nat) < pow2(h as nat),
            n as nat == anc(pow2(h as nat) + q as nat, l as nat),
            ok == (aux_data matches Some(a) ==> aux_ok(*a, k)),
            ok ==> path@ == blocks(path_fn(k, q), l as nat),
        decreases h - l,
    {
        proof {
            lemma_anc_range(h as nat, q as nat, l as nat);
            lemma_pow2_unfold((h - l) as nat);
            lemma_pow2_unfold((h - l + 1) as nat);
            lemma_pow2_pos((h - l - 1) as nat);
            if l > 0 {
                lemma_pow2_strictly_increases((h - l + 1) as nat, (h + 1) as nat);
            }
            lemma_pow2_unfold((h + 1) as nat);
        }
        let sib = if n % 2 == 0 {
            n + 1
        } else {
            n - 1
        };
        let e = get_tree_element_signing(sib, private_key, aux_data);
        append(&mut path, e.as_slice());
        n = n / 2;
        l = l + 1;
    }
    append(&mut sig, path.as_slice());
    sig
}

/// Signs `message` with the next unused leaf of `private_key` and marks that leaf
/// used. With an aux cache that holds only nodes of this tree, or none, the
/// signature is `lms_signature` of the leaf.
pub fn lms_sign(message: &[u8], private_key: &mut LmsPrivateKey, aux_data: Option<&MutableExpandedAuxData>) -> (r: Result<Vec<u8>, LmsError>)
    requires
        old(private_key).wf(),
    ensures
        final(private_key).wf(),
        (old(private_key).q as nat) >= pow2(old(private_key).lms_type.h()) ==> r == Err::<Vec<u8>, LmsError>(LmsError::KeyExhausted)
            && final(private_key)@ == old(private_key)@,
        (old(private_key).q as nat) < pow2(old(private_key).lms_type.h()) ==> {
            &&& final(private_key)@ == (old(private_key).lms_type, old(private_key).lm_ots_type, old(private_key).I@, old(private_key).seed@, (old(private_key).q + 1) as u32)
            &&& r is Ok
            &&& (aux_data matches Some(a) ==> aux_ok(*a, old(private_key)@)) ==> r == Ok::<Vec<u8>, LmsError>(r->Ok_0)
                && r->Ok_0@ == lms_signature(old(private_key)@, old(private_key).q, message@)
        },
{
    let leaves = private_key.lms_type.get_parameter().number_of_lm_ots_keys();
    let q = private_key.q;
    if q as usize >= leaves {
        return Err(LmsError::KeyExhausted);
    }
    let sig = lms_sign_leaf(message, private_key, q, aux_data);
    private_key.q = q + 1;
    Ok(sig)
}

} // verus!
