use vstd::prelude::*;
use vstd::arithmetic::power2::{pow2, lemma_pow2_unfold, lemma2_to64, lemma_pow2_strictly_increases};
use crate::codec::{u32_be, be_value, str32u, subvec, block, blocks, lemma_blocks, lemma_u32_be_round_trip};
use crate::lm_ots::{ots_candidate, ots_signature_len, ots_private_bytes, ots_public_k, ots_signature,
    lmots_candidate, lemma_ots_sign_then_candidate};
use crate::lms::definitions::{LmsPublicKey, PrivateKeyModel, PublicKeyModel, parse_public_key, public_key_bytes,
    private_key_wf, lemma_public_key_round_trip, lemma_type_codes, parse_private_key, private_key_bytes,
    lemma_private_key_round_trip};
use crate::lms::helper::{key_node, leaf_hash, inner_hash, node_hash};
use crate::lms::signing::{anc, sibling, path_fn, ots_c, lms_signature, lemma_anc_range};

verus! {

/// Climbs from node `n` with value `v` to the root, taking the sibling of the
/// node on level `i` from `path`.
pub open spec fn root_from_path(id: Seq<u8>, n: nat, v: Seq<u8>, path: Seq<u8>, i: nat, h: nat) -> Seq<u8>
    decreases h - i,
{
    if i >= h {
        v
    } else {
        let lr = if n % 2 == 1 {
            block(path, i as int) + v
        } else {
            v + block(path, i as int)
        };
        root_from_path(id, n / 2, inner_hash(id, n / 2, lr), path, i + 1, h)
    }
}

/// Whether `sig` is a valid LMS signature of `msg` under the public key `pk`.
pub open spec fn lms_verify_spec(msg: Seq<u8>, sig: Seq<u8>, pk: Seq<u8>) -> bool {
    match parse_public_key(pk) {
        None => false,
        Some(k) => {
            let lt = k.0;
            let ot = k.1;
            let h = lt.h();
            let ol = ots_signature_len(ot) as int;
            let q = be_value(sig.subrange(0, 4)) as u32;
            let n = pow2(h) + q as nat;
            &&& sig.len() == 8 + ol + 32 * h
            &&& be_value(sig.subrange(4, 8)) == ot.code()
            &&& be_value(sig.subrange(4 + ol, 8 + ol)) == lt.code()
            &&& be_value(sig.subrange(0, 4)) < pow2(h)
            &&& root_from_path(k.2, n, leaf_hash(k.2, n, ots_candidate(k.2, q, ot, sig.subrange(4, 4 + ol), msg)),
                sig.subrange(8 + ol, sig.len() as int), 0, h) == k.3
        },
    }
}

/// The public key of the tree of `k`.
pub open spec fn public_key_of(k: PrivateKeyModel) -> PublicKeyModel {
    (k.0, k.1, k.2, key_node(k, 1))
}

#[verifier::rlimit(30)]
/// Checks an LMS signature of `message` against a serialized public key.
pub fn lms_verify(message: &[u8], signature: &[u8], public_key: &[u8]) -> (r: bool)
    ensures
        r == lms_verify_spec(message@, signature@, public_key@),
{
    let pk_bytes = subvec(public_key, 0, public_key.len());
    assert(pk_bytes@ =~= public_key@);
    let pk = match LmsPublicKey::from_binary_representation(pk_bytes) {
        Some(k) => k,
        None => return false,
    };
    let par = pk.lms_type.get_parameter();
    let h = par.h;
    let leaves = par.number_of_lm_ots_keys();
    let p = pk.lm_ots_type.get_parameter().p;
    let ol: usize = 36 + 32 * p as usize;
    assert(p <= 265);
    if signature.len() != 8 + ol + 32 * h as usize {
        return false;
    }
    if str32u(signature, 4) != pk.lm_ots_type.typecode() {
        return false;
    }
    if str32u(signature, 4 + ol) != pk.lms_type.typecode() {
        return false;
    }
    let q = str32u(signature, 0);
    if q as usize >= leaves {
        return false;
    }
    let ots_sig = subvec(signature, 4, ol);
    let k = lmots_candidate(&pk.I, q, pk.lm_ots_type, ots_sig.as_slice(), message);
    let mut n: usize = leaves + q as usize;
    let empty: Vec<u8> = Vec::new();
    let mut tmp = node_hash(&pk.I, n as u32, 0x82, k.as_slice(), empty.as_slice());
    assert(k@ + empty@ =~= k@);
    assert(seq![0x82u8, 0x82u8] + k@ =~= seq![0x82u8, 0x82u8] + k@);
    let ghost id = pk.I@;
    let ghost path = signature@.subrange(8 + ol, signature@.len() as int);
    let ghost n0 = n as nat;
    let ghost v0 = tmp@;
    let mut l: u8 = 0;
    proof {
        lemma2_to64();
    }
    while l < h
        invariant
            l <= h,
            h <= 25,
            leaves as nat == pow2(h as nat),
            leaves <= 0x200_0000,
            (q as nat) < pow2(h as nat),
            n as nat == anc(n0, l as nat),
            n0 == pow2(h as nat) + q as nat,
            signature@.len() == 8 + ol + 32 * h,
            ol <= 36 + 32 * 265,
            id == pk.I@,
            path == signature@.subrange(8 + ol, signature@.len() as int),
            root_from_path(id, n as nat, tmp@, path, l as nat, h as nat) == root_from_path(id, n0, v0, path, 0, h as nat),
        decreases h - l,
    {
        proof {
            lemma_anc_range(h as nat, q as nat, l as nat);
            lemma_pow2_unfold((h - l) as nat);
        }
        let start: usize = 8 + ol + 32 * l as usize;
        let sib = subvec(signature, start, 32);
        assert(sib@ =~= block(path, l as int));
        let parent = n / 2;
        let ghost lr = if n % 2 == 1 {
            block(path, l as int) + tmp@
        } else {
            tmp@ + block(path, l as int)
        };
        assert(root_from_path(id, n as nat, tmp@, path, l as nat, h as nat)
            == root_from_path(id, parent as nat, inner_hash(id, parent as nat, lr), path, (l + 1) as nat, h as nat));
        let next = if n % 2 == 1 {
            let v = node_hash(&pk.I, parent as u32, 0x83, sib.as_slice(), tmp.as_slice());
            assert(sib@ + tmp@ == lr);
            v
        } else {
            let v = node_hash(&pk.I, parent as u32, 0x83, tmp.as_slice(), sib.as_slice());
            assert(tmp@ + sib@ == lr);
            v
        };
        assert(seq![0x83u8, 0x83u8] == crate::lms::helper::d_intr());
        assert(next@ == inner_hash(id, parent as nat, lr));
        tmp = next;
        n = parent;
        l = l + 1;
    }
    assert(seq![0x83u8, 0x83u8] == crate::lms::helper::d_intr());
    crate::codec::bytes_eq(tmp.as_slice(), pk.key.as_slice())
}

/// Every node other than the unused index 0 is a 32-byte hash.
pub proof fn lemma_node_len(k: PrivateKeyModel, r: nat)
    requires
        r >= 1,
    ensures
        key_node(k, r).len() == 32,
{
}

/// The authentication path of leaf `q` splits into the sibling nodes.
pub proof fn lemma_path_blocks(k: PrivateKeyModel, q: u32)
    requires
        (q as nat) < pow2(k.0.h()),
    ensures
        blocks(path_fn(k, q), k.0.h()).len() == 32 * k.0.h(),
        forall|l: int| 0 <= l < k.0.h() ==> #[trigger] block(blocks(path_fn(k, q), k.0.h()), l) == path_fn(k, q)(l),
{
    let h = k.0.h();
    let n0 = pow2(h) + q as nat;
    assert forall|l: int| 0 <= l < h implies #[trigger] path_fn(k, q)(l).len() == 32 by {
        lemma_anc_range(h, q as nat, l as nat);
        lemma_pow2_unfold((h - l) as nat);
        vstd::arithmetic::power2::lemma_pow2_pos((h - l - 1) as nat);
        lemma_node_len(k, sibling(anc(n0, l as nat)));
    }
    lemma_blocks(path_fn(k, q), h);
}

/// Climbing from an ancestor of leaf `q` along the authentication path of `q`
/// reaches the root.
pub proof fn lemma_climb(k: PrivateKeyModel, q: u32, i: nat)
    requires
        private_key_wf(k),
        (q as nat) < pow2(k.0.h()),
        i <= k.0.h(),
    ensures
        ({
            let n = anc(pow2(k.0.h()) + q as nat, i);
            root_from_path(k.2, n, key_node(k, n), blocks(path_fn(k, q), k.0.h()), i, k.0.h()) == key_node(k, 1)
        }),
    decreases k.0.h() - i,
{
    let h = k.0.h();
    let n0 = pow2(h) + q as nat;
    let path = blocks(path_fn(k, q), h);
    lemma2_to64();
    lemma_anc_range(h, q as nat, i);
    if i < h {
        let m = anc(n0, i);
        let par = m / 2;
        assert(par == anc(n0, i + 1));
        lemma_pow2_unfold((h - i) as nat);
        if i > 0 {
            lemma_pow2_strictly_increases((h - i) as nat, h);
        }
        lemma_path_blocks(k, q);
        assert(block(path, i as int) == key_node(k, sibling(m)));
        assert(1 <= par < pow2(h));
        assert(key_node(k, par) == inner_hash(k.2, par, key_node(k, 2 * par) + key_node(k, 2 * par + 1)));
        lemma_climb(k, q, i + 1);
    }
}

/// A signature made by any unused leaf of a key verifies under the key's public key.
pub proof fn lemma_sign_then_verify(k: PrivateKeyModel, q: u32, msg: Seq<u8>)
    requires
        private_key_wf(k),
        (q as nat) < pow2(k.0.h()),
    ensures
        lms_verify_spec(msg, lms_signature(k, q, msg), public_key_bytes(public_key_of(k))),
{
    let h = k.0.h();
    let ot = k.1;
    let ol = ots_signature_len(ot);
    let n0 = pow2(h) + q as nat;
    lemma2_to64();
    lemma_public_key_round_trip(public_key_of(k));
    let x = ots_private_bytes(k.2, q, ot, k.3);
    lemma_blocks(crate::lm_ots::x_fn(k.2, q, k.3), ot.p());
    let c = ots_c(k, q);
    lemma_ots_sign_then_candidate(k.2, q, ot, x, c, msg);
    let os = ots_signature(k.2, q, ot, x, c, msg);
    lemma_path_blocks(k, q);
    let path = blocks(path_fn(k, q), h);
    let sig = lms_signature(k, q, msg);
    lemma_u32_be_round_trip(q);
    lemma_u32_be_round_trip(ot.code());
    lemma_u32_be_round_trip(k.0.code());
    assert(sig.subrange(0, 4) =~= u32_be(q));
    assert(sig.subrange(4, 4 + ol as int) =~= os);
    assert(sig.subrange(4, 8) =~= u32_be(ot.code()));
    assert(sig.subrange(4 + ol as int, 8 + ol as int) =~= u32_be(k.0.code()));
    assert(sig.subrange(8 + ol as int, sig.len() as int) =~= path);
    assert(key_node(k, n0) == leaf_hash(k.2, n0, ots_public_k(k.2, q, ot, x)));
    lemma_climb(k, q, 0);
}

/// A private key written out and read back makes the same signatures from the
/// same leaf on as the key kept in memory, and they verify.
pub proof fn lemma_reload_signs_alike(k: PrivateKeyModel, msg: Seq<u8>)
    requires
        private_key_wf(k),
    ensures
        parse_private_key(private_key_bytes(k)) == Some(k),
        ({
            let k2 = parse_private_key(private_key_bytes(k))->Some_0;
            &&& lms_signature(k2, k2.4, msg) == lms_signature(k, k.4, msg)
            &&& public_key_of(k2) == public_key_of(k)
        }),
{
    lemma_private_key_round_trip(k);
}

} // verus!
