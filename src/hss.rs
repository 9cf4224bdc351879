use vstd::prelude::*;
use vstd::arithmetic::power2::{pow2, lemma_pow2_pos};
use crate::codec::{u32_be, u32str, subvec, be_value, str32u};
use crate::hasher::append;
use crate::lm_ots::{LmotsAlgorithmType, ots_x, derive_x};
use crate::lms::definitions::{LmsAlgorithmType, LmsError, LmsPrivateKey, LmsPublicKey, PrivateKeyModel,
    PublicKeyModel, private_key_wf, public_key_bytes, parse_public_key, private_key_bytes, parse_private_key,
    lemma_private_key_round_trip};
use crate::codec::{bytes_eq, lemma_u32_be_round_trip};
use crate::lm_ots::ots_signature_len;
use crate::lms::helper::{get_tree_element, MutableExpandedAuxData, aux_ok, aux_ok_opt, aux_step, key_node};
use crate::lms::signing::{lms_signature, lms_sign_leaf};
use crate::lms::verify::{public_key_of, lms_verify_spec, lms_verify, lemma_sign_then_verify, lemma_node_len, lemma_path_blocks};
use crate::lms::definitions::lemma_public_key_round_trip;
use crate::lms::{HssParameter, SeedAndI};

verus! {

/// The key of the tree below `parent`, hung from the leaf that `parent` used
/// last, with next leaf `q`. Its identifier and seed come from the parent's.
pub open spec fn child_of(parent: PrivateKeyModel, lt: LmsAlgorithmType, ot: LmotsAlgorithmType, q: u32) -> PrivateKeyModel {
    let leaf = (parent.4 - 1) as u32;
    (lt, ot, ots_x(parent.2, leaf, 0xffff, parent.3).subrange(0, 16), ots_x(parent.2, leaf, 0xfffe, parent.3), q)
}

/// Each level is a well-formed key, each upper level has used a leaf, and each
/// lower level is the child of the leaf that the level above used last.
pub open spec fn hss_chain_ok(ks: Seq<PrivateKeyModel>) -> bool {
    &&& forall|i: int| 0 <= i < ks.len() ==> private_key_wf(#[trigger] ks[i])
    &&& forall|i: int| 1 <= i < ks.len() ==> #[trigger] link_ok(ks, i)
}

/// Level `i - 1` has used a leaf and level `i` is the child of that leaf.
pub open spec fn link_ok(ks: Seq<PrivateKeyModel>, i: int) -> bool {
    ks[i - 1].4 >= 1 && ks[i] == child_of(ks[i - 1], ks[i].0, ks[i].1, ks[i].4)
}

pub open spec fn hss_wf(ks: Seq<PrivateKeyModel>) -> bool {
    &&& 1 <= ks.len() <= 8
    &&& hss_chain_ok(ks)
}

/// The deepest level at or above `i` with an unused leaf, or -1.
pub open spec fn lowest_room(ks: Seq<PrivateKeyModel>, i: int) -> int
    decreases i + 1,
{
    if i < 0 {
        -1
    } else if (ks[i].4 as nat) < pow2(ks[i].0.h()) {
        i
    } else {
        lowest_room(ks, i - 1)
    }
}

/// Replaces the levels from `j` down by fresh children, each with one leaf used.
pub open spec fn rederive(ks: Seq<PrivateKeyModel>, j: int) -> Seq<PrivateKeyModel>
    decreases ks.len() - j,
{
    if j >= ks.len() || j < 1 {
        ks
    } else {
        rederive(ks.update(j, child_of(ks[j - 1], ks[j].0, ks[j].1, 1)), j + 1)
    }
}

/// The state after one signing: the deepest level with room uses a leaf, and
/// every level below it starts over on a fresh tree.
pub open spec fn hss_advance(ks: Seq<PrivateKeyModel>) -> Seq<PrivateKeyModel> {
    let i = lowest_room(ks, ks.len() - 1);
    let k = ks[i];
    rederive(ks.update(i, (k.0, k.1, k.2, k.3, (k.4 + 1) as u32)), i + 1)
}

/// The public key of level `i`, serialized.
pub open spec fn level_public(ks: Seq<PrivateKeyModel>, i: int) -> Seq<u8> {
    public_key_bytes(public_key_of(ks[i]))
}

/// Level `i`'s signature of the public key below it, then that public key.
pub open spec fn signed_public_key(ks: Seq<PrivateKeyModel>, i: int) -> Seq<u8> {
    lms_signature(ks[i], (ks[i].4 - 1) as u32, level_public(ks, i + 1)) + level_public(ks, i + 1)
}

pub open spec fn signed_public_keys(ks: Seq<PrivateKeyModel>, n: nat) -> Seq<u8>
    decreases n,
{
    if n == 0 {
        Seq::empty()
    } else {
        signed_public_keys(ks, (n - 1) as nat) + signed_public_key(ks, n - 1)
    }
}

/// The HSS signature that state `ks` gives to `msg`, each level using the leaf
/// it used last.
pub open spec fn hss_signature(ks: Seq<PrivateKeyModel>, msg: Seq<u8>) -> Seq<u8> {
    let last = ks.len() - 1;
    u32_be(last as u32) + signed_public_keys(ks, last as nat) + lms_signature(ks[last], (ks[last].4 - 1) as u32, msg)
}

/// The HSS public key: the number of levels, then the top tree's public key.
pub open spec fn hss_public_key(ks: Seq<PrivateKeyModel>) -> Seq<u8> {
    u32_be(ks.len() as u32) + level_public(ks, 0)
}

/// A hierarchy of LMS keys, top tree first.
pub struct HssPrivateKey {
    pub levels: Vec<LmsPrivateKey>,
}

impl View for HssPrivateKey {
    type V = Seq<PrivateKeyModel>;

    open spec fn view(&self) -> Seq<PrivateKeyModel> {
        self.levels@.map_values(|k: LmsPrivateKey| k@)
    }
}

fn derive_child(parent: &LmsPrivateKey, lt: LmsAlgorithmType, ot: LmotsAlgorithmType, q: u32) -> (r: LmsPrivateKey)
    requires
        parent.q >= 1,
        lt.is_usable(),
        ot.is_usable(),
    ensures
        r@ == child_of(parent@, lt, ot, q),
        r.I@.len() == 16,
        r.seed@.len() == 32,
{
    let leaf = parent.q - 1;
    let id_full = derive_x(&parent.I, leaf, 0xffff, &parent.seed);
    let id = subvec(id_full.as_slice(), 0, 16);
    let seed = derive_x(&parent.I, leaf, 0xfffe, &parent.seed);
    LmsPrivateKey { lms_type: lt, lm_ots_type: ot, I: id, seed, q }
}

fn level_public_aux(k: &LmsPrivateKey, aux_data: &mut Option<MutableExpandedAuxData>) -> (r: Vec<u8>)
    requires
        k.wf(),
        aux_ok_opt(*old(aux_data), k@),
    ensures
        r@ == public_key_bytes(public_key_of(k@)),
        aux_step(*old(aux_data), *final(aux_data), k@, 1),
        aux_ok_opt(*final(aux_data), k@),
{
    proof {
        lemma_pow2_pos(k.lms_type.h());
    }
    let root = get_tree_element(1, k, aux_data);
    let i = subvec(k.I.as_slice(), 0, 16);
    assert(i@ =~= k.I@);
    let pk = LmsPublicKey::new(root, k.lm_ots_type, k.lms_type, i);
    pk.to_binary_representation()
}

/// Keys of one tree, whatever their next leaf, agree on every node.
pub proof fn lemma_aux_ok_same_tree(aux: Option<MutableExpandedAuxData>, a: PrivateKeyModel, b: PrivateKeyModel)
    requires
        a.0 == b.0 && a.1 == b.1 && a.2 == b.2 && a.3 == b.3,
    ensures
        aux_ok_opt(aux, a) == aux_ok_opt(aux, b),
        forall|r: nat| #[trigger] key_node(a, r) == key_node(b, r),
{
}

fn level_public_exec(k: &LmsPrivateKey) -> (r: Vec<u8>)
    requires
        k.wf(),
    ensures
        r@ == public_key_bytes(public_key_of(k@)),
{
    let mut none: Option<MutableExpandedAuxData> = None;
    proof {
        lemma_pow2_pos(k.lms_type.h());
    }
    let root = get_tree_element(1, k, &mut none);
    let i = subvec(k.I.as_slice(), 0, 16);
    assert(i@ =~= k.I@);
    let pk = LmsPublicKey::new(root, k.lm_ots_type, k.lms_type, i);
    pk.to_binary_representation()
}

/// The initial state that `parameters` and `seed` give: the top tree from the
/// seed, each lower tree the child of leaf 0 of the one above.
pub open spec fn hss_initial(parameters: Seq<HssParameter>, seed: Seq<u8>, id: Seq<u8>, n: nat) -> Seq<PrivateKeyModel>
    decreases n,
{
    let q = |i: int| if i < parameters.len() - 1 { 1u32 } else { 0u32 };
    if n == 0 {
        Seq::empty()
    } else if n == 1 {
        seq![(parameters[0].lms_parameter, parameters[0].lmots_parameter, id, seed, q(0))]
    } else {
        let prev = hss_initial(parameters, seed, id, (n - 1) as nat);
        prev.push(child_of(prev[n - 2], parameters[n - 1].lms_parameter, parameters[n - 1].lmots_parameter, q(n - 1)))
    }
}

pub proof fn lemma_initial_len(parameters: Seq<HssParameter>, seed: Seq<u8>, id: Seq<u8>, n: nat)
    ensures
        hss_initial(parameters, seed, id, n).len() == n,
    decreases n,
{
    if n > 1 {
        lemma_initial_len(parameters, seed, id, (n - 1) as nat);
    }
}

pub proof fn lemma_initial_top(parameters: Seq<HssParameter>, seed: Seq<u8>, id: Seq<u8>, n: nat)
    requires
        n >= 1,
    ensures
        hss_initial(parameters, seed, id, n)[0].0 == parameters[0].lms_parameter,
        hss_initial(parameters, seed, id, n)[0].1 == parameters[0].lmots_parameter,
        hss_initial(parameters, seed, id, n)[0].2 == id,
        hss_initial(parameters, seed, id, n)[0].3 == seed,
    decreases n,
{
    if n > 1 {
        lemma_initial_top(parameters, seed, id, (n - 1) as nat);
        lemma_initial_len(parameters, seed, id, (n - 1) as nat);
    }
}

/// Generates an HSS key from `seed`: the private key and the serialized public key.
///
/// `aux_data`, where given, gets the upper nodes of the top tree that it has
/// room for.
pub fn hss_keygen(parameters: &Vec<HssParameter>, seed: &SeedAndI, aux_data: &mut Option<MutableExpandedAuxData>) -> (r: (HssPrivateKey, Vec<u8>))
    requires
        1 <= parameters@.len() <= 8,
        forall|i: int| 0 <= i < parameters@.len() ==> (#[trigger] parameters@[i]).is_usable(),
        seed.seed@.len() == 32,
        seed.i@.len() == 16,
        aux_ok_opt(*old(aux_data), crate::lms::derived_key(seed, &parameters@[0])),
    ensures
        r.0@ == hss_initial(parameters@, seed.seed@, seed.i@, parameters@.len()),
        hss_wf(r.0@),
        r.1@ == hss_public_key(r.0@),
        aux_step(*old(aux_data), *final(aux_data), r.0@[0], 1),
        forall|i: int| 0 <= i < r.0@.len() ==> (#[trigger] r.0@[i]).4 == (if i < r.0@.len() - 1 { 1u32 } else { 0u32 }),
        aux_ok_opt(*final(aux_data), r.0@[0]),
{
    let n = parameters.len();
    let ghost ps = parameters@;
    proof {
        vstd::arithmetic::power2::lemma2_to64();
    }
    let first_level = parameters[0];
    let q0: u32 = if n > 1 { 1 } else { 0 };
    let s = subvec(seed.seed.as_slice(), 0, 32);
    let id = subvec(seed.i.as_slice(), 0, 16);
    assert(s@ =~= seed.seed@);
    assert(id@ =~= seed.i@);
    proof {
        lemma_pow2_pos(first_level.lms_parameter.h());
    }
    let top = LmsPrivateKey { lms_type: first_level.lms_parameter, lm_ots_type: first_level.lmots_parameter, I: id, seed: s, q: q0 };
    let mut levels: Vec<LmsPrivateKey> = Vec::new();
    levels.push(top);
    let mut m: usize = 1;
    while m < n
        invariant
            1 <= m <= n <= 8,
            n == parameters@.len(),
            forall|i: int| 0 <= i < parameters@.len() ==> (#[trigger] parameters@[i]).is_usable(),
            levels@.len() == m,
            levels@.map_values(|k: LmsPrivateKey| k@) == hss_initial(parameters@, seed.seed@, seed.i@, m as nat),
            hss_chain_ok(levels@.map_values(|k: LmsPrivateKey| k@)),
            forall|i: int| 0 <= i < m ==> (#[trigger] levels@[i]).q == (if i < n - 1 { 1u32 } else { 0u32 }),
        decreases n - m,
    {
        let pm = parameters[m];
        let q: u32 = if m < n - 1 { 1 } else { 0 };
        proof {
            lemma_pow2_pos(pm.lms_parameter.h());
            lemma_initial_len(parameters@, seed.seed@, seed.i@, (m - 1) as nat);
        }
        let child = derive_child(&levels[m - 1], pm.lms_parameter, pm.lmots_parameter, q);
        let ghost before = levels@.map_values(|k: LmsPrivateKey| k@);
        levels.push(child);
        let ghost after = before.push(child@);
        assert(levels@.map_values(|k: LmsPrivateKey| k@) =~= after);
        assert forall|t: int| 1 <= t < after.len() implies #[trigger] link_ok(after, t) by {
            if t < m {
                assert(link_ok(before, t));
                assert(after[t] == before[t] && after[t - 1] == before[t - 1]);
            } else {
                assert(after[t - 1] == before[m - 1]);
                assert(before[m - 1] == levels@[m - 1]@);
            }
        }
        m = m + 1;
    }
    let key = HssPrivateKey { levels };
    assert(key@[0] == key.levels@[0]@);
    assert(private_key_wf(key@[0]));
    assert forall|i: int| 0 <= i < key@.len() implies (#[trigger] key@[i]).4 == (if i < key@.len() - 1 { 1u32 } else { 0u32 }) by {
        assert(key@[i] == key.levels@[i]@);
    }
    proof {
        lemma_initial_top(parameters@, seed.seed@, seed.i@, n as nat);
        lemma_aux_ok_same_tree(*aux_data, crate::lms::derived_key(seed, &parameters@[0]), key@[0]);
    }
    let top_public = level_public_aux(&key.levels[0], aux_data);
    let mut public_key = u32str(n as u32);
    append(&mut public_key, top_public.as_slice());
    (key, public_key)
}

fn find_room(levels: &Vec<LmsPrivateKey>) -> (r: Option<usize>)
    requires
        1 <= levels@.len() <= 8,
        forall|i: int| 0 <= i < levels@.len() ==> (#[trigger] levels@[i]).wf(),
    ensures
        ({
            let ks = levels@.map_values(|k: LmsPrivateKey| k@);
            let low = lowest_room(ks, ks.len() - 1);
            &&& r is None <==> low < 0
            &&& r matches Some(i) ==> i == low && i < levels@.len() && (ks[i as int].4 as nat) < pow2(ks[i as int].0.h())
                && ks[i as int].4 < 0x200_0000
        }),
{
    let ghost ks = levels@.map_values(|k: LmsPrivateKey| k@);
    let mut j: usize = levels.len();
    while j > 0
        invariant
            j <= levels@.len(),
            ks == levels@.map_values(|k: LmsPrivateKey| k@),
            forall|i: int| 0 <= i < levels@.len() ==> (#[trigger] levels@[i]).wf(),
            lowest_room(ks, ks.len() - 1) == lowest_room(ks, j - 1),
        decreases j,
    {
        let k = &levels[j - 1];
        let leaves = k.lms_type.get_parameter().number_of_lm_ots_keys();
        if (k.q as usize) < leaves {
            return Some(j - 1);
        }
        j = j - 1;
    }
    None
}

#[verifier::rlimit(60)]
/// Moves the state on by one signing, as `hss_advance` says.
fn advance_state(private_key: &mut HssPrivateKey) -> (r: Result<(), LmsError>)
    requires
        hss_wf(old(private_key)@),
    ensures
        lowest_room(old(private_key)@, old(private_key)@.len() - 1) < 0 ==> r == Err::<(), LmsError>(LmsError::KeyExhausted)
            && final(private_key)@ == old(private_key)@,
        lowest_room(old(private_key)@, old(private_key)@.len() - 1) >= 0 ==> {
            &&& r is Ok
            &&& final(private_key)@ == hss_advance(old(private_key)@)
            &&& hss_wf(final(private_key)@)
            &&& final(private_key)@[final(private_key)@.len() - 1].4 >= 1
        },
{
    let ghost ks0 = private_key@;
    let n = private_key.levels.len();
    proof {
        assert forall|t: int| 0 <= t < private_key.levels@.len() implies (#[trigger] private_key.levels@[t]).wf() by {
            assert(ks0[t] == private_key.levels@[t]@);
        }
    }
    let i = match find_room(&private_key.levels) {
        None => {
            return Err(LmsError::KeyExhausted);
        },
        Some(i) => i,
    };
    let mut k = private_key.levels[i].copy_key();
    k.q = k.q + 1;
    private_key.levels.set(i, k);
    let ghost up = ks0.update(i as int, (ks0[i as int].0, ks0[i as int].1, ks0[i as int].2, ks0[i as int].3, (ks0[i as int].4 + 1) as u32));
    assert(private_key@ =~= up);
    assert forall|t: int| 1 <= t < i + 1 implies #[trigger] link_ok(up, t) by {
        assert(link_ok(ks0, t));
    }
    let mut m: usize = i + 1;
    while m < n
        invariant
            i < m <= n,
            n == private_key@.len(),
            n <= 8,
            rederive(private_key@, m as int) == hss_advance(ks0),
            forall|t: int| 0 <= t < n ==> private_key_wf(#[trigger] private_key@[t]),
            forall|t: int| 1 <= t < m ==> #[trigger] link_ok(private_key@, t),
            forall|t: int| i <= t < m ==> (#[trigger] private_key@[t]).4 >= 1,
        decreases n - m,
    {
        let ghost cur = private_key@;
        let lt = private_key.levels[m].lms_type;
        let ot = private_key.levels[m].lm_ots_type;
        assert(cur[m as int] == private_key.levels@[m as int]@);
        assert(cur[m - 1] == private_key.levels@[m - 1]@);
        proof {
            lemma_pow2_pos(lt.h());
        }
        let child = derive_child(&private_key.levels[m - 1], lt, ot, 1);
        private_key.levels.set(m, child);
        let ghost nxt = cur.update(m as int, child_of(cur[m - 1], cur[m as int].0, cur[m as int].1, 1));
        assert(private_key@ =~= nxt);
        assert forall|t: int| 1 <= t < m + 1 implies #[trigger] link_ok(nxt, t) by {
            if t < m {
                assert(link_ok(cur, t));
            }
        }
        m = m + 1;
    }
    assert(rederive(private_key@, n as int) == private_key@);
    Ok(())
}

/// The HSS signature of `message` that the state `private_key` gives.
fn build_signature(message: &[u8], private_key: &HssPrivateKey, aux_data: Option<&MutableExpandedAuxData>) -> (r: Vec<u8>)
    requires
        hss_wf(private_key@),
        private_key@[private_key@.len() - 1].4 >= 1,
    ensures
        (aux_data matches Some(a) ==> aux_ok(*a, private_key@[0])) ==> r@ == hss_signature(private_key@, message@),
{
    let ghost ks = private_key@;
    let ghost ok = aux_data matches Some(a) ==> aux_ok(*a, ks[0]);
    let n = private_key.levels.len();
    let mut sig = u32str((n - 1) as u32);
    let mut j: usize = 0;
    while j < n - 1
        invariant
            j <= n - 1,
            n == ks.len(),
            n <= 8,
            ks == private_key@,
            hss_wf(ks),
            ok == (aux_data matches Some(a) ==> aux_ok(*a, ks[0])),
            ok ==> sig@ == u32_be((n - 1) as u32) + signed_public_keys(ks, j as nat),
        decreases n - 1 - j,
    {
        assert(ks[j + 1] == private_key.levels@[j + 1]@);
        assert(ks[j as int] == private_key.levels@[j as int]@);
        assert(link_ok(ks, j + 1));
        let pk = level_public_exec(&private_key.levels[j + 1]);
        let q = private_key.levels[j].q - 1;
        let a = if j == 0 {
            aux_data
        } else {
            None
        };
        let s = lms_sign_leaf(pk.as_slice(), &private_key.levels[j], q, a);
        append(&mut sig, s.as_slice());
        append(&mut sig, pk.as_slice());
        j = j + 1;
    }
    assert(ks[n - 1] == private_key.levels@[n - 1]@);
    let q = private_key.levels[n - 1].q - 1;
    let a = if n == 1 {
        aux_data
    } else {
        None
    };
    let s = lms_sign_leaf(message, &private_key.levels[n - 1], q, a);
    append(&mut sig, s.as_slice());
    sig
}

/// Signs `message` with the next leaf of the bottom tree. Where the bottom tree
/// is used up, the deepest level with an unused leaf signs a fresh tree below it
/// and each level under that starts over. With no unused leaf left anywhere it
/// fails with `KeyExhausted` and changes nothing.
///
/// `aux_data` may hold upper nodes of the top tree; with a cache that holds only
/// nodes of that tree, or none, the signature is `hss_signature`.
pub fn hss_sign(message: &[u8], private_key: &mut HssPrivateKey, aux_data: Option<&MutableExpandedAuxData>) -> (r: Result<Vec<u8>, LmsError>)
    requires
        hss_wf(old(private_key)@),
    ensures
        lowest_room(old(private_key)@, old(private_key)@.len() - 1) < 0 ==> r == Err::<Vec<u8>, LmsError>(LmsError::KeyExhausted)
            && final(private_key)@ == old(private_key)@,
        lowest_room(old(private_key)@, old(private_key)@.len() - 1) >= 0 ==> {
            &&& final(private_key)@ == hss_advance(old(private_key)@)
            &&& hss_wf(final(private_key)@)
            &&& r is Ok
            &&& (aux_data matches Some(a) ==> aux_ok(*a, old(private_key)@[0])) ==> r->Ok_0@ == hss_signature(final(private_key)@, message@)
            &&& final(private_key)@[final(private_key)@.len() - 1].4 >= 1
        },
{
    let ghost ks0 = private_key@;
    match advance_state(private_key) {
        Err(e) => Err(e),
        Ok(()) => {
            proof {
                lemma_advance_keeps_public_key(ks0);
            }
            proof {
                let a = hss_advance(ks0);
                lemma_aux_ok_same_tree(match aux_data { Some(x) => Some(*x), None => None }, ks0[0], a[0]);
            }
            Ok(build_signature(message, private_key, aux_data))
        },
    }
}

/// Length of an LMS signature made under the public key `k`.
pub open spec fn lms_sig_len(k: PublicKeyModel) -> nat {
    8 + ots_signature_len(k.1) + 32 * k.0.h()
}

/// Checks the part of an HSS signature from `off` on against the public key
/// `pk` of the level that signs it, with `remaining` signed public keys left.
pub open spec fn hss_verify_rec(msg: Seq<u8>, sig: Seq<u8>, off: int, pk: Seq<u8>, remaining: nat) -> bool
    decreases remaining,
{
    match parse_public_key(pk) {
        None => false,
        Some(k) => {
            let n = lms_sig_len(k) as int;
            if remaining == 0 {
                0 <= off <= sig.len() && lms_verify_spec(msg, sig.subrange(off, sig.len() as int), pk)
            } else {
                let child = sig.subrange(off + n, off + n + 56);
                &&& 0 <= off
                &&& off + n + 56 <= sig.len()
                &&& lms_verify_spec(child, sig.subrange(off, off + n), pk)
                &&& hss_verify_rec(msg, sig, off + n + 56, child, (remaining - 1) as nat)
            }
        },
    }
}

/// Whether `sig` is a valid HSS signature of `msg` under the HSS public key `pk`.
pub open spec fn hss_verify_spec(msg: Seq<u8>, sig: Seq<u8>, pk: Seq<u8>) -> bool {
    let levels = be_value(pk.subrange(0, 4));
    &&& pk.len() == 60
    &&& 1 <= levels <= 8
    &&& sig.len() >= 4
    &&& be_value(sig.subrange(0, 4)) + 1 == levels
    &&& hss_verify_rec(msg, sig, 4, pk.subrange(4, 60), (levels - 1) as nat)
}

/// Checks an HSS signature of `message` against a serialized HSS public key.
pub fn hss_verify(message: &[u8], signature: &[u8], public_key: &[u8]) -> (r: bool)
    ensures
        r == hss_verify_spec(message@, signature@, public_key@),
{
    if public_key.len() != 60 {
        return false;
    }
    let levels = str32u(public_key, 0);
    if levels < 1 || levels > 8 || signature.len() < 4 {
        return false;
    }
    if str32u(signature, 0) != levels - 1 {
        return false;
    }
    let mut pk = subvec(public_key, 4, 56);
    let ghost pk0 = pk@;
    let mut off: usize = 4;
    let mut remaining: u32 = levels - 1;
    while remaining > 0
        invariant
            off <= signature@.len(),
            public_key@.len() == 60,
            levels as nat == be_value(public_key@.subrange(0, 4)),
            1 <= levels <= 8,
            signature@.len() >= 4,
            be_value(signature@.subrange(0, 4)) + 1 == levels,
            pk0 == public_key@.subrange(4, 60),
            hss_verify_rec(message@, signature@, off as int, pk@, remaining as nat)
                == hss_verify_rec(message@, signature@, 4, pk0, (levels - 1) as nat),
        decreases remaining,
    {
        let copy = subvec(pk.as_slice(), 0, pk.len());
        assert(copy@ =~= pk@);
        let parsed = match LmsPublicKey::from_binary_representation(copy) {
            None => {
                assert(parse_public_key(pk@) is None);
                assert(!hss_verify_rec(message@, signature@, off as int, pk@, remaining as nat));
                return false;
            },
            Some(p) => p,
        };
        assert(parse_public_key(pk@) == Some(parsed@));
        let p = parsed.lm_ots_type.get_parameter().p as usize;
        let h = parsed.lms_type.get_parameter().h as usize;
        let n: usize = 8 + (36 + 32 * p) + 32 * h;
        assert(n as nat == lms_sig_len(parsed@));
        if n + 56 > signature.len() - off {
            assert(!hss_verify_rec(message@, signature@, off as int, pk@, remaining as nat));
            return false;
        }
        let child = subvec(signature, off + n, 56);
        let part = subvec(signature, off, n);
        if !lms_verify(child.as_slice(), part.as_slice(), pk.as_slice()) {
            return false;
        }
        off = off + n + 56;
        pk = child;
        remaining = remaining - 1;
    }
    if LmsPublicKey::from_binary_representation(subvec(pk.as_slice(), 0, pk.len())).is_none() {
        assert(pk@.subrange(0, pk@.len() as int) =~= pk@);
        return false;
    }
    assert(pk@.subrange(0, pk@.len() as int) =~= pk@);
    let rest = subvec(signature, off, signature.len() - off);
    lms_verify(message, rest.as_slice(), pk.as_slice())
}

pub open spec fn key_parts(ks: Seq<PrivateKeyModel>, n: nat) -> Seq<u8>
    decreases n,
{
    if n == 0 {
        Seq::empty()
    } else {
        key_parts(ks, (n - 1) as nat) + private_key_bytes(ks[n - 1])
    }
}

/// Wire form of an HSS private key: the number of levels, then each level's key.
pub open spec fn hss_private_key_bytes(ks: Seq<PrivateKeyModel>) -> Seq<u8> {
    u32_be(ks.len() as u32) + key_parts(ks, ks.len())
}

/// The 60 bytes of level `i` in a serialized HSS private key.
pub open spec fn key_chunk(d: Seq<u8>, i: int) -> Seq<u8> {
    d.subrange(4 + 60 * i, 4 + 60 * i + 60)
}

/// What a byte string holds as an HSS private key, if anything: the sizes and
/// typecodes must be right and each level the child of the one above.
pub open spec fn parse_hss_private_key(d: Seq<u8>) -> Option<Seq<PrivateKeyModel>> {
    let l = be_value(d.subrange(0, 4));
    if d.len() >= 4 && 1 <= l <= 8 && d.len() == 4 + 60 * l && forall|i: int| 0 <= i < l ==> (#[trigger] parse_private_key(key_chunk(d, i))) is Some {
        let ks = Seq::new(l, |i: int| parse_private_key(key_chunk(d, i))->Some_0);
        if hss_chain_ok(ks) {
            Some(ks)
        } else {
            None
        }
    } else {
        None
    }
}

pub proof fn lemma_key_parts(ks: Seq<PrivateKeyModel>, n: nat)
    requires
        n <= ks.len(),
        forall|i: int| 0 <= i < ks.len() ==> private_key_wf(#[trigger] ks[i]),
    ensures
        key_parts(ks, n).len() == 60 * n,
        forall|i: int| 0 <= i < n ==> #[trigger] key_parts(ks, n).subrange(60 * i, 60 * i + 60) == private_key_bytes(ks[i]),
    decreases n,
{
    if n > 0 {
        let m = (n - 1) as nat;
        lemma_key_parts(ks, m);
        assert(private_key_bytes(ks[m as int]).len() == 60);
        assert forall|i: int| 0 <= i < n implies #[trigger] key_parts(ks, n).subrange(60 * i, 60 * i + 60) == private_key_bytes(ks[i]) by {
            if i < m {
                assert(key_parts(ks, n).subrange(60 * i, 60 * i + 60) =~= key_parts(ks, m).subrange(60 * i, 60 * i + 60));
            } else {
                assert(key_parts(ks, n).subrange(60 * i, 60 * i + 60) =~= private_key_bytes(ks[i]));
            }
        }
    }
}

/// Serializing a well-formed HSS private key and reading it back gives the key.
pub proof fn lemma_hss_private_key_round_trip(ks: Seq<PrivateKeyModel>)
    requires
        hss_wf(ks),
    ensures
        parse_hss_private_key(hss_private_key_bytes(ks)) == Some(ks),
{
    let d = hss_private_key_bytes(ks);
    let l = ks.len();
    lemma_key_parts(ks, l);
    lemma_u32_be_round_trip(l as u32);
    assert(d.subrange(0, 4) =~= u32_be(l as u32));
    assert forall|i: int| 0 <= i < l implies #[trigger] key_chunk(d, i) == private_key_bytes(ks[i]) by {
        assert(key_chunk(d, i) =~= key_parts(ks, l).subrange(60 * i, 60 * i + 60));
    }
    assert forall|i: int| 0 <= i < l implies #[trigger] parse_private_key(key_chunk(d, i)) == Some(ks[i]) by {
        lemma_private_key_round_trip(ks[i]);
    }
    assert(Seq::new(l, |i: int| parse_private_key(key_chunk(d, i))->Some_0) =~= ks);
}

fn is_child(parent: &LmsPrivateKey, me: &LmsPrivateKey) -> (r: bool)
    requires
        parent.wf(),
        me.wf(),
    ensures
        r == (parent@.4 >= 1 && me@ == child_of(parent@, me@.0, me@.1, me@.4)),
{
    if parent.q < 1 {
        return false;
    }
    let child = derive_child(parent, me.lms_type, me.lm_ots_type, me.q);
    let same_i = bytes_eq(child.I.as_slice(), me.I.as_slice());
    let same_seed = bytes_eq(child.seed.as_slice(), me.seed.as_slice());
    if same_i && same_seed {
        assert(child@ == me@);
        true
    } else {
        assert(child@ != me@);
        false
    }
}

/// Whether each level of `key` is the child of the leaf the level above used last.
fn check_chain(key: &HssPrivateKey) -> (r: bool)
    requires
        1 <= key@.len() <= 8,
        forall|i: int| 0 <= i < key@.len() ==> private_key_wf(#[trigger] key@[i]),
    ensures
        r == hss_chain_ok(key@),
{
    let ghost ks = key@;
    let l = key.levels.len();
    let mut t: usize = 1;
    while t < l
        invariant
            1 <= t <= l,
            l == ks.len(),
            key@ == ks,
            forall|i: int| 0 <= i < l ==> private_key_wf(#[trigger] ks[i]),
            forall|i: int| 1 <= i < t ==> #[trigger] link_ok(ks, i),
        decreases l - t,
    {
        assert(ks[t - 1] == key.levels@[t - 1]@);
        assert(ks[t as int] == key.levels@[t as int]@);
        if !is_child(&key.levels[t - 1], &key.levels[t]) {
            assert(!link_ok(ks, t as int));
            return false;
        }
        assert(link_ok(ks, t as int));
        t = t + 1;
    }
    true
}

impl HssPrivateKey {
    pub fn to_binary_representation(&self) -> (r: Vec<u8>)
        requires
            self@.len() <= 8,
        ensures
            r@ == hss_private_key_bytes(self@),
    {
        let ghost ks = self@;
        let n = self.levels.len();
        let mut r = u32str(n as u32);
        let mut j: usize = 0;
        while j < n
            invariant
                j <= n,
                n == ks.len(),
                ks == self@,
                r@ == u32_be(n as u32) + key_parts(ks, j as nat),
            decreases n - j,
        {
            let b = self.levels[j].to_binary_representation();
            assert(ks[j as int] == self.levels@[j as int]@);
            append(&mut r, b.as_slice());
            assert(r@ =~= u32_be(n as u32) + key_parts(ks, (j + 1) as nat));
            j = j + 1;
        }
        r
    }

    /// Reads an HSS private key; `None` on a wrong size or typecode, or where a
    /// level is not the child of the one above.
    pub fn from_binary_representation(data: &[u8]) -> (r: Option<Self>)
        ensures
            r matches Some(k) ==> Some(k@) == parse_hss_private_key(data@),
            r is None ==> parse_hss_private_key(data@) is None,
    {
        if data.len() < 4 {
            return None;
        }
        let l = str32u(data, 0);
        if l < 1 || l > 8 || data.len() != 4 + 60 * l as usize {
            return None;
        }
        let mut levels: Vec<LmsPrivateKey> = Vec::new();
        let mut j: usize = 0;
        while j < l as usize
            invariant
                j <= l <= 8,
                data@.len() == 4 + 60 * l,
                levels@.len() == j,
                forall|i: int| 0 <= i < j ==> Some((#[trigger] levels@[i])@) == parse_private_key(key_chunk(data@, i)),
            decreases l - j,
        {
            let chunk = subvec(data, 4 + 60 * j, 60);
            assert(chunk@ == key_chunk(data@, j as int));
            match LmsPrivateKey::from_binary_representation(chunk.as_slice()) {
                Some(k) => {
                    levels.push(k);
                },
                None => {
                    return None;
                },
            }
            j = j + 1;
        }
        let key = HssPrivateKey { levels };
        let ghost ks = Seq::new(l as nat, |i: int| parse_private_key(key_chunk(data@, i))->Some_0);
        assert(key@ =~= ks);
        assert forall|i: int| 0 <= i < l implies (#[trigger] parse_private_key(key_chunk(data@, i))) is Some by {
            assert(Some(key.levels@[i]@) == parse_private_key(key_chunk(data@, i)));
        }
        assert forall|i: int| 0 <= i < l implies private_key_wf(#[trigger] ks[i]) by {
            assert(Some(key.levels@[i]@) == parse_private_key(key_chunk(data@, i)));
        }
        if check_chain(&key) {
            Some(key)
        } else {
            None
        }
    }
}

/// The part of an HSS signature from level `j` on.
pub open spec fn sig_tail(ks: Seq<PrivateKeyModel>, msg: Seq<u8>, j: int) -> Seq<u8>
    decreases ks.len() - j,
{
    if j >= ks.len() - 1 {
        lms_signature(ks[ks.len() - 1], (ks[ks.len() - 1].4 - 1) as u32, msg)
    } else {
        signed_public_key(ks, j) + sig_tail(ks, msg, j + 1)
    }
}

pub proof fn lemma_sig_tail(ks: Seq<PrivateKeyModel>, msg: Seq<u8>, j: int)
    requires
        0 <= j <= ks.len() - 1,
    ensures
        u32_be((ks.len() - 1) as u32) + signed_public_keys(ks, j as nat) + sig_tail(ks, msg, j) == hss_signature(ks, msg),
    decreases ks.len() - j,
{
    if j < ks.len() - 1 {
        lemma_sig_tail(ks, msg, j + 1);
        assert(signed_public_keys(ks, (j + 1) as nat) == signed_public_keys(ks, j as nat) + signed_public_key(ks, j));
        assert(u32_be((ks.len() - 1) as u32) + signed_public_keys(ks, j as nat) + sig_tail(ks, msg, j)
            =~= u32_be((ks.len() - 1) as u32) + signed_public_keys(ks, (j + 1) as nat) + sig_tail(ks, msg, j + 1));
    }
}

/// An LMS signature has the length that the signer's public key fixes.
pub proof fn lemma_lms_signature_len(k: PrivateKeyModel, q: u32, msg: Seq<u8>)
    requires
        private_key_wf(k),
        (q as nat) < pow2(k.0.h()),
    ensures
        lms_signature(k, q, msg).len() == lms_sig_len(public_key_of(k)),
{
    let x = crate::lm_ots::ots_private_bytes(k.2, q, k.1, k.3);
    crate::codec::lemma_blocks(crate::lm_ots::x_fn(k.2, q, k.3), k.1.p());
    crate::lm_ots::lemma_ots_sign_then_candidate(k.2, q, k.1, x, crate::lms::signing::ots_c(k, q), msg);
    lemma_path_blocks(k, q);
}

/// The serialized public key of a level reads back as that level's public key.
pub proof fn lemma_level_public(ks: Seq<PrivateKeyModel>, i: int)
    requires
        0 <= i < ks.len(),
        private_key_wf(ks[i]),
    ensures
        level_public(ks, i).len() == 56,
        parse_public_key(level_public(ks, i)) == Some(public_key_of(ks[i])),
{
    lemma_node_len(ks[i], 1);
    lemma_public_key_round_trip(public_key_of(ks[i]));
}

proof fn lemma_split3(sig: Seq<u8>, off: int, a: Seq<u8>, b: Seq<u8>, c: Seq<u8>)
    requires
        0 <= off <= sig.len(),
        sig.subrange(off, sig.len() as int) == a + b + c,
    ensures
        sig.subrange(off, off + a.len()) == a,
        sig.subrange(off + a.len(), off + a.len() + b.len()) == b,
        sig.subrange(off + a.len() + b.len(), sig.len() as int) == c,
{
    let t = sig.subrange(off, sig.len() as int);
    assert(t.len() == sig.len() - off);
    assert((a + b + c).len() == a.len() + b.len() + c.len());
    assert(sig.subrange(off, off + a.len()) =~= t.subrange(0, a.len() as int));
    assert(t.subrange(0, a.len() as int) =~= a);
    assert(sig.subrange(off + a.len(), off + a.len() + b.len()) =~= t.subrange(a.len() as int, (a.len() + b.len()) as int));
    assert(t.subrange(a.len() as int, (a.len() + b.len()) as int) =~= b);
    assert(sig.subrange(off + a.len() + b.len(), sig.len() as int) =~= t.subrange((a.len() + b.len()) as int, t.len() as int));
    assert(t.subrange((a.len() + b.len()) as int, t.len() as int) =~= c);
}

#[verifier::rlimit(100)]
proof fn lemma_verify_tail(ks: Seq<PrivateKeyModel>, msg: Seq<u8>, sig: Seq<u8>, off: int, j: int)
    requires
        hss_wf(ks),
        ks[ks.len() - 1].4 >= 1,
        0 <= j <= ks.len() - 1,
        0 <= off <= sig.len(),
        sig.subrange(off, sig.len() as int) == sig_tail(ks, msg, j),
    ensures
        hss_verify_rec(msg, sig, off, level_public(ks, j), (ks.len() - 1 - j) as nat),
    decreases ks.len() - j,
{
    let k = ks[j];
    lemma_level_public(ks, j);
    if j == ks.len() - 1 {
        lemma_sign_then_verify(k, (k.4 - 1) as u32, msg);
    } else {
        assert(link_ok(ks, j + 1));
        let child = level_public(ks, j + 1);
        lemma_level_public(ks, j + 1);
        let ls = lms_signature(k, (k.4 - 1) as u32, child);
        lemma_lms_signature_len(k, (k.4 - 1) as u32, child);
        lemma_sign_then_verify(k, (k.4 - 1) as u32, child);
        let n = lms_sig_len(public_key_of(k)) as int;
        let t = sig_tail(ks, msg, j + 1);
        assert(sig_tail(ks, msg, j) == ls + child + t);
        lemma_split3(sig, off, ls, child, t);
        lemma_verify_tail(ks, msg, sig, off + n + 56, j + 1);
    }
}

/// Every signature that a well-formed state makes after a signing verifies
/// under the state's HSS public key.
pub proof fn lemma_hss_sign_then_verify(ks: Seq<PrivateKeyModel>, msg: Seq<u8>)
    requires
        hss_wf(ks),
        ks[ks.len() - 1].4 >= 1,
    ensures
        hss_verify_spec(msg, hss_signature(ks, msg), hss_public_key(ks)),
{
    let sig = hss_signature(ks, msg);
    let pk = hss_public_key(ks);
    let l = ks.len();
    lemma_sig_tail(ks, msg, 0);
    assert(signed_public_keys(ks, 0) == Seq::<u8>::empty());
    lemma_u32_be_round_trip((l - 1) as u32);
    lemma_u32_be_round_trip(l as u32);
    lemma_level_public(ks, 0);
    assert(sig == u32_be((l - 1) as u32) + sig_tail(ks, msg, 0)) by {
        assert(u32_be((l - 1) as u32) + Seq::<u8>::empty() =~= u32_be((l - 1) as u32));
    }
    assert(sig.subrange(0, 4) =~= u32_be((l - 1) as u32));
    assert(sig.subrange(4, sig.len() as int) =~= sig_tail(ks, msg, 0));
    assert(pk.subrange(0, 4) =~= u32_be(l as u32));
    assert(pk.subrange(4, 60) =~= level_public(ks, 0));
    lemma_verify_tail(ks, msg, sig, 4, 0);
}

/// Re-deriving lower levels leaves the levels above alone.
pub proof fn lemma_rederive_keeps(ks: Seq<PrivateKeyModel>, j: int)
    ensures
        rederive(ks, j).len() == ks.len(),
        forall|t: int| 0 <= t < j && t < ks.len() ==> #[trigger] rederive(ks, j)[t] == ks[t],
    decreases ks.len() - j,
{
    if j < ks.len() && j >= 1 {
        lemma_rederive_keeps(ks.update(j, child_of(ks[j - 1], ks[j].0, ks[j].1, 1)), j + 1);
    }
}

/// Signing never changes the HSS public key.
pub proof fn lemma_advance_keeps_public_key(ks: Seq<PrivateKeyModel>)
    requires
        hss_wf(ks),
        lowest_room(ks, ks.len() - 1) >= 0,
    ensures
        hss_public_key(hss_advance(ks)) == hss_public_key(ks),
        hss_advance(ks)[0].0 == ks[0].0 && hss_advance(ks)[0].1 == ks[0].1 && hss_advance(ks)[0].2 == ks[0].2
            && hss_advance(ks)[0].3 == ks[0].3,
{
    let i = lowest_room(ks, ks.len() - 1);
    lemma_lowest_room_range(ks, ks.len() - 1);
    let k = ks[i];
    let up = ks.update(i, (k.0, k.1, k.2, k.3, (k.4 + 1) as u32));
    lemma_rederive_keeps(up, i + 1);
    let a = hss_advance(ks);
    assert(a[0].0 == ks[0].0 && a[0].1 == ks[0].1 && a[0].2 == ks[0].2 && a[0].3 == ks[0].3);
    assert(public_key_of(a[0]) == public_key_of(ks[0]));
}

pub proof fn lemma_lowest_room_range(ks: Seq<PrivateKeyModel>, i: int)
    requires
        i >= -1,
    ensures
        -1 <= lowest_room(ks, i) <= i,
    decreases i + 1,
{
    if i >= 0 {
        lemma_lowest_room_range(ks, i - 1);
    }
}

/// Number of signatures that levels `i ..` can still give, each level's tree
/// counted with the trees below it.
pub open spec fn capacity(ks: Seq<PrivateKeyModel>, i: int) -> nat
    decreases ks.len() - i,
{
    if i >= ks.len() {
        1
    } else {
        pow2(ks[i].0.h()) * capacity(ks, i + 1)
    }
}

/// Signatures that state `ks` can still make from level `i` down.
pub open spec fn signings_left(ks: Seq<PrivateKeyModel>, i: int) -> int
    decreases ks.len() - i,
{
    if i >= ks.len() - 1 {
        pow2(ks[ks.len() - 1].0.h()) - ks[ks.len() - 1].4
    } else {
        signings_left(ks, i + 1) + (pow2(ks[i].0.h()) - ks[i].4) * capacity(ks, i + 1)
    }
}

pub proof fn lemma_capacity_pos(ks: Seq<PrivateKeyModel>, i: int)
    ensures
        capacity(ks, i) >= 1,
    decreases ks.len() - i,
{
    if i < ks.len() {
        lemma_capacity_pos(ks, i + 1);
        lemma_pow2_pos(ks[i].0.h());
        let p = pow2(ks[i].0.h()) as int;
        let c = capacity(ks, i + 1) as int;
        assert(p * c >= 1) by (nonlinear_arith)
            requires p >= 1, c >= 1;
    }
}

/// Nothing is left exactly when every level from `i` down has used all its leaves.
pub proof fn lemma_left_zero(ks: Seq<PrivateKeyModel>, i: int)
    requires
        hss_chain_ok(ks),
        ks.len() >= 1,
        0 <= i < ks.len(),
    ensures
        signings_left(ks, i) >= 0,
        signings_left(ks, i) == 0 <==> forall|j: int| i <= j < ks.len() ==> (#[trigger] ks[j]).4 == pow2(ks[j].0.h()),
    decreases ks.len() - i,
{
    let l = ks.len();
    assert(private_key_wf(ks[i]));
    if i < l - 1 {
        lemma_left_zero(ks, i + 1);
        lemma_capacity_pos(ks, i + 1);
        let d = pow2(ks[i].0.h()) - ks[i].4;
        let c = capacity(ks, i + 1) as int;
        assert(d >= 0);
        assert(d * c >= 0 && (d * c == 0 <==> d == 0)) by (nonlinear_arith)
            requires d >= 0, c >= 1;
        if signings_left(ks, i) == 0 {
            assert forall|j: int| i <= j < l implies (#[trigger] ks[j]).4 == pow2(ks[j].0.h()) by {
                if j > i {
                    assert(signings_left(ks, i + 1) == 0);
                }
            }
        }
    }
}

/// The deepest level with room lies at or above `i`, and every level below it
/// is used up.
pub proof fn lemma_lowest_room_facts(ks: Seq<PrivateKeyModel>, i: int)
    requires
        -1 <= i < ks.len(),
    ensures
        lowest_room(ks, i) >= 0 ==> (ks[lowest_room(ks, i)].4 as nat) < pow2(ks[lowest_room(ks, i)].0.h()),
        forall|j: int| lowest_room(ks, i) < j <= i ==> (#[trigger] ks[j]).4 as nat >= pow2(ks[j].0.h()),
    decreases i + 1,
{
    if i >= 0 {
        lemma_lowest_room_facts(ks, i - 1);
    }
}

/// The levels from `j` down are fresh: the same algorithms, one leaf used.
pub proof fn lemma_rederive_fresh(ks: Seq<PrivateKeyModel>, j: int)
    requires
        j >= 1,
    ensures
        forall|t: int| j <= t < ks.len() ==> (#[trigger] rederive(ks, j)[t]).4 == 1 && rederive(ks, j)[t].0 == ks[t].0,
    decreases ks.len() - j,
{
    if j < ks.len() {
        let next = ks.update(j, child_of(ks[j - 1], ks[j].0, ks[j].1, 1));
        lemma_rederive_fresh(next, j + 1);
        lemma_rederive_keeps(next, j + 1);
    }
}

pub proof fn lemma_fresh_left(ks: Seq<PrivateKeyModel>, i: int)
    requires
        1 <= i < ks.len(),
        forall|t: int| i <= t < ks.len() ==> (#[trigger] ks[t]).4 == 1,
    ensures
        signings_left(ks, i) == capacity(ks, i) - 1,
    decreases ks.len() - i,
{
    lemma_pow2_pos(ks[i].0.h());
    assert(ks[i].4 == 1);
    if i < ks.len() - 1 {
        lemma_fresh_left(ks, i + 1);
        let p = pow2(ks[i].0.h()) as int;
        let c = capacity(ks, i + 1) as int;
        assert(c - 1 + (p - 1) * c == p * c - 1) by (nonlinear_arith);
    } else {
        assert(capacity(ks, i + 1) == 1);
        assert(pow2(ks[i].0.h()) * 1 == pow2(ks[i].0.h()));
    }
}

pub proof fn lemma_capacity_same(a: Seq<PrivateKeyModel>, b: Seq<PrivateKeyModel>, i: int)
    requires
        a.len() == b.len(),
        forall|t: int| i <= t < a.len() ==> (#[trigger] a[t]).0 == b[t].0,
    ensures
        capacity(a, i) == capacity(b, i),
    decreases a.len() - i,
{
    if i < a.len() {
        lemma_capacity_same(a, b, i + 1);
    }
}

/// Each signing uses up exactly one of the signatures left, and signing fails
/// exactly when none is left.
pub proof fn lemma_signing_counts_down(ks: Seq<PrivateKeyModel>)
    requires
        hss_wf(ks),
    ensures
        lowest_room(ks, ks.len() - 1) < 0 <==> signings_left(ks, 0) == 0,
        signings_left(ks, 0) >= 0,
        lowest_room(ks, ks.len() - 1) >= 0 ==> signings_left(hss_advance(ks), 0) == signings_left(ks, 0) - 1,
{
    let l = ks.len();
    lemma_left_zero(ks, 0);
    lemma_lowest_room_facts(ks, l - 1);
    lemma_lowest_room_range(ks, l - 1);
    let m = lowest_room(ks, l - 1);
    if m < 0 {
        assert forall|j: int| 0 <= j < l implies (#[trigger] ks[j]).4 == pow2(ks[j].0.h()) by {
            assert(private_key_wf(ks[j]));
        }
    } else {
        assert(!(ks[m].4 == pow2(ks[m].0.h())));
        let k = ks[m];
        vstd::arithmetic::power2::lemma2_to64();
        if k.0.h() < 25 {
            vstd::arithmetic::power2::lemma_pow2_strictly_increases(k.0.h(), 25);
        }
        assert(private_key_wf(k));
        let up = ks.update(m, (k.0, k.1, k.2, k.3, (k.4 + 1) as u32));
        let adv = hss_advance(ks);
        lemma_rederive_keeps(up, m + 1);
        lemma_rederive_fresh(up, m + 1);
        lemma_capacity_same(adv, ks, 0);
        assert forall|t: int| 0 <= t < l implies (#[trigger] adv[t]).0 == ks[t].0 by {
            if t > m {
                assert(adv[t].0 == up[t].0);
            }
        }
        if m < l - 1 {
            lemma_fresh_left(adv, m + 1);
            lemma_capacity_same(adv, ks, m + 1);
            assert forall|j: int| m + 1 <= j < l implies (#[trigger] ks[j]).4 == pow2(ks[j].0.h()) by {
                assert(private_key_wf(ks[j]));
            }
            lemma_left_zero(ks, m + 1);
        }
        assert(adv[m] == up[m]);
        assert forall|t: int| 0 <= t < m implies #[trigger] adv[t] == ks[t] by {
            assert(adv[t] == up[t]);
        }
        lemma_advance_count(ks, adv, m, 0);
    }
}

proof fn lemma_advance_count(ks: Seq<PrivateKeyModel>, adv: Seq<PrivateKeyModel>, m: int, i: int)
    requires
        0 <= i <= m < ks.len(),
        adv.len() == ks.len(),
        forall|t: int| 0 <= t < m ==> #[trigger] adv[t] == ks[t],
        adv[m].0 == ks[m].0,
        adv[m].4 == ks[m].4 + 1,
        forall|t: int| 0 <= t < ks.len() ==> (#[trigger] adv[t]).0 == ks[t].0,
        m < ks.len() - 1 ==> signings_left(adv, m + 1) == capacity(ks, m + 1) - 1 && signings_left(ks, m + 1) == 0,
    ensures
        signings_left(adv, i) == signings_left(ks, i) - 1,
    decreases m - i,
{
    lemma_capacity_same(adv, ks, i + 1);
    if i < m {
        lemma_advance_count(ks, adv, m, i + 1);
    } else if m < ks.len() - 1 {
        let p = pow2(ks[m].0.h()) as int;
        let c = capacity(ks, m + 1) as int;
        let q = ks[m].4 as int;
        assert(c - 1 + (p - q - 1) * c == 0 + (p - q) * c - 1) by (nonlinear_arith);
    }
}

/// A freshly generated key can make exactly `capacity(ks, 0)` signatures, the
/// product of `2^h` over its levels.
pub proof fn lemma_initial_left(ks: Seq<PrivateKeyModel>, i: int)
    requires
        0 <= i < ks.len(),
        forall|t: int| 0 <= t < ks.len() ==> (#[trigger] ks[t]).4 == (if t < ks.len() - 1 { 1u32 } else { 0u32 }),
    ensures
        signings_left(ks, i) == capacity(ks, i),
    decreases ks.len() - i,
{
    if i < ks.len() - 1 {
        lemma_initial_left(ks, i + 1);
        let p = pow2(ks[i].0.h()) as int;
        let c = capacity(ks, i + 1) as int;
        assert(c + (p - 1) * c == p * c) by (nonlinear_arith);
    } else {
        assert(capacity(ks, i + 1) == 1);
        assert(pow2(ks[i].0.h()) * 1 == pow2(ks[i].0.h()));
    }
}

} // verus!
