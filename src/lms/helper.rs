use vstd::prelude::*;
use vstd::arithmetic::power2::pow2;
use crate::codec::{u32_be, u32str, be_value, block, blocks, subvec, str32u, bytes_eq};
use crate::hasher::append;
use crate::lms::definitions::LmsError;
use crate::hasher::{h256, Sha256Hasher};
use crate::lm_ots::{LmotsAlgorithmType, ots_public_k, ots_private_bytes, generate_private_key, generate_public_key};
use crate::lms::definitions::{LmsPrivateKey, PrivateKeyModel};

verus! {

/// Domain separator of leaf hashes.
pub open spec fn d_leaf() -> Seq<u8> {
    seq![0x82u8, 0x82u8]
}

/// Domain separator of interior hashes.
pub open spec fn d_intr() -> Seq<u8> {
    seq![0x83u8, 0x83u8]
}

/// The hash of leaf node `r` over the one-time public key `k`.
pub open spec fn leaf_hash(id: Seq<u8>, r: nat, k: Seq<u8>) -> Seq<u8> {
    h256(id + u32_be(r as u32) + d_leaf() + k)
}

/// The hash of interior node `r` over its children `lr`, left then right.
pub open spec fn inner_hash(id: Seq<u8>, r: nat, lr: Seq<u8>) -> Seq<u8> {
    h256(id + u32_be(r as u32) + d_intr() + lr)
}

/// Node `r` of the Merkle tree, in heap order (root 1, leaves `leaves .. 2 * leaves`).
pub open spec fn tree_node(id: Seq<u8>, seed: Seq<u8>, ots: LmotsAlgorithmType, leaves: nat, r: nat) -> Seq<u8>
    decreases (if r >= leaves { 0 } else { leaves - r }),
{
    if r >= leaves {
        let q = (r - leaves) as u32;
        leaf_hash(id, r, ots_public_k(id, q, ots, ots_private_bytes(id, q, ots, seed)))
    } else if r == 0 {
        Seq::empty()
    } else {
        inner_hash(id, r, tree_node(id, seed, ots, leaves, 2 * r) + tree_node(id, seed, ots, leaves, 2 * r + 1))
    }
}

/// Node `r` of the tree of private key `k`.
pub open spec fn key_node(k: PrivateKeyModel, r: nat) -> Seq<u8> {
    tree_node(k.2, k.3, k.1, pow2(k.0.h()), r)
}

/// Cached upper nodes of a tree: `nodes[j]` is node `j + 1`, or empty while unknown.
pub struct MutableExpandedAuxData {
    /// Number of levels kept, counted from the root.
    pub levels: u32,
    pub nodes: Vec<Vec<u8>>,
}

/// Every node that `aux` holds is the node of the tree of `k`.
pub open spec fn aux_ok(aux: MutableExpandedAuxData, k: PrivateKeyModel) -> bool {
    forall|j: int| 0 <= j < aux.nodes@.len() && #[trigger] aux.nodes@[j]@.len() != 0 ==> aux.nodes@[j]@ == key_node(k, (j + 1) as nat)
}

/// No cache, or a cache as `aux_ok` asks.
pub open spec fn aux_ok_opt(aux: Option<MutableExpandedAuxData>, k: PrivateKeyModel) -> bool {
    match aux {
        Some(a) => aux_ok(a, k),
        None => true,
    }
}

/// The cached node `index`, if `aux` holds it.
pub fn hss_extract_aux_data(aux: &MutableExpandedAuxData, index: usize) -> (r: Option<Vec<u8>>)
    ensures
        r is None <==> (index == 0 || index > aux.nodes@.len() || aux.nodes@[index - 1]@.len() == 0),
        r matches Some(v) ==> 1 <= index <= aux.nodes@.len() && v@ == aux.nodes@[index - 1]@ && v@.len() != 0,
{
    if index == 0 || index > aux.nodes.len() {
        return None;
    }
    let v = &aux.nodes[index - 1];
    if v.len() == 0 {
        None
    } else {
        let r = crate::codec::subvec(v.as_slice(), 0, v.len());
        assert(r@ =~= v@);
        Some(r)
    }
}

/// Whether node `r` lies in the subtree under node `i`, heap order.
pub open spec fn in_subtree(r: nat, i: nat) -> bool
    decreases r,
{
    if r < i || i == 0 {
        false
    } else if r == i {
        true
    } else {
        in_subtree(r / 2, i)
    }
}

/// Below node `i`, the subtree splits into those of its two children.
pub proof fn lemma_subtree_split(r: nat, i: nat)
    requires
        i >= 1,
        r > i,
    ensures
        in_subtree(r, i) == (in_subtree(r, 2 * i) || in_subtree(r, 2 * i + 1)),
    decreases r,
{
    let h = r / 2;
    assert(in_subtree(r, i) == in_subtree(h, i));
    if h > i {
        lemma_subtree_split(h, i);
        assert(r > 2 * i + 1);
        assert(in_subtree(r, 2 * i) == in_subtree(h, 2 * i));
        assert(in_subtree(r, 2 * i + 1) == in_subtree(h, 2 * i + 1));
    } else if h == i {
        assert(r == 2 * i || r == 2 * i + 1);
        assert(in_subtree(h, i));
        assert(in_subtree(r, r));
    } else {
        assert(r < 2 * i);
        assert(!in_subtree(h, i));
        assert(!in_subtree(r, 2 * i));
        assert(!in_subtree(r, 2 * i + 1));
    }
}

/// Every node lies under the root.
pub proof fn lemma_subtree_root(r: nat)
    requires
        r >= 1,
    ensures
        in_subtree(r, 1),
    decreases r,
{
    if r > 1 {
        lemma_subtree_root(r / 2);
    }
}

/// `a` is `b` with each slot of a tree node under `index` set to that node of `k`.
pub open spec fn aux_filled(a: MutableExpandedAuxData, b: MutableExpandedAuxData, k: PrivateKeyModel, index: nat) -> bool {
    &&& a.levels == b.levels
    &&& a.nodes@.len() == b.nodes@.len()
    &&& forall|j: int| 0 <= j < a.nodes@.len() ==> (#[trigger] a.nodes@[j])@ == (if in_subtree((j + 1) as nat, index)
        && j + 1 < 2 * pow2(k.0.h()) {
        key_node(k, (j + 1) as nat)
    } else {
        b.nodes@[j]@
    })
}

/// A cache before and after computing node `index`: none stays none, and a
/// cache gets the nodes of the subtree under `index`.
pub open spec fn aux_step(before: Option<MutableExpandedAuxData>, after: Option<MutableExpandedAuxData>, k: PrivateKeyModel, index: nat) -> bool {
    match (before, after) {
        (Some(b), Some(a)) => aux_filled(a, b, k, index),
        (None, None) => true,
        _ => false,
    }
}

/// Stores `value` as node `index`, where `aux` has room for it.
pub fn hss_save_aux_data(aux: &mut MutableExpandedAuxData, index: usize, value: &[u8])
    ensures
        final(aux).levels == old(aux).levels,
        final(aux).nodes@.len() == old(aux).nodes@.len(),
        forall|j: int| 0 <= j < old(aux).nodes@.len() ==> #[trigger] final(aux).nodes@[j]@ == if j == index - 1 {
            value@
        } else {
            old(aux).nodes@[j]@
        },
{
    if index == 0 || index > aux.nodes.len() {
        return;
    }
    let v = crate::codec::subvec(value, 0, value.len());
    aux.nodes.set(index - 1, v);
}

/// `H(I || r || sep sep || left || right)`.
pub(crate) fn node_hash(id: &Vec<u8>, r: u32, sep: u8, left: &[u8], right: &[u8]) -> (r_: Vec<u8>)
    ensures
        r_@ == h256(id@ + u32_be(r) + seq![sep, sep] + (left@ + right@)),
        r_@.len() == 32,
{
    let rb = u32str(r);
    let d: Vec<u8> = vec![sep, sep];
    let mut h = Sha256Hasher::new();
    h.update(id.as_slice());
    h.update(rb.as_slice());
    h.update(d.as_slice());
    h.update(left);
    h.update(right);
    assert(h@ =~= id@ + u32_be(r) + seq![sep, sep] + (left@ + right@));
    h.finalize()
}

/// Computes node `index` of the tree of `private_key`, storing what it computes
/// in `aux_data` where that has room.
pub fn get_tree_element(index: usize, private_key: &LmsPrivateKey, aux_data: &mut Option<MutableExpandedAuxData>) -> (r: Vec<u8>)
    requires
        private_key.wf(),
        1 <= index < 2 * pow2(private_key.lms_type.h()),
        aux_ok_opt(*old(aux_data), private_key@),
    ensures
        r@ == key_node(private_key@, index as nat),
        r@.len() == 32,
        aux_step(*old(aux_data), *final(aux_data), private_key@, index as nat),
        aux_ok_opt(*final(aux_data), private_key@),
    decreases (if index >= pow2(private_key.lms_type.h()) { 0 } else { pow2(private_key.lms_type.h()) - index }),
{
    let leaves = private_key.lms_type.get_parameter().number_of_lm_ots_keys();
    let ghost k = private_key@;
    let ghost a0 = *aux_data;
    let ghost top = 2 * pow2(k.0.h());
    let result = if index >= leaves {
        let q = (index - leaves) as u32;
        let ots = generate_private_key(q, &private_key.I, &private_key.seed, private_key.lm_ots_type);
        let k = generate_public_key(&ots);
        let empty: Vec<u8> = Vec::new();
        let v = node_hash(&private_key.I, index as u32, 0x82, k.as_slice(), empty.as_slice());
        assert(k@ + empty@ =~= k@);
        v
    } else {
        let left = get_tree_element(2 * index, private_key, aux_data);
        let ghost a1 = *aux_data;
        let right = get_tree_element(2 * index + 1, private_key, aux_data);
        let ghost a2 = *aux_data;
        proof {
            if a0 is Some {
                let (b0, b1, b2) = (a0->Some_0, a1->Some_0, a2->Some_0);
                assert forall|j: int| 0 <= j < b2.nodes@.len() && (j + 1) as nat != index as nat implies (#[trigger] b2.nodes@[j])@
                    == (if in_subtree((j + 1) as nat, index as nat) && j + 1 < top { key_node(k, (j + 1) as nat) } else { b0.nodes@[j]@ }) by {
                    assert(b1.nodes@[j]@ == b1.nodes@[j]@);
                    if (j + 1) as nat > index as nat {
                        lemma_subtree_split((j + 1) as nat, index as nat);
                    }
                }
            }
        }
        node_hash(&private_key.I, index as u32, 0x83, left.as_slice(), right.as_slice())
    };
    let ghost a2 = *aux_data;
    proof {
        if a0 is Some {
            let (b0, b2) = (a0->Some_0, a2->Some_0);
            if index >= leaves {
                assert forall|j: int| 0 <= j < b2.nodes@.len() && (j + 1) as nat != index as nat implies (#[trigger] b2.nodes@[j])@
                    == (if in_subtree((j + 1) as nat, index as nat) && j + 1 < top { key_node(k, (j + 1) as nat) } else { b0.nodes@[j]@ }) by {
                    if in_subtree((j + 1) as nat, index as nat) && (j + 1) as nat > index as nat {
                        assert(in_subtree((j + 1) as nat / 2, index as nat));
                        assert((j + 1) as nat / 2 >= index as nat);
                    }
                }
            }
        }
    }
    assert(seq![0x82u8, 0x82u8] == d_leaf());
    assert(seq![0x83u8, 0x83u8] == d_intr());
    assert(result@ == key_node(private_key@, index as nat));
    match aux_data {
        Some(a) => {
            hss_save_aux_data(a, index, result.as_slice());
        },
        None => {},
    }
    proof {
        if a0 is Some {
            let (b0, b2, b3) = (a0->Some_0, a2->Some_0, aux_data->Some_0);
            assert forall|j: int| 0 <= j < b3.nodes@.len() implies (#[trigger] b3.nodes@[j])@
                == (if in_subtree((j + 1) as nat, index as nat) && j + 1 < top { key_node(k, (j + 1) as nat) } else { b0.nodes@[j]@ }) by {
                assert(b2.nodes@[j]@ == b2.nodes@[j]@);
            }
        }
    }
    result
}

/// Node `index` of the tree of `private_key`, taken from `aux_data` where that
/// holds it.
pub fn get_tree_element_signing(index: usize, private_key: &LmsPrivateKey, aux_data: Option<&MutableExpandedAuxData>) -> (r: Vec<u8>)
    requires
        private_key.wf(),
        1 <= index < 2 * pow2(private_key.lms_type.h()),
    ensures
        (aux_data matches Some(a) ==> aux_ok(*a, private_key@)) ==> r@ == key_node(private_key@, index as nat),
        r@.len() == 32 || aux_data is Some,
{
    if let Some(aux) = aux_data {
        if let Some(result) = hss_extract_aux_data(aux, index) {
            return result;
        }
    }
    let mut none: Option<MutableExpandedAuxData> = None;
    get_tree_element(index, private_key, &mut none)
}

/// The largest number of levels, at most `h + 1`, whose nodes, header and MAC fit
/// in `budget` bytes (a level count `k` takes `4 + 32 * 2^k` bytes).
pub open spec fn levels_fit(budget: nat, h: nat, k: nat) -> bool {
    &&& k <= h + 1
    &&& (k == 0 || 4 + 32 * pow2(k) <= budget)
    &&& (k == h + 1 || 4 + 32 * pow2(k + 1) > budget)
}

impl MutableExpandedAuxData {
    /// An empty cache with as many levels as fit in `budget` bytes.
    pub fn new(budget: usize, lms_type: crate::lms::definitions::LmsAlgorithmType) -> (r: Self)
        requires
            lms_type.is_usable(),
        ensures
            levels_fit(budget as nat, lms_type.h(), r.levels as nat),
            r.nodes@.len() == pow2(r.levels as nat) - 1,
            forall|j: int| 0 <= j < r.nodes@.len() ==> (#[trigger] r.nodes@[j])@.len() == 0,
    {
        let h = lms_type.get_parameter().h as u32;
        proof {
            vstd::arithmetic::power2::lemma2_to64();
        }
        let mut k: u32 = 0;
        while k < h + 1 && (budget as u64) >= 4 + 32 * (crate::lm_ots::pow2_u32(k + 1) as u64)
            invariant
                h <= 25,
                k <= h + 1,
                k == 0 || 4 + 32 * pow2(k as nat) <= budget,
            decreases h + 1 - k,
        {
            k = k + 1;
        }
        let count = crate::lm_ots::pow2_u32(k) - 1;
        let mut nodes: Vec<Vec<u8>> = Vec::new();
        let mut j: u32 = 0;
        while j < count
            invariant
                j <= count,
                nodes@.len() == j,
                forall|i: int| 0 <= i < j ==> (#[trigger] nodes@[i])@.len() == 0,
            decreases count - j,
        {
            nodes.push(Vec::new());
            j = j + 1;
        }
        MutableExpandedAuxData { levels: k, nodes }
    }
}

pub open spec fn node_fn(aux: MutableExpandedAuxData) -> spec_fn(int) -> Seq<u8> {
    |j: int| aux.nodes@[j]@
}

/// The MAC of an aux body under the key `k`: `H(seed || I || body)`.
pub open spec fn aux_mac(k: PrivateKeyModel, body: Seq<u8>) -> Seq<u8> {
    h256(k.3 + k.2 + body)
}

/// The byte form of a cache: level mask, the nodes in heap order, the MAC.
pub open spec fn aux_bytes(aux: MutableExpandedAuxData, k: PrivateKeyModel) -> Seq<u8> {
    let body = blocks(node_fn(aux), aux.nodes@.len());
    u32_be((pow2(aux.levels as nat) - 1) as u32) + body + aux_mac(k, body)
}

/// Whether `data` is a cache of `lv` levels with a MAC that matches the key `k`.
pub open spec fn aux_parse_ok(data: Seq<u8>, k: PrivateKeyModel, lv: nat) -> bool {
    &&& lv <= k.0.h() + 1
    &&& data.len() == 4 + 32 * pow2(lv)
    &&& be_value(data.subrange(0, 4)) == pow2(lv) - 1
    &&& data.subrange(data.len() - 32, data.len() as int) == aux_mac(k, data.subrange(4, data.len() - 32))
}

fn mac_exec(private_key: &LmsPrivateKey, body: &[u8]) -> (r: Vec<u8>)
    ensures
        r@ == aux_mac(private_key@, body@),
        r@.len() == 32,
{
    let mut h = Sha256Hasher::new();
    h.update(private_key.seed.as_slice());
    h.update(private_key.I.as_slice());
    h.update(body);
    h.finalize()
}

/// The byte form of a cache, bound to `private_key` by its MAC.
pub fn hss_finalize_aux_data(aux: &MutableExpandedAuxData, private_key: &LmsPrivateKey) -> (r: Vec<u8>)
    requires
        aux.levels < 32,
    ensures
        r@ == aux_bytes(*aux, private_key@),
{
    let span = crate::lm_ots::pow2_u32(aux.levels);
    proof {
        vstd::arithmetic::power2::lemma_pow2_pos(aux.levels as nat);
    }
    let mask = span - 1;
    let mut body: Vec<u8> = Vec::new();
    let mut j: usize = 0;
    while j < aux.nodes.len()
        invariant
            j <= aux.nodes@.len(),
            body@ == blocks(node_fn(*aux), j as nat),
        decreases aux.nodes@.len() - j,
    {
        append(&mut body, aux.nodes[j].as_slice());
        j = j + 1;
    }
    let mac = mac_exec(private_key, body.as_slice());
    let mut r = u32str(mask);
    append(&mut r, body.as_slice());
    append(&mut r, mac.as_slice());
    r
}

/// The level count `k <= h + 1` whose mask `2^k - 1` is `mask`, if any.
fn mask_levels(mask: u32, h: u32) -> (r: Option<u32>)
    requires
        h <= 25,
    ensures
        r matches Some(k) ==> k <= h + 1 && pow2(k as nat) - 1 == mask as int,
        r is None ==> forall|lv: nat| lv <= h + 1 ==> pow2(lv) - 1 != mask as int,
{
    let mut k: u32 = 0;
    while k <= h + 1
        invariant
            h <= 25,
            k <= h + 2,
            forall|lv: nat| lv < k ==> pow2(lv) - 1 != mask as int,
        decreases h + 2 - k,
    {
        let span = crate::lm_ots::pow2_u32(k);
        proof {
            vstd::arithmetic::power2::lemma_pow2_pos(k as nat);
        }
        if span - 1 == mask {
            return Some(k);
        }
        k = k + 1;
    }
    None
}

/// Reads a cache written for `private_key`; `AuxInvalid` where the size, the
/// level mask or the MAC is wrong.
pub fn hss_expand_aux_data(data: &[u8], private_key: &LmsPrivateKey) -> (r: Result<MutableExpandedAuxData, LmsError>)
    requires
        private_key.wf(),
    ensures
        r matches Ok(a) ==> {
            &&& aux_parse_ok(data@, private_key@, a.levels as nat)
            &&& a.nodes@.len() == pow2(a.levels as nat) - 1
            &&& forall|j: int| 0 <= j < a.nodes@.len() ==> (#[trigger] a.nodes@[j])@ == block(data@.subrange(4, data@.len() - 32), j)
        },
        r matches Err(e) ==> e == LmsError::AuxInvalid && forall|lv: nat| !#[trigger] aux_parse_ok(data@, private_key@, lv),
{
    let h = private_key.lms_type.get_parameter().h as u32;
    proof {
        vstd::arithmetic::power2::lemma2_to64();
    }
    if data.len() < 4 {
        return Err(LmsError::AuxInvalid);
    }
    let mask = str32u(data, 0);
    let k = match mask_levels(mask, h) {
        Some(k) => k,
        None => {
            return Err(LmsError::AuxInvalid);
        },
    };
    proof {
        vstd::arithmetic::power2::lemma_pow2_pos(k as nat);
        if k < 26 {
            vstd::arithmetic::power2::lemma_pow2_strictly_increases(k as nat, 26);
        }
    }
    let count = (crate::lm_ots::pow2_u32(k) - 1) as usize;
    if data.len() != 4 + 32 * count + 32 {
        assert forall|lv: nat| !#[trigger] aux_parse_ok(data@, private_key@, lv) by {
            if lv < k {
            } else if lv > k {
                vstd::arithmetic::power2::lemma_pow2_strictly_increases(k as nat, lv);
            }
        }
        return Err(LmsError::AuxInvalid);
    }
    let body = subvec(data, 4, 32 * count);
    let stored = subvec(data, 4 + 32 * count, 32);
    let mac = mac_exec(private_key, body.as_slice());
    if !bytes_eq(mac.as_slice(), stored.as_slice()) {
        assert forall|lv: nat| !#[trigger] aux_parse_ok(data@, private_key@, lv) by {
            if lv < k {
            } else if lv > k {
                vstd::arithmetic::power2::lemma_pow2_strictly_increases(k as nat, lv);
            }
        }
        return Err(LmsError::AuxInvalid);
    }
    let mut nodes: Vec<Vec<u8>> = Vec::new();
    let mut j: usize = 0;
    while j < count
        invariant
            j <= count,
            count <= 0x400_0000,
            body@.len() == 32 * count,
            nodes@.len() == j,
            forall|i: int| 0 <= i < j ==> (#[trigger] nodes@[i])@ == block(body@, i),
        decreases count - j,
    {
        let v = subvec(body.as_slice(), 32 * j, 32);
        nodes.push(v);
        j = j + 1;
    }
    Ok(MutableExpandedAuxData { levels: k, nodes })
}

} // verus!
