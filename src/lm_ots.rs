use vstd::prelude::*;
use vstd::arithmetic::power2::{pow2, lemma2_to64, lemma_pow2_unfold, lemma_pow2_strictly_increases, lemma_pow2_pos};
use crate::codec::{u32_be, u16_be, u32str, u16str, block, blocks, lemma_blocks, lemma_blocks_ext, subvec};
use crate::hasher::{h256, Sha256Hasher, append};

verus! {

/// The LM-OTS algorithms, one per Winternitz width, all over SHA-256 with n = 32.
#[derive(Debug, Clone, Copy, PartialEq, Eq, Structural)]
pub enum LmotsAlgorithmType {
    LmotsReserved,
    LmotsSha256N32W1,
    LmotsSha256N32W2,
    LmotsSha256N32W4,
    LmotsSha256N32W8,
}

/// The typecode that a given algorithm is written as, or `None` for an unknown one.
pub open spec fn lmots_type_of(x: u32) -> Option<LmotsAlgorithmType> {
    if x == 0 {
        Some(LmotsAlgorithmType::LmotsReserved)
    } else if x == 1 {
        Some(LmotsAlgorithmType::LmotsSha256N32W1)
    } else if x == 2 {
        Some(LmotsAlgorithmType::LmotsSha256N32W2)
    } else if x == 3 {
        Some(LmotsAlgorithmType::LmotsSha256N32W4)
    } else if x == 4 {
        Some(LmotsAlgorithmType::LmotsSha256N32W8)
    } else {
        None
    }
}

impl LmotsAlgorithmType {
    pub open spec fn code(self) -> u32 {
        match self {
            LmotsAlgorithmType::LmotsReserved => 0,
            LmotsAlgorithmType::LmotsSha256N32W1 => 1,
            LmotsAlgorithmType::LmotsSha256N32W2 => 2,
            LmotsAlgorithmType::LmotsSha256N32W4 => 3,
            LmotsAlgorithmType::LmotsSha256N32W8 => 4,
        }
    }

    /// Bits per Winternitz digit.
    pub open spec fn w(self) -> nat {
        match self {
            LmotsAlgorithmType::LmotsReserved => 0,
            LmotsAlgorithmType::LmotsSha256N32W1 => 1,
            LmotsAlgorithmType::LmotsSha256N32W2 => 2,
            LmotsAlgorithmType::LmotsSha256N32W4 => 4,
            LmotsAlgorithmType::LmotsSha256N32W8 => 8,
        }
    }

    /// Number of hash chains.
    pub open spec fn p(self) -> nat {
        match self {
            LmotsAlgorithmType::LmotsReserved => 0,
            LmotsAlgorithmType::LmotsSha256N32W1 => 265,
            LmotsAlgorithmType::LmotsSha256N32W2 => 133,
            LmotsAlgorithmType::LmotsSha256N32W4 => 67,
            LmotsAlgorithmType::LmotsSha256N32W8 => 34,
        }
    }

    /// Left shift applied to the checksum.
    pub open spec fn ls(self) -> nat {
        match self {
            LmotsAlgorithmType::LmotsReserved => 0,
            LmotsAlgorithmType::LmotsSha256N32W1 => 7,
            LmotsAlgorithmType::LmotsSha256N32W2 => 6,
            LmotsAlgorithmType::LmotsSha256N32W4 => 4,
            LmotsAlgorithmType::LmotsSha256N32W8 => 0,
        }
    }

    pub open spec fn is_usable(self) -> bool {
        self != LmotsAlgorithmType::LmotsReserved
    }

    pub fn typecode(self) -> (r: u32)
        ensures
            r == self.code(),
    {
        match self {
            LmotsAlgorithmType::LmotsReserved => 0,
            LmotsAlgorithmType::LmotsSha256N32W1 => 1,
            LmotsAlgorithmType::LmotsSha256N32W2 => 2,
            LmotsAlgorithmType::LmotsSha256N32W4 => 3,
            LmotsAlgorithmType::LmotsSha256N32W8 => 4,
        }
    }

    pub fn from_u32(x: u32) -> (r: Option<LmotsAlgorithmType>)
        ensures
            r == lmots_type_of(x),
    {
        match x {
            0 => Some(LmotsAlgorithmType::LmotsReserved),
            1 => Some(LmotsAlgorithmType::LmotsSha256N32W1),
            2 => Some(LmotsAlgorithmType::LmotsSha256N32W2),
            3 => Some(LmotsAlgorithmType::LmotsSha256N32W4),
            4 => Some(LmotsAlgorithmType::LmotsSha256N32W8),
            _ => None,
        }
    }

    pub fn get_parameter(self) -> (r: LmotsParameter)
        requires
            self.is_usable(),
        ensures
            r._type == self,
            r.n == 32,
            r.w as nat == self.w(),
            r.p as nat == self.p(),
            r.ls as nat == self.ls(),
    {
        match self {
            LmotsAlgorithmType::LmotsSha256N32W1 => LmotsParameter { _type: self, n: 32, w: 1, p: 265, ls: 7 },
            LmotsAlgorithmType::LmotsSha256N32W2 => LmotsParameter { _type: self, n: 32, w: 2, p: 133, ls: 6 },
            LmotsAlgorithmType::LmotsSha256N32W4 => LmotsParameter { _type: self, n: 32, w: 4, p: 67, ls: 4 },
            _ => LmotsParameter { _type: self, n: 32, w: 8, p: 34, ls: 0 },
        }
    }
}

/// The parameters of one LM-OTS algorithm.
#[derive(Debug, Clone, Copy, PartialEq, Eq, Structural)]
pub struct LmotsParameter {
    pub _type: LmotsAlgorithmType,
    pub n: u8,
    pub w: u8,
    pub p: u16,
    pub ls: u8,
}

/// `2^e`.
pub fn pow2_u32(e: u32) -> (r: u32)
    requires
        e < 32,
    ensures
        r as nat == pow2(e as nat),
{
    proof {
        lemma2_to64();
    }
    let mut r: u32 = 1;
    let mut i: u32 = 0;
    while i < e
        invariant
            i <= e < 32,
            r as nat == pow2(i as nat),
        decreases e - i,
    {
        proof {
            lemma_pow2_unfold((i + 1) as nat);
            lemma_pow2_strictly_increases((i + 1) as nat, 32);
            lemma2_to64();
        }
        r = r * 2;
        i = i + 1;
    }
    r
}

/// Largest Winternitz digit, `2^w - 1`: the length of a hash chain.
pub open spec fn max_digit(w: nat) -> nat {
    (pow2(w) - 1) as nat
}

/// The `i`-th `w`-bit digit of `s`, most significant bits first.
pub open spec fn coef(s: Seq<u8>, i: nat, w: nat) -> nat {
    ((s[(i * w / 8) as int] as nat) / pow2((8int - w * (i % (8nat / w)) - w) as nat)) % pow2(w)
}

pub open spec fn width_ok(w: nat) -> bool {
    w == 1 || w == 2 || w == 4 || w == 8
}

pub proof fn lemma_coef_bound(s: Seq<u8>, i: nat, w: nat)
    ensures
        coef(s, i, w) <= max_digit(w),
{
    lemma_pow2_pos(w);
}

fn coef_exec(s: &Vec<u8>, i: usize, w: u8) -> (r: u8)
    requires
        width_ok(w as nat),
        i < 512,
        (i as int) * (w as int) / 8 < s@.len(),
    ensures
        r as nat == coef(s@, i as nat, w as nat),
        r as nat <= max_digit(w as nat),
{
    let wu = w as usize;
    assert(i * wu <= 4096) by (nonlinear_arith)
        requires i < 512, wu <= 8;
    let idx = i * wu / 8;
    let k: usize = if wu == 1 {
        i % 8
    } else if wu == 2 {
        i % 4
    } else if wu == 4 {
        i % 2
    } else {
        0
    };
    assert(k as nat == (i as nat) % (8nat / (wu as nat)) && wu * k + wu <= 8) by {
        if wu == 1 {
            assert(8nat / (wu as nat) == 8) by (nonlinear_arith)
                requires wu == 1;
            assert(k < 8);
            assert(wu * k + wu <= 8) by (nonlinear_arith)
                requires wu == 1, k < 8;
        } else if wu == 2 {
            assert(8nat / (wu as nat) == 4) by (nonlinear_arith)
                requires wu == 2;
            assert(k < 4);
            assert(wu * k + wu <= 8) by (nonlinear_arith)
                requires wu == 2, k < 4;
        } else if wu == 4 {
            assert(8nat / (wu as nat) == 2) by (nonlinear_arith)
                requires wu == 4;
            assert(k < 2);
            assert(wu * k + wu <= 8) by (nonlinear_arith)
                requires wu == 4, k < 2;
        } else {
            assert(8nat / (wu as nat) == 1) by (nonlinear_arith)
                requires wu == 8;
            assert(k < 1);
            assert(wu * k + wu <= 8) by (nonlinear_arith)
                requires wu == 8, k < 1;
        }
    }
    let shift = 8 - wu * k - wu;
    let d = pow2_u32(shift as u32);
    let m = pow2_u32(w as u32);
    proof {
        lemma_pow2_pos(shift as nat);
        lemma_pow2_pos(w as nat);
        lemma2_to64();
        lemma_coef_bound(s@, i as nat, w as nat);
        assert(m <= 256) by {
            if wu == 1 {} else if wu == 2 {} else if wu == 4 {} else {}
        }
    }
    let r = ((s[idx] as u32) / d) % m;
    r as u8
}

/// Domain separator of the public-key hash.
pub open spec fn d_pblc() -> Seq<u8> {
    seq![0x80u8, 0x80u8]
}

/// Domain separator of the message hash.
pub open spec fn d_mesg() -> Seq<u8> {
    seq![0x81u8, 0x81u8]
}

/// The `i`-th secret chain start of leaf `q`, derived from `seed`.
pub open spec fn ots_x(id: Seq<u8>, q: u32, i: int, seed: Seq<u8>) -> Seq<u8> {
    h256(id + u32_be(q) + u16_be(i as u16) + seq![0xffu8] + seed)
}

/// Runs chain `i` of leaf `q` from step `from` up to step `to`, starting at `v`.
pub open spec fn chain(id: Seq<u8>, q: u32, i: int, from: int, to: int, v: Seq<u8>) -> Seq<u8>
    decreases to - from,
{
    if from >= to {
        v
    } else {
        chain(id, q, i, from + 1, to, h256(id + u32_be(q) + u16_be(i as u16) + seq![from as u8] + v))
    }
}

pub proof fn lemma_chain_len(id: Seq<u8>, q: u32, i: int, from: int, to: int, v: Seq<u8>)
    requires
        v.len() == 32,
    ensures
        chain(id, q, i, from, to, v).len() == 32,
    decreases to - from,
{
    if from < to {
        lemma_chain_len(id, q, i, from + 1, to, h256(id + u32_be(q) + u16_be(i as u16) + seq![from as u8] + v));
    }
}

/// Running a chain in two stretches is running it once.
pub proof fn lemma_chain_split(id: Seq<u8>, q: u32, i: int, from: int, mid: int, to: int, v: Seq<u8>)
    requires
        from <= mid <= to,
    ensures
        chain(id, q, i, mid, to, chain(id, q, i, from, mid, v)) == chain(id, q, i, from, to, v),
    decreases mid - from,
{
    if from < mid {
        lemma_chain_split(id, q, i, from + 1, mid, to, h256(id + u32_be(q) + u16_be(i as u16) + seq![from as u8] + v));
    }
}

/// The checksum over the first `n` digits of `s`.
pub open spec fn cksum(s: Seq<u8>, w: nat, n: nat) -> int
    decreases n,
{
    if n == 0 {
        0
    } else {
        cksum(s, w, (n - 1) as nat) + max_digit(w) - coef(s, (n - 1) as nat, w)
    }
}

/// A 32-byte digest followed by its shifted checksum in two bytes.
pub open spec fn expand(d: Seq<u8>, t: LmotsAlgorithmType) -> Seq<u8> {
    d + u16_be((cksum(d, t.w(), 256nat / t.w()) * pow2(t.ls())) as u16)
}

/// The digest that a one-time signature of leaf `q` signs.
pub open spec fn msg_digest(id: Seq<u8>, q: u32, c: Seq<u8>, msg: Seq<u8>) -> Seq<u8> {
    h256(id + u32_be(q) + d_mesg() + c + msg)
}

pub open spec fn x_fn(id: Seq<u8>, q: u32, seed: Seq<u8>) -> spec_fn(int) -> Seq<u8> {
    |i: int| ots_x(id, q, i, seed)
}

pub open spec fn end_fn(id: Seq<u8>, q: u32, t: LmotsAlgorithmType, x: Seq<u8>) -> spec_fn(int) -> Seq<u8> {
    |i: int| chain(id, q, i, 0, max_digit(t.w()) as int, block(x, i))
}

pub open spec fn y_fn(id: Seq<u8>, q: u32, t: LmotsAlgorithmType, x: Seq<u8>, e: Seq<u8>) -> spec_fn(int) -> Seq<u8> {
    |i: int| chain(id, q, i, 0, coef(e, i as nat, t.w()) as int, block(x, i))
}

pub open spec fn z_fn(id: Seq<u8>, q: u32, t: LmotsAlgorithmType, y: Seq<u8>, e: Seq<u8>) -> spec_fn(int) -> Seq<u8> {
    |i: int| chain(id, q, i, coef(e, i as nat, t.w()) as int, max_digit(t.w()) as int, block(y, i))
}

/// The secret chain starts of leaf `q`, one 32-byte block per chain.
pub open spec fn ots_private_bytes(id: Seq<u8>, q: u32, t: LmotsAlgorithmType, seed: Seq<u8>) -> Seq<u8> {
    blocks(x_fn(id, q, seed), t.p())
}

/// The public key `K` of the one-time key with chain starts `x`.
pub open spec fn ots_public_k(id: Seq<u8>, q: u32, t: LmotsAlgorithmType, x: Seq<u8>) -> Seq<u8> {
    h256(id + u32_be(q) + d_pblc() + blocks(end_fn(id, q, t, x), t.p()))
}

/// The one-time signature with randomizer `c`: typecode, `c`, then the chain values.
pub open spec fn ots_signature(id: Seq<u8>, q: u32, t: LmotsAlgorithmType, x: Seq<u8>, c: Seq<u8>, msg: Seq<u8>) -> Seq<u8> {
    u32_be(t.code()) + c + blocks(y_fn(id, q, t, x, expand(msg_digest(id, q, c, msg), t)), t.p())
}

/// The public key that a one-time signature `sig` (typecode, randomizer, chain values)
/// on `msg` points to.
pub open spec fn ots_candidate(id: Seq<u8>, q: u32, t: LmotsAlgorithmType, sig: Seq<u8>, msg: Seq<u8>) -> Seq<u8> {
    let c = sig.subrange(4, 36);
    let y = sig.subrange(36, sig.len() as int);
    h256(id + u32_be(q) + d_pblc() + blocks(z_fn(id, q, t, y, expand(msg_digest(id, q, c, msg), t)), t.p()))
}

/// Length in bytes of a one-time signature.
pub open spec fn ots_signature_len(t: LmotsAlgorithmType) -> nat {
    36 + 32 * t.p()
}

/// A one-time key of leaf `q` of a tree with identifier `I`.
#[allow(non_snake_case)]
pub struct LmotsPrivateKey {
    pub I: Vec<u8>,
    pub q: u32,
    pub lmots_type: LmotsAlgorithmType,
    /// The secret chain starts, 32 bytes each.
    pub key: Vec<u8>,
}

impl LmotsPrivateKey {
    pub open spec fn wf(&self) -> bool {
        &&& self.lmots_type.is_usable()
        &&& self.key@.len() == 32 * self.lmots_type.p()
    }
}

fn hash_chain_step(id: &Vec<u8>, qb: &Vec<u8>, ib: &Vec<u8>, j: u8, v: &Vec<u8>) -> (r: Vec<u8>)
    ensures
        r@ == h256(id@ + qb@ + ib@ + seq![j] + v@),
        r@.len() == 32,
{
    let mut h = Sha256Hasher::new();
    h.update(id.as_slice());
    h.update(qb.as_slice());
    h.update(ib.as_slice());
    let jb: Vec<u8> = vec![j];
    h.update(jb.as_slice());
    h.update(v.as_slice());
    assert(h@ =~= id@ + qb@ + ib@ + seq![j] + v@);
    h.finalize()
}

/// Runs chain `i` of leaf `q` from `from` to `to`.
pub fn chain_exec(id: &Vec<u8>, q: u32, i: u16, from: u8, to: u8, v: Vec<u8>) -> (r: Vec<u8>)
    requires
        from <= to,
    ensures
        r@ == chain(id@, q, i as int, from as int, to as int, v@),
{
    let qb = u32str(q);
    let ib = u16str(i);
    let mut tmp = v;
    let mut j: u8 = from;
    while j < to
        invariant
            from <= j <= to,
            qb@ == u32_be(q),
            ib@ == u16_be(i),
            chain(id@, q, i as int, j as int, to as int, tmp@) == chain(id@, q, i as int, from as int, to as int, v@),
        decreases to - j,
    {
        tmp = hash_chain_step(id, &qb, &ib, j, &tmp);
        j = j + 1;
    }
    tmp
}

/// Derives the value `ots_x(I, q, i, seed)`.
#[allow(non_snake_case)]
pub fn derive_x(I: &Vec<u8>, q: u32, i: u16, seed: &Vec<u8>) -> (r: Vec<u8>)
    ensures
        r@ == ots_x(I@, q, i as int, seed@),
        r@.len() == 32,
{
    let qb = u32str(q);
    let ib = u16str(i);
    let ff: Vec<u8> = vec![0xffu8];
    let mut h = Sha256Hasher::new();
    h.update(I.as_slice());
    h.update(qb.as_slice());
    h.update(ib.as_slice());
    h.update(ff.as_slice());
    h.update(seed.as_slice());
    assert(h@ =~= I@ + u32_be(q) + u16_be(i) + seq![0xffu8] + seed@);
    h.finalize()
}

/// Derives the one-time key of leaf `q` from `seed`.
#[allow(non_snake_case)]
pub fn generate_private_key(q: u32, I: &Vec<u8>, seed: &Vec<u8>, lmots_type: LmotsAlgorithmType) -> (r: LmotsPrivateKey)
    requires
        lmots_type.is_usable(),
    ensures
        r.I@ == I@,
        r.q == q,
        r.lmots_type == lmots_type,
        r.key@ == ots_private_bytes(I@, q, lmots_type, seed@),
        r.wf(),
{
    let p = lmots_type.get_parameter().p;
    let qb = u32str(q);
    let ff: Vec<u8> = vec![0xffu8];
    let mut key: Vec<u8> = Vec::new();
    let mut i: u16 = 0;
    while i < p
        invariant
            i <= p,
            p as nat == lmots_type.p(),
            qb@ == u32_be(q),
            ff@ == seq![0xffu8],
            key@ == blocks(x_fn(I@, q, seed@), i as nat),
            key@.len() == 32 * i,
        decreases p - i,
    {
        let ib = u16str(i);
        let mut h = Sha256Hasher::new();
        h.update(I.as_slice());
        h.update(qb.as_slice());
        h.update(ib.as_slice());
        h.update(ff.as_slice());
        h.update(seed.as_slice());
        assert(h@ =~= I@ + u32_be(q) + u16_be(i) + seq![0xffu8] + seed@);
        let x = h.finalize();
        append(&mut key, x.as_slice());
        i = i + 1;
    }
    let r = LmotsPrivateKey { I: I.clone(), q, lmots_type, key };
    assert(r.I@ == I@);
    r
}

fn max_digit_exec(w: u8) -> (r: u32)
    requires
        width_ok(w as nat),
    ensures
        r as nat == max_digit(w as nat),
        r <= 255,
{
    proof {
        lemma2_to64();
    }
    if w == 1 {
        1
    } else if w == 2 {
        3
    } else if w == 4 {
        15
    } else {
        255
    }
}

fn expand_exec(d: &Vec<u8>, t: LmotsAlgorithmType) -> (r: Vec<u8>)
    requires
        d@.len() == 32,
        t.is_usable(),
    ensures
        r@ == expand(d@, t),
        r@.len() == 34,
{
    let par = t.get_parameter();
    let w = par.w;
    let n: usize = 256 / (w as usize);
    let mx: u32 = max_digit_exec(w);
    proof {
        lemma2_to64();
    }
    let mut sum: u32 = 0;
    let mut i: usize = 0;
    while i < n
        invariant
            i <= n,
            n as nat == 256nat / t.w(),
            n <= 256,
            w as nat == t.w(),
            width_ok(w as nat),
            t.is_usable(),
            d@.len() == 32,
            mx as nat == max_digit(w as nat),
            mx <= 255,
            sum as int == cksum(d@, w as nat, i as nat),
            sum <= i * mx,
        decreases n - i,
    {
        assert((i as int) * (w as int) / 8 < 32) by {
            if w == 1 {
            } else if w == 2 {
            } else if w == 4 {
            } else {
            }
        }
        let a = coef_exec(d, i, w);
        assert(sum + (mx - a) <= (i + 1) * mx && (i + 1) * mx <= 256 * 255) by (nonlinear_arith)
            requires sum <= i * mx, a <= mx, i < n, n <= 256, mx <= 255;
        sum = sum + (mx - a as u32);
        i = i + 1;
    }
    let f = pow2_u32(par.ls as u32);
    assert(sum <= n * mx);
    assert(sum * f < 65536) by {
        if w == 1 {
            assert(n == 256 && mx == 1 && f == 128);
            assert(sum * f < 65536) by (nonlinear_arith) requires sum <= n * mx, n == 256, mx == 1, f == 128;
        } else if w == 2 {
            assert(n == 128 && mx == 3 && f == 64);
            assert(sum * f < 65536) by (nonlinear_arith) requires sum <= n * mx, n == 128, mx == 3, f == 64;
        } else if w == 4 {
            assert(n == 64 && mx == 15 && f == 16);
            assert(sum * f < 65536) by (nonlinear_arith) requires sum <= n * mx, n == 64, mx == 15, f == 16;
        } else {
            assert(n == 32 && mx == 255 && f == 1);
            assert(sum * f < 65536) by (nonlinear_arith) requires sum <= n * mx, n == 32, mx == 255, f == 1;
        }
    }
    let shifted: u16 = (sum * f) as u16;
    let mut r = subvec(d.as_slice(), 0, 32);
    assert(r@ =~= d@);
    let tail = u16str(shifted);
    append(&mut r, tail.as_slice());
    r
}

fn message_digest(id: &Vec<u8>, q: u32, c: &Vec<u8>, message: &[u8]) -> (r: Vec<u8>)
    ensures
        r@ == msg_digest(id@, q, c@, message@),
        r@.len() == 32,
{
    let qb = u32str(q);
    let sep: Vec<u8> = vec![0x81u8, 0x81u8];
    let mut h = Sha256Hasher::new();
    h.update(id.as_slice());
    h.update(qb.as_slice());
    h.update(sep.as_slice());
    h.update(c.as_slice());
    h.update(message);
    assert(h@ =~= id@ + u32_be(q) + d_mesg() + c@ + message@);
    h.finalize()
}

fn public_hash(id: &Vec<u8>, q: u32, ends: &Vec<u8>) -> (r: Vec<u8>)
    ensures
        r@ == h256(id@ + u32_be(q) + d_pblc() + ends@),
        r@.len() == 32,
{
    let qb = u32str(q);
    let sep: Vec<u8> = vec![0x80u8, 0x80u8];
    let mut h = Sha256Hasher::new();
    h.update(id.as_slice());
    h.update(qb.as_slice());
    h.update(sep.as_slice());
    h.update(ends.as_slice());
    assert(h@ =~= id@ + u32_be(q) + d_pblc() + ends@);
    h.finalize()
}

/// The public key `K` of a one-time key.
pub fn generate_public_key(key: &LmotsPrivateKey) -> (r: Vec<u8>)
    requires
        key.wf(),
    ensures
        r@ == ots_public_k(key.I@, key.q, key.lmots_type, key.key@),
        r@.len() == 32,
{
    let t = key.lmots_type;
    let par = t.get_parameter();
    let p = par.p;
    let mx = max_digit_exec(par.w);
    proof {
        lemma2_to64();
    }
    let mut ends: Vec<u8> = Vec::new();
    let mut i: u16 = 0;
    while i < p
        invariant
            i <= p,
            p as nat == t.p(),
            par.w as nat == t.w(),
            key.wf(),
            t == key.lmots_type,
            mx as nat == max_digit(t.w()),
            mx <= 255,
            ends@ == blocks(end_fn(key.I@, key.q, t, key.key@), i as nat),
        decreases p - i,
    {
        let x = subvec(key.key.as_slice(), 32 * i as usize, 32);
        let z = chain_exec(&key.I, key.q, i, 0, mx as u8, x);
        append(&mut ends, z.as_slice());
        i = i + 1;
    }
    public_hash(&key.I, key.q, &ends)
}

/// Signs `message` with a one-time key and the randomizer `c`.
pub fn lmots_sign(key: &LmotsPrivateKey, c: &Vec<u8>, message: &[u8]) -> (r: Vec<u8>)
    requires
        key.wf(),
        c@.len() == 32,
    ensures
        r@ == ots_signature(key.I@, key.q, key.lmots_type, key.key@, c@, message@),
        r@.len() == ots_signature_len(key.lmots_type),
{
    let t = key.lmots_type;
    let par = t.get_parameter();
    let p = par.p;
    let w = par.w;
    let digest = message_digest(&key.I, key.q, c, message);
    let e = expand_exec(&digest, t);
    let mut ys: Vec<u8> = Vec::new();
    let mut i: u16 = 0;
    while i < p
        invariant
            i <= p,
            p as nat == t.p(),
            w as nat == t.w(),
            width_ok(w as nat),
            key.wf(),
            t == key.lmots_type,
            e@.len() == 34,
            ys@ == blocks(y_fn(key.I@, key.q, t, key.key@, e@), i as nat),
            ys@.len() == 32 * i,
        decreases p - i,
    {
        assert((i as int) * (w as int) / 8 < 34) by {
            if w == 1 {
            } else if w == 2 {
            } else if w == 4 {
            } else {
            }
        }
        let a = coef_exec(&e, i as usize, w);
        let x = subvec(key.key.as_slice(), 32 * i as usize, 32);
        let y = chain_exec(&key.I, key.q, i, 0, a, x);
        proof {
            lemma_chain_len(key.I@, key.q, i as int, 0, a as int, x@);
        }
        append(&mut ys, y.as_slice());
        i = i + 1;
    }
    let mut r = u32str(t.typecode());
    append(&mut r, c.as_slice());
    append(&mut r, ys.as_slice());
    r
}

/// The public key that a one-time signature on `message` points to.
pub fn lmots_candidate(id: &Vec<u8>, q: u32, t: LmotsAlgorithmType, sig: &[u8], message: &[u8]) -> (r: Vec<u8>)
    requires
        t.is_usable(),
        sig@.len() == ots_signature_len(t),
    ensures
        r@ == ots_candidate(id@, q, t, sig@, message@),
        r@.len() == 32,
{
    let par = t.get_parameter();
    let p = par.p;
    let w = par.w;
    let mx = max_digit_exec(w);
    proof {
        lemma2_to64();
    }
    let c = subvec(sig, 4, 32);
    let digest = message_digest(id, q, &c, message);
    let e = expand_exec(&digest, t);
    let ghost y = sig@.subrange(36, sig@.len() as int);
    let mut zs: Vec<u8> = Vec::new();
    let mut i: u16 = 0;
    while i < p
        invariant
            i <= p,
            p as nat == t.p(),
            w as nat == t.w(),
            width_ok(w as nat),
            t.is_usable(),
            sig@.len() == ots_signature_len(t),
            y == sig@.subrange(36, sig@.len() as int),
            mx as nat == max_digit(t.w()),
            mx <= 255,
            e@.len() == 34,
            e@ == expand(msg_digest(id@, q, c@, message@), t),
            zs@ == blocks(z_fn(id@, q, t, y, e@), i as nat),
        decreases p - i,
    {
        assert((i as int) * (w as int) / 8 < 34) by {
            if w == 1 {
            } else if w == 2 {
            } else if w == 4 {
            } else {
            }
        }
        let a = coef_exec(&e, i as usize, w);
        let v = subvec(sig, 36 + 32 * i as usize, 32);
        assert(v@ =~= block(y, i as int));
        let z = chain_exec(id, q, i, a, mx as u8, v);
        append(&mut zs, z.as_slice());
        i = i + 1;
    }
    public_hash(id, q, &zs)
}

/// A one-time signature made with chain starts `x` points back to the public key
/// of `x`, whatever the message and randomizer.
pub proof fn lemma_ots_sign_then_candidate(
    id: Seq<u8>,
    q: u32,
    t: LmotsAlgorithmType,
    x: Seq<u8>,
    c: Seq<u8>,
    msg: Seq<u8>,
)
    requires
        t.is_usable(),
        x.len() == 32 * t.p(),
        c.len() == 32,
    ensures
        ots_signature(id, q, t, x, c, msg).len() == ots_signature_len(t),
        ots_candidate(id, q, t, ots_signature(id, q, t, x, c, msg), msg) == ots_public_k(id, q, t, x),
{
    let sig = ots_signature(id, q, t, x, c, msg);
    let e = expand(msg_digest(id, q, c, msg), t);
    let yf = y_fn(id, q, t, x, e);
    let p = t.p();
    assert forall|i: int| 0 <= i < p implies #[trigger] yf(i).len() == 32 by {
        lemma_chain_len(id, q, i, 0, coef(e, i as nat, t.w()) as int, block(x, i));
    }
    lemma_blocks(yf, p);
    let ys = blocks(yf, p);
    assert(sig.subrange(4, 36) =~= c);
    assert(sig.subrange(36, sig.len() as int) =~= ys);
    let zf = z_fn(id, q, t, ys, e);
    let ef = end_fn(id, q, t, x);
    assert forall|i: int| 0 <= i < p implies #[trigger] zf(i) == ef(i) by {
        lemma_coef_bound(e, i as nat, t.w());
        lemma_chain_split(id, q, i, 0, coef(e, i as nat, t.w()) as int, max_digit(t.w()) as int, block(x, i));
    }
    lemma_blocks_ext(zf, ef, p);
}

} // verus!
