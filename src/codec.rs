use vstd::prelude::*;

verus! {

/// Big-endian value of a byte string.
pub open spec fn be_value(s: Seq<u8>) -> nat
    decreases s.len(),
{
    if s.len() == 0 {
        0
    } else {
        be_value(s.drop_last()) * 256 + s.last() as nat
    }
}

/// The four big-endian bytes of `x`.
pub open spec fn u32_be(x: u32) -> Seq<u8> {
    seq![(x / 0x1000000) as u8, ((x / 0x10000) % 256) as u8, ((x / 0x100) % 256) as u8, (x % 256) as u8]
}

/// The two big-endian bytes of `x`.
pub open spec fn u16_be(x: u16) -> Seq<u8> {
    seq![(x / 256) as u8, (x % 256) as u8]
}

pub proof fn lemma_be_value_4(s: Seq<u8>)
    requires
        s.len() == 4,
    ensures
        be_value(s) == s[0] as nat * 0x1000000 + s[1] as nat * 0x10000 + s[2] as nat * 0x100 + s[3] as nat,
        be_value(s) < 0x1_0000_0000,
{
    assert(s.drop_last().drop_last().drop_last().drop_last().len() == 0);
    reveal_with_fuel(be_value, 5);
    assert(s.drop_last()[2] == s[2]);
    assert(s.drop_last().drop_last()[1] == s[1]);
    assert(s.drop_last().drop_last().drop_last()[0] == s[0]);
}

/// Reading four bytes back gives the number written.
pub proof fn lemma_u32_be_round_trip(x: u32)
    ensures
        be_value(u32_be(x)) == x as nat,
        u32_be(x).len() == 4,
{
    lemma_be_value_4(u32_be(x));
    let a = x / 0x1000000;
    let b = (x / 0x10000) % 256;
    let c = (x / 0x100) % 256;
    let d = x % 256;
    assert(a as nat * 0x1000000 + b as nat * 0x10000 + c as nat * 0x100 + d as nat == x as nat) by (nonlinear_arith)
        requires a == x / 0x1000000, b == (x / 0x10000) % 256, c == (x / 0x100) % 256, d == x % 256;
}

/// Writing the value of four bytes gives the bytes back.
pub proof fn lemma_be_value_round_trip(s: Seq<u8>)
    requires
        s.len() == 4,
    ensures
        u32_be(be_value(s) as u32) == s,
{
    lemma_be_value_4(s);
    let x = be_value(s) as u32;
    let (a, b, c, d) = (s[0] as u32, s[1] as u32, s[2] as u32, s[3] as u32);
    assert(x / 0x1000000 == a && (x / 0x10000) % 256 == b && (x / 0x100) % 256 == c && x % 256 == d)
        by (nonlinear_arith)
        requires x == a * 0x1000000 + b * 0x10000 + c * 0x100 + d, a < 256, b < 256, c < 256, d < 256;
    assert(u32_be(x) =~= s);
}

/// The four big-endian bytes of `x`.
pub fn u32str(x: u32) -> (r: Vec<u8>)
    ensures
        r@ == u32_be(x),
{
    vec![(x / 0x1000000) as u8, ((x / 0x10000) % 256) as u8, ((x / 0x100) % 256) as u8, (x % 256) as u8]
}

/// The two big-endian bytes of `x`.
pub fn u16str(x: u16) -> (r: Vec<u8>)
    ensures
        r@ == u16_be(x),
{
    vec![(x / 256) as u8, (x % 256) as u8]
}

/// The `i`-th 32-byte block of `s`.
pub open spec fn block(s: Seq<u8>, i: int) -> Seq<u8> {
    s.subrange(32 * i, 32 * i + 32)
}

/// The concatenation `f(0) + f(1) + ... + f(n - 1)`.
pub open spec fn blocks(f: spec_fn(int) -> Seq<u8>, n: nat) -> Seq<u8>
    decreases n,
{
    if n == 0 {
        Seq::empty()
    } else {
        blocks(f, (n - 1) as nat) + f(n - 1)
    }
}

/// A concatenation of 32-byte pieces is split back into them by `block`.
pub proof fn lemma_blocks(f: spec_fn(int) -> Seq<u8>, n: nat)
    requires
        forall|i: int| 0 <= i < n ==> #[trigger] f(i).len() == 32,
    ensures
        blocks(f, n).len() == 32 * n,
        forall|i: int| 0 <= i < n ==> #[trigger] block(blocks(f, n), i) == f(i),
    decreases n,
{
    if n > 0 {
        let m = (n - 1) as nat;
        lemma_blocks(f, m);
        let b = blocks(f, m);
        assert forall|i: int| 0 <= i < n implies #[trigger] block(blocks(f, n), i) == f(i) by {
            if i < m {
                assert(block(blocks(f, n), i) =~= block(b, i));
            } else {
                assert(block(blocks(f, n), i) =~= f(i));
            }
        }
    }
}

/// Concatenations of pointwise equal pieces are equal.
pub proof fn lemma_blocks_ext(f: spec_fn(int) -> Seq<u8>, g: spec_fn(int) -> Seq<u8>, n: nat)
    requires
        forall|i: int| 0 <= i < n ==> #[trigger] f(i) == g(i),
    ensures
        blocks(f, n) == blocks(g, n),
    decreases n,
{
    if n > 0 {
        lemma_blocks_ext(f, g, (n - 1) as nat);
    }
}

/// A copy of `len` bytes of `data` from `start`.
pub fn subvec(data: &[u8], start: usize, len: usize) -> (r: Vec<u8>)
    requires
        start + len <= data@.len(),
    ensures
        r@ == data@.subrange(start as int, start + len),
{
    let mut r: Vec<u8> = Vec::new();
    let mut i: usize = 0;
    let n: usize = data.len();
    while i < len
        invariant
            i <= len,
            n == data@.len(),
            start + len <= data@.len(),
            r@ == data@.subrange(start as int, start + i),
        decreases len - i,
    {
        r.push(data[start + i]);
        i = i + 1;
        assert(r@ =~= data@.subrange(start as int, start + i));
    }
    r
}

/// Whether two byte strings are equal.
pub fn bytes_eq(a: &[u8], b: &[u8]) -> (r: bool)
    ensures
        r == (a@ == b@),
{
    if a.len() != b.len() {
        return false;
    }
    let mut i: usize = 0;
    while i < a.len()
        invariant
            i <= a@.len() == b@.len(),
            a@.subrange(0, i as int) == b@.subrange(0, i as int),
        decreases a@.len() - i,
    {
        if a[i] != b[i] {
            assert(a@[i as int] != b@[i as int]);
            return false;
        }
        assert(a@.subrange(0, i + 1) =~= a@.subrange(0, i as int).push(a@[i as int]));
        assert(b@.subrange(0, i + 1) =~= b@.subrange(0, i as int).push(b@[i as int]));
        i = i + 1;
    }
    assert(a@ =~= a@.subrange(0, i as int));
    assert(b@ =~= b@.subrange(0, i as int));
    true
}

/// Reads a big-endian `u32` at `at`.
pub fn str32u(data: &[u8], at: usize) -> (r: u32)
    requires
        at + 4 <= data@.len(),
    ensures
        r as nat == be_value(data@.subrange(at as int, at + 4)),
{
    let s = Ghost(data@.subrange(at as int, at + 4));
    proof {
        lemma_be_value_4(s@);
    }
    (data[at] as u32) * 0x1000000 + (data[at + 1] as u32) * 0x10000 + (data[at + 2] as u32) * 0x100
        + (data[at + 3] as u32)
}

} // verus!
