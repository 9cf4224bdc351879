use vstd::prelude::*;

verus! {

/// The SHA-256 digest of a byte string.
pub uninterp spec fn sha256_of(data: Seq<u8>) -> Seq<u8>;

/// The 32-byte SHA-256 digest of `data`. It is `sha256_of(data)` on every
/// value that `sha256` hands out, and has 32 bytes whatever it is applied to.
pub open spec fn h256(data: Seq<u8>) -> Seq<u8> {
    if sha256_of(data).len() == 32 {
        sha256_of(data)
    } else {
        Seq::new(32, |i: int| 0u8)
    }
}

/// Relies on sha2's `Sha256::digest`: it returns the SHA-256 digest of the
/// bytes, which is 32 bytes long and depends on the bytes alone.
#[verifier::external_body]
fn sha256(data: &Vec<u8>) -> (r: Vec<u8>)
    ensures
        r@ == sha256_of(data@),
        r@.len() == 32,
{
    <sha2::Sha256 as sha2::Digest>::digest(data.as_slice()).to_vec()
}

/// A hash computation in progress: it holds the bytes fed so far.
pub struct Sha256Hasher {
    data: Vec<u8>,
}

impl View for Sha256Hasher {
    type V = Seq<u8>;

    closed spec fn view(&self) -> Seq<u8> {
        self.data@
    }
}

/// Appends `bytes` to `out`.
pub fn append(out: &mut Vec<u8>, bytes: &[u8])
    ensures
        final(out)@ == old(out)@ + bytes@,
{
    let mut i: usize = 0;
    while i < bytes.len()
        invariant
            i <= bytes@.len(),
            out@ == old(out)@ + bytes@.subrange(0, i as int),
        decreases bytes@.len() - i,
    {
        out.push(bytes[i]);
        i = i + 1;
        assert(bytes@.subrange(0, i as int) == bytes@.subrange(0, i - 1 as int).push(bytes@[i - 1]));
    }
    assert(bytes@.subrange(0, i as int) == bytes@);
}

impl Sha256Hasher {
    pub fn new() -> (r: Sha256Hasher)
        ensures
            r@ == Seq::<u8>::empty(),
    {
        Sha256Hasher { data: Vec::new() }
    }

    pub fn update(&mut self, bytes: &[u8])
        ensures
            final(self)@ == old(self)@ + bytes@,
    {
        append(&mut self.data, bytes);
    }

    pub fn finalize(self) -> (r: Vec<u8>)
        ensures
            r@ == sha256_of(self@),
            r@ == h256(self@),
            r@.len() == 32,
    {
        sha256(&self.data)
    }
}

} // verus!
