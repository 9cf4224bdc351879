use vstd::prelude::*;
use vstd::arithmetic::power2::{pow2, lemma2_to64};
use crate::codec::{u32_be, be_value, u32str, str32u, subvec, lemma_u32_be_round_trip, lemma_be_value_4};
use crate::hasher::{Sha256Hasher, append};
use crate::lm_ots::{LmotsAlgorithmType, lmots_type_of};

verus! {

/// The LMS tree heights, all over SHA-256 with m = 32.
#[derive(Debug, Clone, Copy, PartialEq, Eq, Structural)]
pub enum LmsAlgorithmType {
    LmsReserved,
    LmsSha256M32H5,
    LmsSha256M32H10,
    LmsSha256M32H15,
    LmsSha256M32H20,
    LmsSha256M32H25,
}

/// The algorithm a typecode stands for, or `None` for an unknown one.
pub open spec fn lms_type_of(x: u32) -> Option<LmsAlgorithmType> {
    if x == 0 {
        Some(LmsAlgorithmType::LmsReserved)
    } else if x == 5 {
        Some(LmsAlgorithmType::LmsSha256M32H5)
    } else if x == 6 {
        Some(LmsAlgorithmType::LmsSha256M32H10)
    } else if x == 7 {
        Some(LmsAlgorithmType::LmsSha256M32H15)
    } else if x == 8 {
        Some(LmsAlgorithmType::LmsSha256M32H20)
    } else if x == 9 {
        Some(LmsAlgorithmType::LmsSha256M32H25)
    } else {
        None
    }
}

/// Error kinds of this library.
#[derive(Debug, Clone, Copy, PartialEq, Eq, Structural)]
pub enum LmsError {
    /// A serialized structure has an unknown typecode or a wrong length.
    ParseError,
    /// No unused leaf is left.
    KeyExhausted,
    /// An aux cache has the wrong size or a MAC that does not match.
    AuxInvalid,
}

impl LmsAlgorithmType {
    pub open spec fn code(self) -> u32 {
        match self {
            LmsAlgorithmType::LmsReserved => 0,
            LmsAlgorithmType::LmsSha256M32H5 => 5,
            LmsAlgorithmType::LmsSha256M32H10 => 6,
            LmsAlgorithmType::LmsSha256M32H15 => 7,
            LmsAlgorithmType::LmsSha256M32H20 => 8,
            LmsAlgorithmType::LmsSha256M32H25 => 9,
        }
    }

    /// Tree height.
    pub open spec fn h(self) -> nat {
        match self {
            LmsAlgorithmType::LmsReserved => 0,
            LmsAlgorithmType::LmsSha256M32H5 => 5,
            LmsAlgorithmType::LmsSha256M32H10 => 10,
            LmsAlgorithmType::LmsSha256M32H15 => 15,
            LmsAlgorithmType::LmsSha256M32H20 => 20,
            LmsAlgorithmType::LmsSha256M32H25 => 25,
        }
    }

    pub open spec fn is_usable(self) -> bool {
        self != LmsAlgorithmType::LmsReserved
    }

    pub fn typecode(self) -> (r: u32)
        ensures
            r == self.code(),
    {
        match self {
            LmsAlgorithmType::LmsReserved => 0,
            LmsAlgorithmType::LmsSha256M32H5 => 5,
            LmsAlgorithmType::LmsSha256M32H10 => 6,
            LmsAlgorithmType::LmsSha256M32H15 => 7,
            LmsAlgorithmType::LmsSha256M32H20 => 8,
            LmsAlgorithmType::LmsSha256M32H25 => 9,
        }
    }

    pub fn get_parameter(self) -> (r: LmsAlgorithmParameter)
        requires
            self.is_usable(),
        ensures
            r._type == self,
            r.h as nat == self.h(),
            r.m == 32,
    {
        LmsAlgorithmParameter::get(self)
    }

    pub fn from_u32(x: u32) -> (r: Option<LmsAlgorithmType>)
        ensures
            r == lms_type_of(x),
    {
        match x {
            0 => Some(LmsAlgorithmType::LmsReserved),
            5 => Some(LmsAlgorithmType::LmsSha256M32H5),
            6 => Some(LmsAlgorithmType::LmsSha256M32H10),
            7 => Some(LmsAlgorithmType::LmsSha256M32H15),
            8 => Some(LmsAlgorithmType::LmsSha256M32H20),
            9 => Some(LmsAlgorithmType::LmsSha256M32H25),
            _ => None,
        }
    }
}

/// Reading back the typecode of an algorithm gives the algorithm.
pub proof fn lemma_type_codes(a: LmsAlgorithmType, b: LmotsAlgorithmType)
    ensures
        lms_type_of(a.code()) == Some(a),
        lmots_type_of(b.code()) == Some(b),
{
}

/// The parameters of one LMS algorithm.
#[derive(Debug, Clone, Copy, PartialEq, Eq, Structural)]
pub struct LmsAlgorithmParameter {
    pub h: u8,
    pub m: u8,
    pub _type: LmsAlgorithmType,
}

impl LmsAlgorithmParameter {
    pub fn get(_type: LmsAlgorithmType) -> (r: Self)
        requires
            _type.is_usable(),
        ensures
            r._type == _type,
            r.h as nat == _type.h(),
            r.m == 32,
    {
        match _type {
            LmsAlgorithmType::LmsSha256M32H5 => LmsAlgorithmParameter::internal_get(5, 32, _type),
            LmsAlgorithmType::LmsSha256M32H10 => LmsAlgorithmParameter::internal_get(10, 32, _type),
            LmsAlgorithmType::LmsSha256M32H15 => LmsAlgorithmParameter::internal_get(15, 32, _type),
            LmsAlgorithmType::LmsSha256M32H20 => LmsAlgorithmParameter::internal_get(20, 32, _type),
            _ => LmsAlgorithmParameter::internal_get(25, 32, _type),
        }
    }

    fn internal_get(h: u8, m: u8, _type: LmsAlgorithmType) -> (r: Self)
        ensures
            r.h == h,
            r.m == m,
            r._type == _type,
    {
        LmsAlgorithmParameter { h, m, _type }
    }

    /// A fresh hash computation of the algorithm's hash function.
    pub fn get_hasher(&self) -> (r: Sha256Hasher)
        requires
            self._type.is_usable(),
        ensures
            r@ == Seq::<u8>::empty(),
    {
        Sha256Hasher::new()
    }

    /// Number of leaves, `2^h`.
    pub fn number_of_lm_ots_keys(&self) -> (r: usize)
        requires
            self.h <= 25,
        ensures
            r as nat == pow2(self.h as nat),
            r <= 0x200_0000,
    {
        let r = crate::lm_ots::pow2_u32(self.h as u32);
        proof {
            if self.h < 25 {
                vstd::arithmetic::power2::lemma_pow2_strictly_increases(self.h as nat, 25);
            }
            lemma2_to64();
        }
        r as usize
    }
}

/// Model of an LMS private key: algorithms, identifier, seed, next leaf.
pub type PrivateKeyModel = (LmsAlgorithmType, LmotsAlgorithmType, Seq<u8>, Seq<u8>, u32);

/// Model of an LMS public key: algorithms, identifier, root.
pub type PublicKeyModel = (LmsAlgorithmType, LmotsAlgorithmType, Seq<u8>, Seq<u8>);

/// An LMS private key. Its `2^h` one-time keys are derived on demand from
/// `seed` and `I`; `q` is the next leaf to use.
#[allow(non_snake_case)]
pub struct LmsPrivateKey {
    pub lms_type: LmsAlgorithmType,
    pub lm_ots_type: LmotsAlgorithmType,
    pub I: Vec<u8>,
    pub seed: Vec<u8>,
    pub q: u32,
}

pub open spec fn private_key_wf(k: PrivateKeyModel) -> bool {
    &&& k.0.is_usable()
    &&& k.1.is_usable()
    &&& k.2.len() == 16
    &&& k.3.len() == 32
    &&& k.4 as nat <= pow2(k.0.h())
}

/// Wire form of a private key: lms typecode, lmots typecode, I, q, seed.
pub open spec fn private_key_bytes(k: PrivateKeyModel) -> Seq<u8> {
    u32_be(k.0.code()) + u32_be(k.1.code()) + k.2 + u32_be(k.4) + k.3
}

/// What a byte string holds as a private key, if anything.
pub open spec fn parse_private_key(d: Seq<u8>) -> Option<PrivateKeyModel> {
    if d.len() != 60 {
        None
    } else {
        match (lms_type_of(be_value(d.subrange(0, 4)) as u32), lmots_type_of(be_value(d.subrange(4, 8)) as u32)) {
            (Some(a), Some(b)) => {
                let k = (a, b, d.subrange(8, 24), d.subrange(28, 60), be_value(d.subrange(24, 28)) as u32);
                if private_key_wf(k) {
                    Some(k)
                } else {
                    None
                }
            },
            _ => None,
        }
    }
}

impl View for LmsPrivateKey {
    type V = PrivateKeyModel;

    open spec fn view(&self) -> PrivateKeyModel {
        (self.lms_type, self.lm_ots_type, self.I@, self.seed@, self.q)
    }
}

#[allow(non_snake_case)]
impl LmsPrivateKey {
    pub open spec fn wf(&self) -> bool {
        private_key_wf(self@)
    }

    /// A copy of the key.
    pub fn copy_key(&self) -> (r: Self)
        ensures
            r@ == self@,
    {
        let i = subvec(self.I.as_slice(), 0, self.I.len());
        let seed = subvec(self.seed.as_slice(), 0, self.seed.len());
        assert(i@ =~= self.I@);
        assert(seed@ =~= self.seed@);
        LmsPrivateKey { lms_type: self.lms_type, lm_ots_type: self.lm_ots_type, I: i, seed, q: self.q }
    }

    /// A key whose next leaf is the first.
    pub fn new(lms_type: LmsAlgorithmType, lmots_type: LmotsAlgorithmType, seed: Vec<u8>, I: Vec<u8>) -> (r: Self)
        requires
            lms_type.is_usable(),
            lmots_type.is_usable(),
            seed@.len() == 32,
            I@.len() == 16,
        ensures
            r@ == (lms_type, lmots_type, I@, seed@, 0u32),
            r.wf(),
    {
        proof {
            vstd::arithmetic::power2::lemma_pow2_pos(lms_type.h());
        }
        LmsPrivateKey { lms_type, lm_ots_type: lmots_type, I, seed, q: 0 }
    }

    /// Hands out the one-time key of the next leaf and marks the leaf used.
    pub fn use_lmots_private_key(&mut self) -> (r: Result<crate::lm_ots::LmotsPrivateKey, LmsError>)
        requires
            old(self).wf(),
        ensures
            final(self).wf(),
            (old(self).q as nat) >= pow2(old(self).lms_type.h()) ==> r == Err::<crate::lm_ots::LmotsPrivateKey, LmsError>(LmsError::KeyExhausted) && final(self)@ == old(self)@,
            (old(self).q as nat) < pow2(old(self).lms_type.h()) ==> {
                &&& final(self)@ == (old(self).lms_type, old(self).lm_ots_type, old(self).I@, old(self).seed@, (old(self).q + 1) as u32)
                &&& r matches Ok(k)
                &&& k.I@ == old(self).I@
                &&& k.q == old(self).q
                &&& k.lmots_type == old(self).lm_ots_type
                &&& k.key@ == crate::lm_ots::ots_private_bytes(old(self).I@, old(self).q, old(self).lm_ots_type, old(self).seed@)
                &&& k.wf()
            },
    {
        let leaves = self.lms_type.get_parameter().number_of_lm_ots_keys();
        if self.q as usize >= leaves {
            return Err(LmsError::KeyExhausted);
        }
        let k = crate::lm_ots::generate_private_key(self.q, &self.I, &self.seed, self.lm_ots_type);
        self.q = self.q + 1;
        Ok(k)
    }

    pub fn to_binary_representation(&self) -> (r: Vec<u8>)
        ensures
            r@ == private_key_bytes(self@),
    {
        let mut result = u32str(self.lms_type.typecode());
        let b = u32str(self.lm_ots_type.typecode());
        append(&mut result, b.as_slice());
        append(&mut result, self.I.as_slice());
        let b = u32str(self.q);
        append(&mut result, b.as_slice());
        append(&mut result, self.seed.as_slice());
        result
    }

    /// Reads a private key written by `to_binary_representation`.
    pub fn from_binary_representation(data: &[u8]) -> (r: Option<Self>)
        ensures
            r matches Some(k) ==> Some(k@) == parse_private_key(data@),
            r is None ==> parse_private_key(data@) is None,
    {
        if data.len() != 60 {
            return None;
        }
        let lms_type = match LmsAlgorithmType::from_u32(str32u(data, 0)) {
            Some(x) => x,
            None => return None,
        };
        let lm_ots_type = match LmotsAlgorithmType::from_u32(str32u(data, 4)) {
            Some(x) => x,
            None => return None,
        };
        if lms_type == LmsAlgorithmType::LmsReserved || lm_ots_type == LmotsAlgorithmType::LmotsReserved {
            return None;
        }
        let q = str32u(data, 24);
        let leaves = lms_type.get_parameter().number_of_lm_ots_keys();
        if q as usize > leaves {
            return None;
        }
        let I = subvec(data, 8, 16);
        let seed = subvec(data, 28, 32);
        Some(LmsPrivateKey { lms_type, lm_ots_type, I, seed, q })
    }
}

/// Serializing a well-formed private key and reading it back gives the key.
pub proof fn lemma_private_key_round_trip(k: PrivateKeyModel)
    requires
        private_key_wf(k),
    ensures
        parse_private_key(private_key_bytes(k)) == Some(k),
{
    let d = private_key_bytes(k);
    lemma_u32_be_round_trip(k.0.code());
    lemma_u32_be_round_trip(k.1.code());
    lemma_u32_be_round_trip(k.4);
    assert(d.subrange(0, 4) =~= u32_be(k.0.code()));
    assert(d.subrange(4, 8) =~= u32_be(k.1.code()));
    assert(d.subrange(8, 24) =~= k.2);
    assert(d.subrange(24, 28) =~= u32_be(k.4));
    assert(d.subrange(28, 60) =~= k.3);
    lemma_type_codes(k.0, k.1);
}

/// An LMS public key: the algorithms, the identifier `I` and the root `key`.
#[allow(non_snake_case)]
pub struct LmsPublicKey {
    pub lm_ots_type: LmotsAlgorithmType,
    pub lms_type: LmsAlgorithmType,
    pub key: Vec<u8>,
    pub I: Vec<u8>,
}

pub open spec fn public_key_wf(k: PublicKeyModel) -> bool {
    &&& k.0.is_usable()
    &&& k.1.is_usable()
    &&& k.2.len() == 16
    &&& k.3.len() == 32
}

/// Wire form of a public key: lms typecode, lmots typecode, I, root.
pub open spec fn public_key_bytes(k: PublicKeyModel) -> Seq<u8> {
    u32_be(k.0.code()) + u32_be(k.1.code()) + k.2 + k.3
}

/// What a byte string holds as a public key, if anything.
pub open spec fn parse_public_key(d: Seq<u8>) -> Option<PublicKeyModel> {
    if d.len() != 56 {
        None
    } else {
        match (lms_type_of(be_value(d.subrange(0, 4)) as u32), lmots_type_of(be_value(d.subrange(4, 8)) as u32)) {
            (Some(a), Some(b)) => {
                if a.is_usable() && b.is_usable() {
                    Some((a, b, d.subrange(8, 24), d.subrange(24, 56)))
                } else {
                    None
                }
            },
            _ => None,
        }
    }
}

impl View for LmsPublicKey {
    type V = PublicKeyModel;

    open spec fn view(&self) -> PublicKeyModel {
        (self.lms_type, self.lm_ots_type, self.I@, self.key@)
    }
}

#[allow(non_snake_case)]
impl LmsPublicKey {
    pub fn new(public_key: Vec<u8>, lm_ots_type: LmotsAlgorithmType, lms_type: LmsAlgorithmType, I: Vec<u8>) -> (r: Self)
        ensures
            r@ == (lms_type, lm_ots_type, I@, public_key@),
    {
        LmsPublicKey { lm_ots_type, lms_type, key: public_key, I }
    }

    pub fn to_binary_representation(&self) -> (r: Vec<u8>)
        ensures
            r@ == public_key_bytes(self@),
    {
        let mut result = u32str(self.lms_type.typecode());
        let b = u32str(self.lm_ots_type.typecode());
        append(&mut result, b.as_slice());
        append(&mut result, self.I.as_slice());
        append(&mut result, self.key.as_slice());
        result
    }

    /// Reads a public key; `None` on a wrong length or an unknown or reserved typecode.
    pub fn from_binary_representation(data: Vec<u8>) -> (r: Option<Self>)
        ensures
            r matches Some(k) ==> Some(k@) == parse_public_key(data@),
            r is None ==> parse_public_key(data@) is None,
    {
        if data.len() != 56 {
            return None;
        }
        let lms_type = match LmsAlgorithmType::from_u32(str32u(data.as_slice(), 0)) {
            Some(x) => x,
            None => return None,
        };
        let lm_ots_type = match LmotsAlgorithmType::from_u32(str32u(data.as_slice(), 4)) {
            Some(x) => x,
            None => return None,
        };
        if lms_type == LmsAlgorithmType::LmsReserved || lm_ots_type == LmotsAlgorithmType::LmotsReserved {
            return None;
        }
        let I = subvec(data.as_slice(), 8, 16);
        let key = subvec(data.as_slice(), 24, 32);
        Some(LmsPublicKey { lm_ots_type, lms_type, key, I })
    }
}

/// Serializing a well-formed public key and reading it back gives the key.
pub proof fn lemma_public_key_round_trip(k: PublicKeyModel)
    requires
        public_key_wf(k),
    ensures
        parse_public_key(public_key_bytes(k)) == Some(k),
{
    let d = public_key_bytes(k);
    lemma_u32_be_round_trip(k.0.code());
    lemma_u32_be_round_trip(k.1.code());
    assert(d.subrange(0, 4) =~= u32_be(k.0.code()));
    assert(d.subrange(4, 8) =~= u32_be(k.1.code()));
    assert(d.subrange(8, 24) =~= k.2);
    assert(d.subrange(24, 56) =~= k.3);
    lemma_type_codes(k.0, k.1);
}

/// Changing any of the three high bytes of either typecode field of a
/// serialized public key makes it unreadable: no typecode is that large.
pub proof fn lemma_public_key_typecode_corrupted(k: PublicKeyModel, i: int, b: u8)
    requires
        public_key_wf(k),
        0 <= i < 3 || 4 <= i < 7,
        b != public_key_bytes(k)[i],
    ensures
        parse_public_key(public_key_bytes(k).update(i, b)) is None,
{
    let d = public_key_bytes(k);
    let e = d.update(i, b);
    lemma_u32_be_round_trip(k.0.code());
    lemma_u32_be_round_trip(k.1.code());
    assert(d.subrange(0, 4) =~= u32_be(k.0.code()));
    assert(d.subrange(4, 8) =~= u32_be(k.1.code()));
    lemma_be_value_4(e.subrange(0, 4));
    lemma_be_value_4(e.subrange(4, 8));
    lemma_be_value_4(d.subrange(0, 4));
    lemma_be_value_4(d.subrange(4, 8));
}

/// Changing any of the three high bytes of either typecode field of a
/// serialized private key makes it unreadable.
pub proof fn lemma_private_key_typecode_corrupted(k: PrivateKeyModel, i: int, b: u8)
    requires
        private_key_wf(k),
        0 <= i < 3 || 4 <= i < 7,
        b != private_key_bytes(k)[i],
    ensures
        parse_private_key(private_key_bytes(k).update(i, b)) is None,
{
    let d = private_key_bytes(k);
    let e = d.update(i, b);
    lemma_u32_be_round_trip(k.0.code());
    lemma_u32_be_round_trip(k.1.code());
    assert(d.subrange(0, 4) =~= u32_be(k.0.code()));
    assert(d.subrange(4, 8) =~= u32_be(k.1.code()));
    lemma_be_value_4(e.subrange(0, 4));
    lemma_be_value_4(e.subrange(4, 8));
    lemma_be_value_4(d.subrange(0, 4));
    lemma_be_value_4(d.subrange(4, 8));
}

} // verus!
