//! Content identifiers: version 1, canonical-binary codec, 256-bit digest.
use vstd::prelude::*;

verus! {

/// Name for the SHA3-256 digest of a byte string.
pub uninterp spec fn sha3_256_of(data: Seq<u8>) -> Seq<u8>;

/// Relies on `sha3::Sha3_256` (through `sha3::Digest::digest`): the 32-byte
/// SHA3-256 digest of `data`, which depends on `data` alone.
#[verifier::external_body]
fn sha3_256(data: &[u8]) -> (r: Vec<u8>)
    ensures
        r@ == sha3_256_of(data@),
        r@.len() == 32,
{
    <sha3::Sha3_256 as sha3::Digest>::digest(data).to_vec()
}

/// CID version byte.
pub const CID_VERSION: u8 = 0x01;

/// Multicodec tag of the canonical binary encoding.
pub const CODEC_TAG: u8 = 0x71;

/// Multihash tag of SHA3-256.
pub const HASH_TAG: u8 = 0x16;

/// Digest length in bytes.
pub const DIGEST_LEN: u8 = 0x20;

/// The bytes that precede the digest in every identifier.
pub open spec fn cid_prefix() -> Seq<u8> {
    seq![CID_VERSION, CODEC_TAG, HASH_TAG, DIGEST_LEN]
}

/// The identifier of an encoded value.
pub open spec fn cid_of_encoding(encoded: Seq<u8>) -> Seq<u8> {
    cid_prefix() + sha3_256_of(encoded)
}

/// A content identifier, held as its binary form.
#[derive(Debug, PartialEq, Eq, Hash, PartialOrd, Ord)]
pub struct Cid {
    bytes: Vec<u8>,
}

impl View for Cid {
    type V = Seq<u8>;

    closed spec fn view(&self) -> Seq<u8> {
        self.bytes@
    }
}

/// Longest binary form of an identifier.
pub const MAX_CID_LEN: usize = 0xffff;

impl Clone for Cid {
    fn clone(&self) -> (r: Cid)
        ensures
            r@ == self@,
    {
        proof {
            use_type_invariant(self);
        }
        Cid { bytes: self.bytes.clone() }
    }
}

impl Cid {
    #[verifier::type_invariant]
    spec fn bounded(&self) -> bool {
        self.bytes@.len() <= MAX_CID_LEN
    }

    /// An identifier with the given binary form, which must fit.
    pub(crate) fn from_short_bytes(bytes: Vec<u8>) -> (r: Cid)
        requires
            bytes@.len() <= MAX_CID_LEN,
        ensures
            r@ == bytes@,
    {
        Cid { bytes }
    }

    /// An identifier with the given binary form, if it is no longer than
    /// [`MAX_CID_LEN`] bytes.
    pub fn from_bytes(bytes: Vec<u8>) -> (r: Option<Cid>)
        ensures
            r is Some <==> bytes@.len() <= MAX_CID_LEN,
            r matches Some(c) ==> c@ == bytes@,
    {
        if bytes.len() <= MAX_CID_LEN {
            Some(Cid { bytes })
        } else {
            None
        }
    }

    /// The binary form, the key of a record in the distributed store.
    pub fn to_bytes(&self) -> (r: Vec<u8>)
        ensures
            r@ == self@,
    {
        self.bytes.clone()
    }

    /// Length of the binary form.
    pub fn len(&self) -> (r: usize)
        ensures
            r == self@.len(),
            r <= MAX_CID_LEN,
    {
        proof {
            use_type_invariant(self);
        }
        self.bytes.len()
    }

    /// The binary form, borrowed.
    pub fn as_bytes(&self) -> (r: &[u8])
        ensures
            r@ == self@,
            r@.len() <= MAX_CID_LEN,
    {
        proof {
            use_type_invariant(self);
        }
        self.bytes.as_slice()
    }

    /// Whether two identifiers are the same.
    pub fn same(&self, other: &Cid) -> (r: bool)
        ensures
            r == (self@ == other@),
    {
        let n = self.bytes.len();
        if n != other.bytes.len() {
            return false;
        }
        let mut i: usize = 0;
        while i < n
            invariant
                n == self.bytes@.len(),
                n == other.bytes@.len(),
                i <= n,
                self.bytes@.subrange(0, i as int) == other.bytes@.subrange(0, i as int),
            decreases n - i,
        {
            if self.bytes[i] != other.bytes[i] {
                return false;
            }
            assert(self.bytes@.subrange(0, i + 1) == self.bytes@.subrange(0, i as int).push(self.bytes@[i as int]));
            assert(other.bytes@.subrange(0, i + 1) == other.bytes@.subrange(0, i as int).push(other.bytes@[i as int]));
            i = i + 1;
        }
        assert(self.bytes@ == self.bytes@.subrange(0, n as int));
        assert(other.bytes@ == other.bytes@.subrange(0, n as int));
        true
    }

    /// The identifier of the value whose canonical encoding is `encoded`.
    pub fn of_encoding(encoded: &[u8]) -> (r: Cid)
        ensures
            r@ == cid_of_encoding(encoded@),
    {
        let digest = sha3_256(encoded);
        let mut bytes: Vec<u8> = Vec::new();
        bytes.push(CID_VERSION);
        bytes.push(CODEC_TAG);
        bytes.push(HASH_TAG);
        bytes.push(DIGEST_LEN);
        let mut i: usize = 0;
        while i < digest.len()
            invariant
                i <= digest@.len(),
                bytes@ == cid_prefix() + digest@.subrange(0, i as int),
            decreases digest@.len() - i,
        {
            bytes.push(digest[i]);
            assert(digest@.subrange(0, i + 1) == digest@.subrange(0, i as int).push(digest@[i as int]));
            i = i + 1;
        }
        assert(digest@.subrange(0, digest@.len() as int) == digest@);
        Cid { bytes }
    }
}

} // verus!
