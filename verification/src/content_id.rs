//! Content identifiers: a codec tag and a multihash over a block's bytes.

use vstd::prelude::*;

verus! {

/// Codec tag of blocks that hold DAG-CBOR and may link to other blocks.
pub const DAG_CBOR: u64 = 0x71;

/// Codec tag of blocks that hold opaque bytes.
pub const IPLD_RAW: u64 = 0x55;

/// Multihash code of BLAKE2b with a 32-byte digest.
pub const BLAKE2B_256: u64 = 0xb220;

/// Multihash code of BLAKE2b with a 64-byte digest.
pub const BLAKE2B_512: u64 = 0xb240;

/// Longest digest that an identifier can carry.
pub const MAX_DIGEST_LEN: usize = 64;

/// The mathematical value of a content identifier.
pub struct CidModel {
    pub codec: u64,
    pub hash: u64,
    pub digest: Seq<u8>,
}

/// The hash functions that a store can be asked to key a block with.
#[derive(Clone, Copy, Debug, PartialEq, Eq, Structural)]
pub enum HashKind {
    Blake2b256,
    Blake2b512,
}

impl HashKind {
    /// The multihash code of this hash function.
    pub open spec fn code(self) -> u64 {
        match self {
            HashKind::Blake2b256 => BLAKE2B_256,
            HashKind::Blake2b512 => BLAKE2B_512,
        }
    }
}

/// A version-1 content identifier, held as plain values.
#[derive(Debug)]
pub struct ContentId {
    pub(crate) codec: u64,
    pub(crate) hash: u64,
    pub(crate) digest: Vec<u8>,
}

impl View for ContentId {
    type V = CidModel;

    closed spec fn view(&self) -> CidModel {
        CidModel { codec: self.codec, hash: self.hash, digest: self.digest@ }
    }
}

impl Clone for ContentId {
    fn clone(&self) -> (r: Self)
        ensures
            r@ == self@,
    {
        proof {
            use_type_invariant(self);
        }
        ContentId { codec: self.codec, hash: self.hash, digest: self.digest.clone() }
    }
}

impl ContentId {
    /// The digest fits a multihash.
    #[verifier::type_invariant]
    spec fn digest_fits(&self) -> bool {
        self.digest@.len() <= MAX_DIGEST_LEN
    }

    /// Builds an identifier from its parts; `None` when the digest is too long.
    pub fn new(codec: u64, hash: u64, digest: Vec<u8>) -> (r: Option<ContentId>)
        ensures
            digest@.len() <= MAX_DIGEST_LEN ==> r is Some && r->0@ == (CidModel {
                codec,
                hash,
                digest: digest@,
            }),
            digest@.len() > MAX_DIGEST_LEN ==> r is None,
    {
        if digest.len() <= MAX_DIGEST_LEN {
            Some(ContentId { codec, hash, digest })
        } else {
            None
        }
    }

    /// Builds an identifier from its parts, with a digest that fits.
    pub fn from_parts(codec: u64, hash: u64, digest: Vec<u8>) -> (id: ContentId)
        requires
            digest@.len() <= MAX_DIGEST_LEN,
        ensures
            id@ == (CidModel { codec, hash, digest: digest@ }),
    {
        ContentId { codec, hash, digest }
    }

    /// The codec tag of the block.
    pub fn codec(&self) -> (c: u64)
        ensures
            c == self@.codec,
    {
        self.codec
    }

    /// The multihash code of the hash function.
    pub fn hash_code(&self) -> (h: u64)
        ensures
            h == self@.hash,
    {
        self.hash
    }

    /// The digest of the block's bytes.
    pub fn digest(&self) -> (d: &Vec<u8>)
        ensures
            d@ == self@.digest,
            d@.len() <= MAX_DIGEST_LEN,
    {
        proof {
            use_type_invariant(self);
        }
        &self.digest
    }

    /// Whether two identifiers name the same content.
    pub fn same(&self, other: &ContentId) -> (b: bool)
        ensures
            b == (self@ == other@),
    {
        let b = self.codec == other.codec && self.hash == other.hash && self.digest == other.digest;
        proof {
            if b {
                assert(self.digest@ =~= other.digest@);
            }
        }
        b
    }
}

/// The digest that the hash function with multihash code `hash` gives for `data`.
pub uninterp spec fn digest_of(hash: u64, data: Seq<u8>) -> Seq<u8>;

/// The identifier of a block: its codec tag and the digest of its bytes.
pub open spec fn content_id_of(kind: HashKind, codec: u64, data: Seq<u8>) -> CidModel {
    CidModel { codec, hash: kind.code(), digest: digest_of(kind.code(), data) }
}

/// Calls `fvm_ipld_blockstore::Block::cid`, which hashes the block's bytes
/// with the chosen function and wraps the digest with the codec tag in a
/// version-1 identifier. The digest is named, not computed, in contracts.
#[verifier::external_body]
pub(crate) fn hash_block(kind: HashKind, codec: u64, data: &[u8]) -> (id: ContentId)
    ensures
        id@.codec == codec,
        id@.hash == kind.code(),
        id@.digest == digest_of(kind.code(), data@),
{
    let code = match kind {
        HashKind::Blake2b256 => multihash_codetable::Code::Blake2b256,
        HashKind::Blake2b512 => multihash_codetable::Code::Blake2b512,
    };
    let cid = fvm_ipld_blockstore::Block::new(codec, data).cid(code);
    ContentId { codec: cid.codec(), hash: cid.hash().code(), digest: cid.hash().digest().to_vec() }
}

/// What `cid::Cid::try_from` reads from the binary form of an identifier: its
/// version, codec, multihash code and digest; `None` where it reports an error.
pub uninterp spec fn cid_parts(bytes: Seq<u8>) -> Option<(u64, u64, u64, Seq<u8>)>;

/// Calls `cid::Cid::try_from` on a byte slice and hands out the parts of the
/// identifier that it read, or `None` where it reports an error.
#[verifier::external_body]
pub(crate) fn parse_cid(bytes: &[u8]) -> (r: Option<(u64, ContentId)>)
    ensures
        match r {
            Some((version, id)) => cid_parts(bytes@) == Some(
                (version, id@.codec, id@.hash, id@.digest),
            ),
            None => cid_parts(bytes@) is None,
        },
{
    match cid::Cid::try_from(bytes) {
        Ok(c) => Some(
            (
                u64::from(c.version()),
                ContentId {
                    codec: c.codec(),
                    hash: c.hash().code(),
                    digest: c.hash().digest().to_vec(),
                },
            ),
        ),
        Err(_) => None,
    }
}

/// The block that the bytes of a link point to: a version-1 identifier.
pub open spec fn link_target(bytes: Seq<u8>) -> Option<CidModel> {
    match cid_parts(bytes) {
        Some((version, codec, hash, digest)) => if version == 1 {
            Some(CidModel { codec, hash, digest })
        } else {
            None
        },
        None => None,
    }
}

/// The value of an optional identifier.
pub open spec fn found_id(found: Option<ContentId>) -> Option<CidModel> {
    match found {
        Some(id) => Some(id@),
        None => None,
    }
}

/// Reads the identifier that the bytes of a link hold.
pub fn read_link_target(bytes: &[u8]) -> (r: Option<ContentId>)
    ensures
        found_id(r) == link_target(bytes@),
{
    match parse_cid(bytes) {
        Some((version, id)) => if version == 1 {
            Some(id)
        } else {
            None
        },
        None => None,
    }
}

/// The binary form that `cid::Cid::to_bytes` gives the version-1 identifier
/// with these parts.
pub uninterp spec fn cid_binary(codec: u64, hash: u64, digest: Seq<u8>) -> Seq<u8>;

/// Longest binary form of an identifier: one byte for the version, ten
/// each for codec and hash code, one for the length of the digest, and the
/// digest.
pub const MAX_BINARY_LEN: usize = 86;

/// Builds the version-1 identifier with `cid::Cid::new_v1` over
/// `Multihash::wrap` and returns its binary form from `cid::Cid::to_bytes`;
/// `None` where the digest is too long to wrap. The binary form is four
/// unsigned varints and the digest, so it is short, and
/// `cid::Cid::try_from` reads the same version-1 identifier back from it.
#[verifier::external_body]
fn binary_form(id: &ContentId) -> (r: Option<Vec<u8>>)
    ensures
        id@.digest.len() <= MAX_DIGEST_LEN ==> r is Some,
        r matches Some(bytes) ==> bytes@ == cid_binary(id@.codec, id@.hash, id@.digest),
        r matches Some(bytes) ==> bytes@.len() <= MAX_BINARY_LEN,
        r matches Some(bytes) ==> cid_parts(bytes@) == Some(
            (1u64, id@.codec, id@.hash, id@.digest),
        ),
{
    match cid::multihash::Multihash::<64>::wrap(id.hash, &id.digest) {
        Ok(mh) => Some(cid::Cid::new_v1(id.codec, mh).to_bytes()),
        Err(_) => None,
    }
}

impl ContentId {
    /// The binary form of the identifier, as links carry it.
    pub fn to_bytes(&self) -> (bytes: Vec<u8>)
        ensures
            bytes@ == cid_binary(self@.codec, self@.hash, self@.digest),
            bytes@.len() <= MAX_BINARY_LEN,
            link_target(bytes@) == Some(self@),
    {
        proof {
            use_type_invariant(self);
        }
        match binary_form(self) {
            Some(bytes) => bytes,
            None => Vec::new(),
        }
    }
}

} // verus!
