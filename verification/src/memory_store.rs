//! The in-memory block store of `fvm_ipld_blockstore`, as a block store of
//! this library.

use vstd::prelude::*;
use crate::blockstore::{found_bytes, lookup, BlockSource, Blockstore, StoreFault};
use crate::content_id::{CidModel, ContentId};

verus! {

/// The in-memory block store of `fvm_ipld_blockstore`.
#[verifier::external_type_specification]
#[verifier::external_body]
pub struct ExMemoryBlockstore(fvm_ipld_blockstore::MemoryBlockstore);

/// The blocks that an in-memory block store holds under version-1
/// identifiers, by the parts of the identifier.
pub uninterp spec fn held_blocks(store: fvm_ipld_blockstore::MemoryBlockstore) -> Map<
    CidModel,
    Seq<u8>,
>;

/// No blocks at all.
pub open spec fn no_blocks() -> Map<CidModel, Seq<u8>> {
    Map::empty()
}

/// The blocks of a store in memory, which are finitely many.
pub open spec fn finite_blocks(blocks: Map<CidModel, Seq<u8>>) -> Map<CidModel, Seq<u8>> {
    if blocks.dom().finite() {
        blocks
    } else {
        Map::empty()
    }
}

/// Calls `fvm_ipld_blockstore::MemoryBlockstore::new`: the new store holds
/// nothing.
#[verifier::external_body]
fn empty_store() -> (store: fvm_ipld_blockstore::MemoryBlockstore)
    ensures
        held_blocks(store) == no_blocks(),
{
    fvm_ipld_blockstore::MemoryBlockstore::new()
}

/// Calls `Blockstore::get` of `fvm_ipld_blockstore::MemoryBlockstore` with
/// the version-1 identifier made of the given parts. The store never fails;
/// it returns the block held under the identifier, if there is one. A store
/// in memory holds finitely many blocks.
#[verifier::external_body]
fn held_get(store: &fvm_ipld_blockstore::MemoryBlockstore, id: &ContentId) -> (r: Option<Vec<u8>>)
    ensures
        found_bytes(r) == lookup(finite_blocks(held_blocks(*store)), id@),
{
    match cid::multihash::Multihash::<64>::wrap(id.hash, &id.digest) {
        Ok(mh) => fvm_ipld_blockstore::Blockstore::get(store, &cid::Cid::new_v1(id.codec, mh))
            .ok()
            .flatten(),
        Err(_) => None,
    }
}

/// Calls `Blockstore::put_keyed` of `fvm_ipld_blockstore::MemoryBlockstore`
/// with the version-1 identifier made of the given parts. The store never
/// fails; the block replaces what was held under the identifier. The digest
/// of an identifier always fits a multihash.
#[verifier::external_body]
fn held_put(store: &mut fvm_ipld_blockstore::MemoryBlockstore, id: &ContentId, data: &[u8])
    ensures
        held_blocks(*final(store)).dom().finite(),
        held_blocks(*final(store)) == held_blocks(*old(store)).insert(id@, data@),
{
    if let Ok(mh) = cid::multihash::Multihash::<64>::wrap(id.hash, &id.digest) {
        let _ = fvm_ipld_blockstore::Blockstore::put_keyed(
            &*store,
            &cid::Cid::new_v1(id.codec, mh),
            data,
        );
    }
}

/// A block store in memory, kept by `fvm_ipld_blockstore`.
#[derive(Debug)]
pub struct IpldMemoryStore {
    pub(crate) inner: fvm_ipld_blockstore::MemoryBlockstore,
}

impl IpldMemoryStore {
    /// An empty store.
    pub fn new() -> (s: IpldMemoryStore)
        ensures
            s.blocks() == no_blocks(),
    {
        IpldMemoryStore { inner: empty_store() }
    }

    /// The store that was made outside, as a store of this library.
    pub fn from_inner(inner: fvm_ipld_blockstore::MemoryBlockstore) -> (s: IpldMemoryStore)
        ensures
            s.blocks() == finite_blocks(held_blocks(inner)),
    {
        IpldMemoryStore { inner }
    }

    /// What the store shows are the blocks that the store in memory holds.
    pub(crate) proof fn lemma_blocks(&self)
        ensures
            self.blocks() == finite_blocks(held_blocks(self.inner)),
    {
    }

    /// The store as it is known outside.
    pub fn into_inner(self) -> (inner: fvm_ipld_blockstore::MemoryBlockstore)
        ensures
            finite_blocks(held_blocks(inner)) == self.blocks(),
    {
        self.inner
    }
}

impl BlockSource for IpldMemoryStore {
    closed spec fn blocks(&self) -> Map<CidModel, Seq<u8>> {
        finite_blocks(held_blocks(self.inner))
    }

    open spec fn reliable(&self) -> bool {
        true
    }

    proof fn lemma_finite(&self) {
    }

    fn get(&self, id: &ContentId) -> (r: Result<Option<Vec<u8>>, StoreFault>) {
        Ok(held_get(&self.inner, id))
    }
}

impl Blockstore for IpldMemoryStore {
    fn has(&self, id: &ContentId) -> (r: Result<bool, StoreFault>) {
        Ok(held_get(&self.inner, id).is_some())
    }

    fn put_keyed(&mut self, id: &ContentId, data: &[u8]) -> (r: Result<(), StoreFault>) {
        held_put(&mut self.inner, id, data);
        proof {
            let before = held_blocks(old(self).inner);
            let after = held_blocks(self.inner);
            assert(before.dom().subset_of(after.dom()));
            vstd::set_lib::lemma_set_subset_finite(after.dom(), before.dom());
        }
        Ok(())
    }
}

} // verus!
