//! The block store boundary: keyed reads and writes of opaque blocks.

use vstd::prelude::*;
use crate::content_id::{content_id_of, hash_block, CidModel, ContentId, HashKind};

verus! {

/// A store operation that could not be carried out.
#[derive(Clone, Copy, Debug, PartialEq, Eq, Structural)]
pub struct StoreFault;

/// What a lookup finds under `id` in `blocks`.
pub open spec fn lookup(blocks: Map<CidModel, Seq<u8>>, id: CidModel) -> Option<Seq<u8>> {
    if blocks.contains_key(id) {
        Some(blocks[id])
    } else {
        None
    }
}

/// The bytes of an optional block.
pub open spec fn found_bytes(found: Option<Vec<u8>>) -> Option<Seq<u8>> {
    match found {
        Some(data) => Some(data@),
        None => None,
    }
}

/// Something blocks can be read from by their identifier.
pub trait BlockSource {
    /// The blocks held, by identifier.
    spec fn blocks(&self) -> Map<CidModel, Seq<u8>>;

    /// Whether operations on this store never fail.
    spec fn reliable(&self) -> bool;

    /// A store holds finitely many blocks.
    proof fn lemma_finite(&self)
        ensures
            self.blocks().dom().finite(),
    ;

    /// Reads the block stored under `id`, if there is one.
    fn get(&self, id: &ContentId) -> (r: Result<Option<Vec<u8>>, StoreFault>)
        ensures
            self.reliable() ==> r is Ok,
            r matches Ok(found) ==> found_bytes(found) == lookup(self.blocks(), id@),
    ;
}

/// A block store that can also be written to.
pub trait Blockstore: BlockSource {
    /// Whether a block is stored under `id`.
    fn has(&self, id: &ContentId) -> (r: Result<bool, StoreFault>)
        ensures
            self.reliable() ==> r is Ok,
            r matches Ok(b) ==> b == self.blocks().contains_key(id@),
    ;

    /// Stores `data` under `id`, replacing what was there.
    fn put_keyed(&mut self, id: &ContentId, data: &[u8]) -> (r: Result<(), StoreFault>)
        ensures
            final(self).reliable() == old(self).reliable(),
            old(self).reliable() ==> r is Ok,
            r is Ok ==> final(self).blocks() == old(self).blocks().insert(id@, data@),
            r is Err ==> final(self).blocks() == old(self).blocks(),
    ;
}

/// The store after `data` has been put under its own identifier `id`: a
/// block already held under `id` stays as it is.
pub open spec fn with_block(blocks: Map<CidModel, Seq<u8>>, id: CidModel, data: Seq<u8>) -> Map<
    CidModel,
    Seq<u8>,
> {
    if blocks.contains_key(id) {
        blocks
    } else {
        blocks.insert(id, data)
    }
}

/// Stores a block under the identifier computed from its codec and bytes and
/// returns that identifier. Identical content always gets the same
/// identifier, and a block that the store already holds under it is kept.
pub fn put<S: Blockstore>(store: &mut S, kind: HashKind, codec: u64, data: &[u8]) -> (r: Result<
    ContentId,
    StoreFault,
>)
    ensures
        final(store).reliable() == old(store).reliable(),
        old(store).reliable() ==> r is Ok,
        r matches Ok(id) ==> id@ == content_id_of(kind, codec, data@) && final(store).blocks()
            == with_block(old(store).blocks(), id@, data@),
        r is Err ==> final(store).blocks() == old(store).blocks(),
{
    let id = hash_block(kind, codec, data);
    match store.has(&id) {
        Err(fault) => Err(fault),
        Ok(true) => Ok(id),
        Ok(false) => match store.put_keyed(&id, data) {
            Err(fault) => Err(fault),
            Ok(()) => Ok(id),
        },
    }
}

/// The map that a list of keyed blocks stands for; a later entry replaces an
/// earlier one with the same identifier.
pub open spec fn entries_map(entries: Seq<(ContentId, Vec<u8>)>) -> Map<CidModel, Seq<u8>>
    decreases entries.len(),
{
    if entries.len() == 0 {
        Map::empty()
    } else {
        entries_map(entries.drop_last()).insert(entries.last().0@, entries.last().1@)
    }
}

/// The entry that decides a key is the last one that carries it.
pub proof fn lemma_entries_map_last(entries: Seq<(ContentId, Vec<u8>)>, i: int, id: CidModel)
    requires
        0 <= i < entries.len(),
        entries[i].0@ == id,
        forall|j: int| i < j < entries.len() ==> entries[j].0@ != id,
    ensures
        entries_map(entries).contains_key(id),
        entries_map(entries)[id] == entries[i].1@,
    decreases entries.len(),
{
    if i < entries.len() - 1 {
        lemma_entries_map_last(entries.drop_last(), i, id);
    }
}

/// A key that no entry carries is not in the map.
pub proof fn lemma_entries_map_absent(entries: Seq<(ContentId, Vec<u8>)>, id: CidModel)
    requires
        forall|j: int| 0 <= j < entries.len() ==> entries[j].0@ != id,
    ensures
        !entries_map(entries).contains_key(id),
    decreases entries.len(),
{
    if entries.len() > 0 {
        lemma_entries_map_absent(entries.drop_last(), id);
    }
}

/// The map of a list has finitely many keys, and each of them has the bytes
/// of an entry that carries it.
pub proof fn lemma_entries_map_dom(entries: Seq<(ContentId, Vec<u8>)>)
    ensures
        entries_map(entries).dom().finite(),
        forall|id: CidModel| #[trigger]
            entries_map(entries).contains_key(id) ==> exists|j: int|
                0 <= j < entries.len() && entries[j].0@ == id && entries[j].1@ == entries_map(
                    entries,
                )[id],
    decreases entries.len(),
{
    if entries.len() > 0 {
        let front = entries.drop_last();
        lemma_entries_map_dom(front);
        assert forall|id: CidModel| #[trigger]
            entries_map(entries).contains_key(id) implies exists|j: int|
            0 <= j < entries.len() && entries[j].0@ == id && entries[j].1@ == entries_map(
                entries,
            )[id] by {
            if id == entries.last().0@ {
                let j = entries.len() - 1;
                assert(entries[j].0@ == id && entries[j].1@ == entries_map(entries)[id]);
            } else {
                assert(entries_map(front).contains_key(id));
                let j = choose|j: int|
                    0 <= j < front.len() && front[j].0@ == id && front[j].1@ == entries_map(
                        front,
                    )[id];
                assert(entries[j].0@ == id && entries[j].1@ == entries_map(entries)[id]);
            }
        }
    }
}

/// A block store held in memory.
#[derive(Debug)]
pub struct MemoryStore {
    entries: Vec<(ContentId, Vec<u8>)>,
}

impl MemoryStore {
    /// An empty store.
    pub fn new() -> (s: MemoryStore)
        ensures
            s.blocks() == Map::<CidModel, Seq<u8>>::empty(),
            s.reliable(),
    {
        MemoryStore { entries: Vec::new() }
    }

    /// How many writes the store has taken.
    pub fn len(&self) -> (n: usize)
        ensures
            n == self.log().len(),
    {
        self.entries.len()
    }

    /// The writes the store has taken, oldest first.
    pub closed spec fn log(&self) -> Seq<(CidModel, Seq<u8>)> {
        Seq::new(self.entries@.len(), |i: int| (self.entries@[i].0@, self.entries@[i].1@))
    }

    /// The `i`-th write: its identifier and its bytes; `None` where the
    /// store has not taken that many.
    pub fn entry(&self, i: usize) -> (r: Option<(ContentId, Vec<u8>)>)
        ensures
            match r {
                Some(e) => i < self.log().len() && e.0@ == self.log()[i as int].0 && e.1@
                    == self.log()[i as int].1,
                None => i >= self.log().len(),
            },
    {
        if i < self.entries.len() {
            Some((self.entries[i].0.clone(), self.entries[i].1.clone()))
        } else {
            None
        }
    }
}

impl BlockSource for MemoryStore {
    closed spec fn blocks(&self) -> Map<CidModel, Seq<u8>> {
        entries_map(self.entries@)
    }

    open spec fn reliable(&self) -> bool {
        true
    }

    proof fn lemma_finite(&self) {
        lemma_entries_map_dom(self.entries@);
    }

    fn get(&self, id: &ContentId) -> (r: Result<Option<Vec<u8>>, StoreFault>) {
        let mut i: usize = self.entries.len();
        while i > 0
            invariant
                i <= self.entries@.len(),
                forall|j: int| i <= j < self.entries@.len() ==> self.entries@[j].0@ != id@,
            decreases i,
        {
            i = i - 1;
            if self.entries[i].0.same(id) {
                proof {
                    lemma_entries_map_last(self.entries@, i as int, id@);
                }
                return Ok(Some(self.entries[i].1.clone()));
            }
        }
        proof {
            lemma_entries_map_absent(self.entries@, id@);
        }
        Ok(None)
    }
}

impl Blockstore for MemoryStore {
    fn has(&self, id: &ContentId) -> (r: Result<bool, StoreFault>) {
        match self.get(id) {
            Ok(found) => Ok(found.is_some()),
            Err(fault) => Err(fault),
        }
    }

    fn put_keyed(&mut self, id: &ContentId, data: &[u8]) -> (r: Result<(), StoreFault>) {
        let ghost before = self.entries@;
        let block = vstd::slice::slice_to_vec(data);
        self.entries.push((id.clone(), block));
        proof {
            assert(self.entries@.drop_last() =~= before);
        }
        Ok(())
    }
}

/// A block store that can be read and takes no writes.
#[derive(Debug)]
pub struct ReadOnly<S> {
    inner: S,
}

impl<S: BlockSource> ReadOnly<S> {
    /// The store under the seal.
    pub closed spec fn sealed(&self) -> S {
        self.inner
    }

    /// Seals `inner` against writes.
    pub fn new(inner: S) -> (s: Self)
        ensures
            s.sealed() == inner,
    {
        ReadOnly { inner }
    }

    /// Breaks the seal.
    pub fn into_inner(self) -> (inner: S)
        ensures
            inner == self.sealed(),
    {
        self.inner
    }
}

impl<S: Blockstore> BlockSource for ReadOnly<S> {
    open spec fn blocks(&self) -> Map<CidModel, Seq<u8>> {
        self.sealed().blocks()
    }

    /// Writes fail, so the store is not reliable.
    open spec fn reliable(&self) -> bool {
        false
    }

    proof fn lemma_finite(&self) {
        self.inner.lemma_finite();
    }

    fn get(&self, id: &ContentId) -> (r: Result<Option<Vec<u8>>, StoreFault>)
        ensures
            self.sealed().reliable() ==> r is Ok,
    {
        self.inner.get(id)
    }
}

impl<S: Blockstore> Blockstore for ReadOnly<S> {
    fn has(&self, id: &ContentId) -> (r: Result<bool, StoreFault>)
        ensures
            self.sealed().reliable() ==> r is Ok,
    {
        self.inner.has(id)
    }

    fn put_keyed(&mut self, id: &ContentId, data: &[u8]) -> (r: Result<(), StoreFault>)
        ensures
            r is Err,
            final(self).sealed() == old(self).sealed(),
    {
        Err(StoreFault)
    }
}

} // verus!
