//! A write-behind overlay over a backing block store.

use vstd::prelude::*;
use crate::blockstore::{
    entries_map, lemma_entries_map_dom, with_block, BlockSource, Blockstore, MemoryStore,
    StoreFault,
};
use crate::closure::{
    closure, collect_closure, each_in, lemma_closure_within, malformed, reachable, resolvable,
    ClosureError,
};
use crate::content_id::{content_id_of, hash_block, CidModel, ContentId, HashKind};

verus! {

/// A block store that keeps writes in memory until a root is flushed to the
/// store behind it.
#[derive(Debug)]
pub struct BufferedStore<B> {
    overlay: MemoryStore,
    backing: B,
}

/// What the backing store may hold after a flush that wrote some of the
/// blocks of `flushed`: what it held before, and blocks of `flushed`.
#[verifier::opaque]
pub open spec fn partly_flushed(
    before: Map<CidModel, Seq<u8>>,
    after: Map<CidModel, Seq<u8>>,
    flushed: Map<CidModel, Seq<u8>>,
) -> bool {
    &&& forall|id: CidModel| before.contains_key(id) ==> #[trigger] after.contains_key(id)
    &&& forall|id: CidModel| #[trigger]
        after.contains_key(id) ==> (before.contains_key(id) && after[id] == before[id]) || (
        flushed.contains_key(id) && after[id] == flushed[id])
}

impl<B: Blockstore> BufferedStore<B> {
    /// The blocks written since the store was made, not all of them durable.
    pub closed spec fn staged(&self) -> Map<CidModel, Seq<u8>> {
        self.overlay.blocks()
    }

    /// The blocks of the backing store.
    pub closed spec fn durable(&self) -> Map<CidModel, Seq<u8>> {
        self.backing.blocks()
    }

    /// Whether the backing store never fails.
    pub closed spec fn backing_reliable(&self) -> bool {
        self.backing.reliable()
    }

    /// Puts an empty overlay over `backing`.
    pub fn new(backing: B) -> (s: Self)
        ensures
            s.staged() == Map::<CidModel, Seq<u8>>::empty(),
            s.durable() == backing.blocks(),
            s.backing_reliable() == backing.reliable(),
    {
        BufferedStore { overlay: MemoryStore::new(), backing }
    }

    /// Gives up the overlay and returns the backing store.
    pub fn into_inner(self) -> (backing: B)
        ensures
            backing.blocks() == self.durable(),
            backing.reliable() == self.backing_reliable(),
    {
        self.backing
    }

    /// The backing store.
    pub fn inner(&self) -> (backing: &B)
        ensures
            backing.blocks() == self.durable(),
            backing.reliable() == self.backing_reliable(),
    {
        &self.backing
    }

    /// Stages `data` under `id`, unless the store already shows a block
    /// under that identifier. The backing store is only read.
    pub fn stage_keyed(&mut self, id: &ContentId, data: &[u8]) -> (r: Result<(), StoreFault>)
        ensures
            final(self).durable() == old(self).durable(),
            final(self).backing_reliable() == old(self).backing_reliable(),
            old(self).backing_reliable() ==> r is Ok,
            r is Ok ==> final(self).staged() == (if old(self).blocks().contains_key(id@) {
                old(self).staged()
            } else {
                old(self).staged().insert(id@, data@)
            }) && final(self).blocks() == with_block(old(self).blocks(), id@, data@),
            r is Err ==> final(self).staged() == old(self).staged(),
    {
        match self.overlay.has(id) {
            Err(fault) => {
                return Err(fault);
            },
            Ok(true) => {
                assert(old(self).blocks().contains_key(id@));
                return Ok(());
            },
            Ok(false) => {},
        }
        match self.backing.has(id) {
            Err(fault) => {
                return Err(fault);
            },
            Ok(true) => {
                assert(old(self).blocks().contains_key(id@));
                return Ok(());
            },
            Ok(false) => {},
        }
        let r = self.overlay.put_keyed(id, data);
        proof {
            assert(!old(self).blocks().contains_key(id@));
            assert(self.blocks() =~= old(self).blocks().insert(id@, data@));
        }
        r
    }

    /// Stages a block under the identifier computed from its codec and
    /// bytes, unless the store already shows a block under it, and returns
    /// the identifier.
    pub fn stage(&mut self, kind: HashKind, codec: u64, data: &[u8]) -> (r: Result<
        ContentId,
        StoreFault,
    >)
        ensures
            final(self).durable() == old(self).durable(),
            final(self).backing_reliable() == old(self).backing_reliable(),
            old(self).backing_reliable() ==> r is Ok,
            r matches Ok(id) ==> id@ == content_id_of(kind, codec, data@)
                && final(self).staged() == (
            if old(self).blocks().contains_key(id@) {
                old(self).staged()
            } else {
                old(self).staged().insert(id@, data@)
            }) && final(self).blocks() == with_block(old(self).blocks(), id@, data@),
            r is Err ==> final(self).staged() == old(self).staged(),
    {
        let id = hash_block(kind, codec, data);
        match self.stage_keyed(&id, data) {
            Ok(()) => Ok(id),
            Err(fault) => Err(fault),
        }
    }

    /// Writes to the backing store every staged block that `root` reaches
    /// through the links of staged blocks, and nothing else. A link that
    /// leaves the overlay must lead to a block that the backing store holds.
    /// Nothing is written unless all that `root` reaches can be resolved.
    #[verifier::rlimit(40)]
    pub fn flush(&mut self, root: &ContentId) -> (r: Result<(), ClosureError>)
        ensures
            final(self).staged() == old(self).staged(),
            final(self).backing_reliable() == old(self).backing_reliable(),
            final(self).blocks() == old(self).blocks(),
            partly_flushed(
                old(self).durable(),
                final(self).durable(),
                closure(old(self).staged(), root@),
            ),
            match r {
                Ok(()) => resolvable(old(self).staged(), old(self).durable(), root@)
                    && final(self).durable() == old(self).durable().union_prefer_right(
                    closure(old(self).staged(), root@),
                ),
                Err(ClosureError::Malformed) => final(self).durable() == old(self).durable()
                    && exists|id: CidModel|
                    reachable(old(self).staged(), root@, id) && malformed(old(self).staged(), id),
                Err(ClosureError::Unresolved) => final(self).durable() == old(self).durable()
                    && exists|id: CidModel|
                    reachable(old(self).staged(), root@, id) && !old(self).staged().contains_key(id)
                        && !old(self).durable().contains_key(id),
                Err(ClosureError::Store(_)) => !old(self).backing_reliable(),
            },
    {
        let ghost staged = self.overlay.blocks();
        let ghost before = self.backing.blocks();
        let ghost reached = closure(staged, root@);
        let found = match collect_closure(&self.overlay, &self.backing, root) {
            Err(e) => {
                proof {
                    reveal(partly_flushed);
                }
                return Err(e);
            },
            Ok(found) => found,
        };
        let mut i: usize = 0;
        assert(found@.take(0) =~= Seq::empty());
        assert(before.union_prefer_right(entries_map(found@.take(0))) =~= before);
        while i < found.len()
            invariant
                i <= found@.len(),
                staged == old(self).staged(),
                before == old(self).durable(),
                reached == closure(staged, root@),
                self.overlay.blocks() == staged,
                self.backing.reliable() == old(self).backing.reliable(),
                each_in(found@, reached),
                self.backing.blocks() == before.union_prefer_right(
                    entries_map(found@.take(i as int)),
                ),
            decreases found@.len() - i,
        {
            match self.backing.put_keyed(&found[i].0, found[i].1.as_slice()) {
                Err(fault) => {
                    proof {
                        lemma_take_flushed(before, found@, i as int, reached);
                        lemma_closure_within(staged, root@);
                        lemma_view_kept(before, staged, self.backing.blocks(), reached);
                    }
                    return Err(ClosureError::Store(fault));
                },
                Ok(()) => {},
            }
            proof {
                assert(found@.take(i + 1).drop_last() =~= found@.take(i as int));
                assert(before.union_prefer_right(entries_map(found@.take(i + 1)))
                    =~= before.union_prefer_right(entries_map(found@.take(i as int))).insert(
                    found@[i as int].0@,
                    found@[i as int].1@,
                ));
            }
            i = i + 1;
        }
        proof {
            assert(found@.take(i as int) =~= found@);
            lemma_take_flushed(before, found@, i as int, reached);
            lemma_closure_within(staged, root@);
            lemma_view_kept(before, staged, self.backing.blocks(), reached);
        }
        Ok(())
    }
}

/// What a successful flush commits: every block that the root reaches is
/// in the backing store afterwards, and every block that is new there is a
/// staged block that the root reaches.
pub proof fn lemma_flush_commits_the_closure(
    staged: Map<CidModel, Seq<u8>>,
    before: Map<CidModel, Seq<u8>>,
    after: Map<CidModel, Seq<u8>>,
    root: CidModel,
)
    requires
        resolvable(staged, before, root),
        after == before.union_prefer_right(closure(staged, root)),
    ensures
        forall|id: CidModel| #[trigger] reachable(staged, root, id) ==> after.contains_key(id),
        forall|id: CidModel|
            staged.contains_key(id) && #[trigger] reachable(staged, root, id) ==> after[id]
                == staged[id],
        forall|id: CidModel|
            #[trigger] after.contains_key(id) && !before.contains_key(id)
                ==> staged.contains_key(id)
                && reachable(staged, root, id) && after[id] == staged[id],
{
    reveal(resolvable);
    lemma_closure_within(staged, root);
}

/// A backing store that was not written to is partly flushed.
pub proof fn lemma_nothing_flushed(before: Map<CidModel, Seq<u8>>, flushed: Map<CidModel, Seq<u8>>)
    ensures
        partly_flushed(before, before, flushed),
{
    reveal(partly_flushed);
}

/// The backing store with the first `n` collected blocks written is partly
/// flushed.
proof fn lemma_take_flushed(
    before: Map<CidModel, Seq<u8>>,
    found: Seq<(ContentId, Vec<u8>)>,
    n: int,
    reached: Map<CidModel, Seq<u8>>,
)
    requires
        0 <= n <= found.len(),
        each_in(found, reached),
    ensures
        partly_flushed(before, before.union_prefer_right(entries_map(found.take(n))), reached),
{
    reveal(partly_flushed);
    let part = found.take(n);
    let after = before.union_prefer_right(entries_map(part));
    lemma_entries_map_dom(part);
    assert forall|id: CidModel| #[trigger] after.contains_key(id) implies (before.contains_key(id)
        && after[id] == before[id]) || (reached.contains_key(id) && after[id] == reached[id]) by {
        if entries_map(part).contains_key(id) {
            let j = choose|j: int|
                0 <= j < part.len() && part[j].0@ == id && part[j].1@ == entries_map(part)[id];
            assert(part[j] == found[j]);
        }
    }
}

/// Writing staged blocks to the backing store does not change what the
/// buffered store shows.
proof fn lemma_view_kept(
    before: Map<CidModel, Seq<u8>>,
    staged: Map<CidModel, Seq<u8>>,
    after: Map<CidModel, Seq<u8>>,
    reached: Map<CidModel, Seq<u8>>,
)
    requires
        partly_flushed(before, after, reached),
        forall|id: CidModel| #[trigger]
            reached.contains_key(id) ==> staged.contains_key(id) && staged[id] == reached[id],
    ensures
        after.union_prefer_right(staged) == before.union_prefer_right(staged),
{
    reveal(partly_flushed);
    assert(after.union_prefer_right(staged) =~= before.union_prefer_right(staged));
}

impl<B: Blockstore> BlockSource for BufferedStore<B> {
    /// What the store shows: the staged blocks over the durable ones.
    open spec fn blocks(&self) -> Map<CidModel, Seq<u8>> {
        self.durable().union_prefer_right(self.staged())
    }

    open spec fn reliable(&self) -> bool {
        self.backing_reliable()
    }

    proof fn lemma_finite(&self) {
        self.overlay.lemma_finite();
        self.backing.lemma_finite();
        assert(self.blocks().dom() =~= self.durable().dom().union(self.staged().dom()));
    }

    fn get(&self, id: &ContentId) -> (r: Result<Option<Vec<u8>>, StoreFault>) {
        match self.overlay.get(id) {
            Err(fault) => Err(fault),
            Ok(Some(data)) => Ok(Some(data)),
            Ok(None) => self.backing.get(id),
        }
    }
}

impl<B: Blockstore> Blockstore for BufferedStore<B> {
    fn has(&self, id: &ContentId) -> (r: Result<bool, StoreFault>) {
        match self.overlay.has(id) {
            Err(fault) => Err(fault),
            Ok(true) => Ok(true),
            Ok(false) => self.backing.has(id),
        }
    }

    /// The block is staged; the backing store is not touched.
    fn put_keyed(&mut self, id: &ContentId, data: &[u8]) -> (r: Result<(), StoreFault>)
        ensures
            r is Ok,
            final(self).durable() == old(self).durable(),
            final(self).staged() == old(self).staged().insert(id@, data@),
    {
        let r = self.overlay.put_keyed(id, data);
        proof {
            assert(self.durable().union_prefer_right(old(self).staged().insert(id@, data@))
                =~= old(self).blocks().insert(id@, data@));
        }
        r
    }
}

} // verus!
