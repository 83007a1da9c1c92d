//! The actor state tree: actor records by identifier, persisted in a block
//! store as an index node that links to one block per record.

use vstd::prelude::*;
use crate::actor::{
    lemma_record_children, record_bytes, record_of, ActorID, ActorModel, ActorState,
};
use crate::codec::travels;
use crate::blockstore::{
    entries_map, lemma_entries_map_dom, with_block, BlockSource, Blockstore, StoreFault,
};
use crate::buffered::{partly_flushed, BufferedStore};
use crate::closure::{
    closure, collect_closure, each_in, edge, lemma_reachable_self, lemma_reachable_step, malformed,
    reachable, resolvable, ClosureError,
};
use crate::content_id::{content_id_of, CidModel, ContentId, HashKind, DAG_CBOR};
use crate::error::{ExecutionError, Fault};
use crate::index::{
    ascending, decode_index, encode_index, entries, index_bytes, index_of, lemma_index_children,
    lemma_link_at, linked,
    lemma_ascending_unique, lemma_link_map_finite, link_map, locate, upsert,
};

verus! {

/// The values of a list of written records.
pub open spec fn models(cache: Seq<(ActorID, ActorState)>) -> Seq<(ActorID, ActorModel)> {
    Seq::new(cache.len(), |i: int| (cache[i].0, cache[i].1@))
}

/// The record that a list of writes holds for `id`: the last one written.
pub open spec fn cache_get(writes: Seq<(ActorID, ActorModel)>, id: ActorID) -> Option<ActorModel>
    decreases writes.len(),
{
    if writes.len() == 0 {
        None
    } else if writes.last().0 == id {
        Some(writes.last().1)
    } else {
        cache_get(writes.drop_last(), id)
    }
}

/// The identifier under which a record is persisted.
pub open spec fn record_id(actor: ActorModel) -> CidModel {
    content_id_of(HashKind::Blake2b256, DAG_CBOR, record_bytes(actor))
}

/// The identifier under which an index node is persisted.
pub open spec fn index_id(list: Seq<(ActorID, CidModel)>) -> CidModel {
    content_id_of(HashKind::Blake2b256, DAG_CBOR, index_bytes(list))
}

/// The links of an index once the writes are persisted, each under the
/// identifier of its record.
pub open spec fn staged_links(base: Map<ActorID, CidModel>, writes: Seq<(ActorID,
    ActorModel)>) -> Map<
    ActorID,
    CidModel,
>
    decreases writes.len(),
{
    if writes.len() == 0 {
        base
    } else {
        staged_links(base, writes.drop_last()).insert(writes.last().0, record_id(writes.last().1))
    }
}

/// The blocks of a store once the writes are persisted, each record under
/// its identifier; a block that the store holds already stays as it is.
pub open spec fn staged_blocks(
    base: Map<CidModel, Seq<u8>>,
    writes: Seq<(ActorID, ActorModel)>,
) -> Map<CidModel, Seq<u8>>
    decreases writes.len(),
{
    if writes.len() == 0 {
        base
    } else {
        with_block(
            staged_blocks(base, writes.drop_last()),
            record_id(writes.last().1),
            record_bytes(writes.last().1),
        )
    }
}

/// The record that the index and the blocks hold for `id`.
pub open spec fn persisted(
    links: Map<ActorID, CidModel>,
    blocks: Map<CidModel, Seq<u8>>,
    id: ActorID,
) -> Option<ActorModel> {
    if links.contains_key(id) && blocks.contains_key(links[id]) {
        record_of(blocks[links[id]])
    } else {
        None
    }
}

/// What is staged once blocks were staged that make the store show `after`
/// where it showed `before`: what was staged, and the blocks that are new.
pub open spec fn newly_staged(
    staged: Map<CidModel, Seq<u8>>,
    before: Map<CidModel, Seq<u8>>,
    after: Map<CidModel, Seq<u8>>,
) -> Map<CidModel, Seq<u8>> {
    staged.union_prefer_right(after.remove_keys(before.dom()))
}

/// The ascending list of entries with the given links.
pub open spec fn sorted_entries(links: Map<ActorID, CidModel>) -> Seq<(ActorID, CidModel)> {
    choose|list: Seq<(ActorID, CidModel)>| ascending(list) && link_map(list) == links
}

/// An ascending list is the ascending list of its links.
pub proof fn lemma_sorted_entries(list: Seq<(ActorID, CidModel)>)
    requires
        ascending(list),
    ensures
        sorted_entries(link_map(list)) == list,
{
    let links = link_map(list);
    assert(ascending(list) && link_map(list) == links);
    lemma_ascending_unique(sorted_entries(links), list);
}

/// Every block of `before` is a block of `after`.
pub open spec fn grown(before: Map<CidModel, Seq<u8>>, after: Map<CidModel, Seq<u8>>) -> bool {
    forall|id: CidModel| #[trigger]
        before.contains_key(id) ==> after.contains_key(id) && after[id] == before[id]
}

/// Staging one more block, unless the store shows one under its
/// identifier, keeps count of what is newly staged.
pub proof fn lemma_stage_step(
    staged: Map<CidModel, Seq<u8>>,
    before: Map<CidModel, Seq<u8>>,
    now: Map<CidModel, Seq<u8>>,
    id: CidModel,
    data: Seq<u8>,
)
    requires
        grown(before, now),
    ensures
        grown(before, with_block(now, id, data)),
        newly_staged(staged, before, with_block(now, id, data)) == if now.contains_key(id) {
            newly_staged(staged, before, now)
        } else {
            newly_staged(staged, before, now).insert(id, data)
        },
        newly_staged(staged, before, before) == staged,
{
    let next = with_block(now, id, data);
    if now.contains_key(id) {
        assert(next == now);
    } else {
        assert(!before.contains_key(id));
        assert(newly_staged(staged, before, next) =~= newly_staged(staged, before, now).insert(
            id,
            data,
        ));
    }
    assert(newly_staged(staged, before, before) =~= staged);
}

/// The last write for `id` decides.
pub proof fn lemma_cache_last(writes: Seq<(ActorID, ActorModel)>, i: int, id: ActorID)
    requires
        0 <= i < writes.len(),
        writes[i].0 == id,
        forall|j: int| i < j < writes.len() ==> (#[trigger] writes[j]).0 != id,
    ensures
        cache_get(writes, id) == Some(writes[i].1),
    decreases writes.len(),
{
    if i < writes.len() - 1 {
        assert(writes[writes.len() - 1].0 != id);
        lemma_cache_last(writes.drop_last(), i, id);
    }
}

/// Without a write for `id` the list holds nothing for it, and the other
/// way round.
pub proof fn lemma_cache_absent(writes: Seq<(ActorID, ActorModel)>, id: ActorID)
    ensures
        cache_get(writes, id) is None <==> forall|j: int|
            0 <= j < writes.len() ==> (#[trigger] writes[j]).0 != id,
    decreases writes.len(),
{
    if writes.len() > 0 {
        let front = writes.drop_last();
        lemma_cache_absent(front, id);
        if writes.last().0 == id {
            assert(writes[writes.len() - 1].0 == id);
        } else if cache_get(front, id) is None {
            assert forall|j: int| 0 <= j < writes.len() implies (#[trigger] writes[j]).0 != id by {
                if j < front.len() {
                    assert(front[j].0 != id);
                }
            }
        } else {
            let j = choose|j: int| 0 <= j < front.len() && (#[trigger] front[j]).0 == id;
            assert(writes[j].0 == id);
        }
    }
}

/// The links after the writes are persisted: each actor that was written
/// has the link of its last record, and every other actor keeps its link.
/// So the order of the writes matters only through the last record of each
/// actor.
pub proof fn lemma_staged_links_by_actor(
    base: Map<ActorID, CidModel>,
    writes: Seq<(ActorID, ActorModel)>,
    id: ActorID,
)
    ensures
        staged_links(base, writes).contains_key(id) == (cache_get(writes, id) is Some
            || base.contains_key(id)),
        cache_get(writes, id) matches Some(record) ==> staged_links(base, writes)[id] == record_id(
            record,
        ),
        cache_get(writes, id) is None && base.contains_key(id) ==> staged_links(base, writes)[id]
            == base[id],
    decreases writes.len(),
{
    if writes.len() > 0 {
        lemma_staged_links_by_actor(base, writes.drop_last(), id);
    }
}

/// Two lists of writes that leave every actor with the same last record
/// lead to the same links, whatever their order.
pub proof fn lemma_staged_links_order(
    base: Map<ActorID, CidModel>,
    one: Seq<(ActorID, ActorModel)>,
    other: Seq<(ActorID, ActorModel)>,
)
    requires
        forall|id: ActorID| cache_get(one, id) == cache_get(other, id),
    ensures
        staged_links(base, one) == staged_links(base, other),
{
    let a = staged_links(base, one);
    let b = staged_links(base, other);
    assert forall|id: ActorID| #[trigger] a.dom().contains(id) == b.dom().contains(id) by {
        lemma_staged_links_by_actor(base, one, id);
        lemma_staged_links_by_actor(base, other, id);
    }
    assert forall|id: ActorID| a.dom().contains(id) implies #[trigger] a[id] == b[id] by {
        lemma_staged_links_by_actor(base, one, id);
        lemma_staged_links_by_actor(base, other, id);
    }
    assert(a =~= b);
}

/// The root of a tree is decided by the links of its index: two trees in
/// order with the same links have the same index node, and so the same
/// identifier for it.
pub proof fn lemma_root_decided_by_links<B: Blockstore>(one: StateTree<B>, other: StateTree<B>)
    requires
        one.wf(),
        other.wf(),
        one.links() == other.links(),
    ensures
        one.index_entries() == other.index_entries(),
        index_id(one.index_entries()) == index_id(other.index_entries()),
{
    one.lemma_index_ascends();
    other.lemma_index_ascends();
    lemma_ascending_unique(one.index_entries(), other.index_entries());
}

/// In a store that holds an index node under `root`, the root reaches the
/// record of each entry of the node, where the links of the node travel.
pub proof fn lemma_root_reaches_records(
    blocks: Map<CidModel, Seq<u8>>,
    root: CidModel,
    list: Seq<(ActorID, CidModel)>,
    i: int,
)
    requires
        root.codec == DAG_CBOR,
        blocks.contains_key(root),
        blocks[root] == index_bytes(list),
        forall|k: int| 0 <= k < list.len() ==> travels((#[trigger] list[k]).1),
        index_bytes(list).len() <= usize::MAX,
        list.len() <= u64::MAX,
        0 <= i < list.len(),
    ensures
        reachable(blocks, root, list[i].1),
{
    lemma_index_children(root, list);
    lemma_reachable_self(blocks, root);
    assert(linked(list)[i] == list[i].1);
    assert(edge(blocks, root, list[i].1));
    lemma_reachable_step(blocks, root, root, list[i].1);
}

/// A root that reaches a record, held under its link, reaches the code and
/// the state of the record, where their identifiers travel.
pub proof fn lemma_record_reaches_code_and_state(
    blocks: Map<CidModel, Seq<u8>>,
    root: CidModel,
    link: CidModel,
    actor: ActorModel,
)
    requires
        reachable(blocks, root, link),
        link.codec == DAG_CBOR,
        blocks.contains_key(link),
        blocks[link] == record_bytes(actor),
        travels(actor.code),
        travels(actor.state),
        record_bytes(actor).len() <= usize::MAX,
    ensures
        reachable(blocks, root, actor.code),
        reachable(blocks, root, actor.state),
{
    lemma_record_children(link, actor);
    let kids = seq![actor.code, actor.state];
    assert(kids[0] == actor.code && kids[1] == actor.state);
    assert(edge(blocks, link, actor.code));
    assert(edge(blocks, link, actor.state));
    lemma_reachable_step(blocks, root, link, actor.code);
    lemma_reachable_step(blocks, root, link, actor.state);
}

/// Persisting writes leaves the links of other identifiers as they were.
pub proof fn lemma_staged_links_other(
    base: Map<ActorID, CidModel>,
    writes: Seq<(ActorID, ActorModel)>,
    id: ActorID,
)
    requires
        forall|j: int| 0 <= j < writes.len() ==> (#[trigger] writes[j]).0 != id,
    ensures
        staged_links(base, writes).contains_key(id) == base.contains_key(id),
        base.contains_key(id) ==> staged_links(base, writes)[id] == base[id],
    decreases writes.len(),
{
    if writes.len() > 0 {
        let front = writes.drop_last();
        assert(writes[writes.len() - 1].0 != id);
        assert forall|j: int| 0 <= j < front.len() implies (#[trigger] front[j]).0 != id by {
            assert(writes[j].0 != id);
        }
        lemma_staged_links_other(base, front, id);
    }
}

/// The actor state tree, kept in a buffer over the block store `B`.
pub struct StateTree<B> {
    store: BufferedStore<B>,
    root: ContentId,
    index: Vec<(ActorID, ContentId)>,
    cache: Vec<(ActorID, ActorState)>,
    flushed: usize,
}

impl<B: Blockstore> StateTree<B> {
    /// The tree is in order: the index ascends and the store holds the root.
    pub closed spec fn wf(&self) -> bool {
        ascending(entries(self.index@)) && self.flushed <= self.cache@.len()
            && self.store.blocks().contains_key(self.root@)
    }

    /// The block store under the tree.
    pub closed spec fn store_view(&self) -> BufferedStore<B> {
        self.store
    }

    /// The blocks that the store shows.
    pub open spec fn blocks(&self) -> Map<CidModel, Seq<u8>> {
        self.store_view().blocks()
    }

    /// The root that the tree was opened at or last flushed to.
    pub closed spec fn root_id(&self) -> CidModel {
        self.root@
    }

    /// The entries of the index node.
    pub closed spec fn index_entries(&self) -> Seq<(ActorID, CidModel)> {
        entries(self.index@)
    }

    /// The links of the index node, by actor.
    pub open spec fn links(&self) -> Map<ActorID, CidModel> {
        link_map(self.index_entries())
    }

    /// The records written since the tree was opened, oldest first.
    pub closed spec fn written(&self) -> Seq<(ActorID, ActorModel)> {
        models(self.cache@)
    }

    /// How many of the written records a flush has persisted.
    pub closed spec fn persisted_count(&self) -> int {
        self.flushed as int
    }

    /// The written records that no flush has persisted yet.
    pub open spec fn staged(&self) -> Seq<(ActorID, ActorModel)> {
        self.written().subrange(self.persisted_count(), self.written().len() as int)
    }

    /// Nothing was written since the last flush.
    pub open spec fn clean(&self) -> bool {
        self.persisted_count() == self.written().len()
    }

    /// The record of the actor `id`, if the tree holds one: the last one
    /// written, or else the one that the index and the store hold.
    pub closed spec fn actor(&self, id: ActorID) -> Option<ActorModel> {
        match cache_get(self.written(), id) {
            Some(a) => Some(a),
            None => persisted(self.links(), self.blocks(), id),
        }
    }

    /// The index names a record for `id` that the store does not hold.
    pub closed spec fn dangling(&self, id: ActorID) -> bool {
        cache_get(self.written(), id) is None && self.links().contains_key(id)
            && !self.blocks().contains_key(self.links()[id])
    }

    /// The index names a record for `id` that cannot be read.
    pub closed spec fn corrupt(&self, id: ActorID) -> bool {
        cache_get(self.written(), id) is None && self.links().contains_key(id) && persisted(
            self.links(),
            self.blocks(),
            id,
        ) is None
    }

    /// The entries of the index node after the next flush.
    pub open spec fn next_entries(&self) -> Seq<(ActorID, CidModel)> {
        if self.clean() {
            self.index_entries()
        } else {
            sorted_entries(staged_links(self.links(), self.staged()))
        }
    }

    /// The root that the next flush returns.
    pub open spec fn next_root(&self) -> CidModel {
        if self.clean() {
            self.root_id()
        } else {
            index_id(self.next_entries())
        }
    }

    /// The blocks that the store shows after the next flush.
    pub open spec fn next_blocks(&self) -> Map<CidModel, Seq<u8>> {
        if self.clean() {
            self.blocks()
        } else {
            with_block(
                staged_blocks(self.blocks(), self.staged()),
                self.next_root(),
                index_bytes(self.next_entries()),
            )
        }
    }

    /// The blocks that wait in the buffer after the next flush of the tree.
    pub open spec fn next_staged(&self) -> Map<CidModel, Seq<u8>> {
        newly_staged(self.store_view().staged(), self.blocks(), self.next_blocks())
    }

    /// A tree holds the records of finitely many actors.
    pub proof fn lemma_actors_finite(&self)
        ensures
            self.actors().dom().finite(),
    {
        let ids = Seq::new(self.written().len(), |i: int| self.written()[i].0);
        vstd::seq_lib::seq_to_set_is_finite(ids);
        lemma_link_map_finite(self.index_entries());
        let around = ids.to_set().union(self.links().dom());
        assert(self.actors().dom().subset_of(around)) by {
            assert forall|id: ActorID| self.actors().dom().contains(id) implies around.contains(
                id,
            ) by {
                if cache_get(self.written(), id) is Some {
                    lemma_cache_absent(self.written(), id);
                    let j = choose|j: int|
                        0 <= j < self.written().len() && (#[trigger] self.written()[j]).0 == id;
                    assert(ids[j] == id);
                }
            }
        }
        vstd::set_lib::lemma_set_subset_finite(around, self.actors().dom());
    }

    /// The index of a tree in order ascends.
    pub proof fn lemma_index_ascends(&self)
        requires
            self.wf(),
        ensures
            ascending(self.index_entries()),
    {
    }

    /// What the record of an actor, a dangling link and a corrupt record are.
    pub proof fn lemma_actor(&self, id: ActorID)
        ensures
            self.actor(id) == match cache_get(self.written(), id) {
                Some(a) => Some(a),
                None => persisted(self.links(), self.blocks(), id),
            },
            self.dangling(id) == (cache_get(self.written(), id) is None
                && self.links().contains_key(
                id,
            ) && !self.blocks().contains_key(self.links()[id])),
            self.corrupt(id) == (cache_get(self.written(), id) is None && self.links().contains_key(
                id,
            ) && persisted(self.links(), self.blocks(), id) is None),
    {
    }

    /// A lookup of `id` cannot fail: the record is not corrupt, and it is
    /// written in the tree or the store does not fail.
    pub open spec fn readable(&self, id: ActorID) -> bool {
        !self.corrupt(id) && (self.store_view().reliable() || cache_get(self.written(), id) is Some)
    }

    /// All the records of the tree, by actor.
    pub open spec fn actors(&self) -> Map<ActorID, ActorModel> {
        Map::new(|id: ActorID| self.actor(id) is Some, |id: ActorID| self.actor(id)->0)
    }

    /// Opens the tree whose index node is stored under `root`. The records
    /// are read when they are asked for. On failure the store comes back.
    pub fn new_from_root(store: BufferedStore<B>, root: &ContentId) -> (r: Result<
        StateTree<B>,
        (Fault, BufferedStore<B>),
    >)
        ensures
            match r {
                Ok(tree) => tree.wf() && tree.store_view() == store && tree.root_id() == root@
                    && tree.clean() && tree.written().len() == 0 && store.blocks().contains_key(
                    root@,
                ) && index_of(store.blocks()[root@]) == Some(tree.index_entries()),
                Err((Fault::Corrupt, back)) => back == store && (!store.blocks().contains_key(root@)
                    || index_of(store.blocks()[root@]) is None),
                Err((Fault::Store, back)) => back == store && !store.reliable(),
                Err(_) => false,
            },
    {
        let found = match store.get(root) {
            Err(_) => {
                return Err((Fault::Store, store));
            },
            Ok(found) => found,
        };
        let bytes = match found {
            None => {
                return Err((Fault::Corrupt, store));
            },
            Some(bytes) => bytes,
        };
        let index = match decode_index(bytes.as_slice()) {
            None => {
                return Err((Fault::Corrupt, store));
            },
            Some(index) => index,
        };
        proof {
            reveal(index_of);
        }
        let tree = StateTree { store, root: root.clone(), index, cache: Vec::new(), flushed: 0 };
        assert(tree.written() =~= Seq::empty());
        Ok(tree)
    }

    /// The block store under the tree.
    pub fn store(&self) -> (s: &BufferedStore<B>)
        ensures
            *s == self.store_view(),
    {
        &self.store
    }

    /// Gives up the tree and returns its store. Records that were written
    /// and not flushed are lost.
    pub fn into_store(self) -> (s: BufferedStore<B>)
        ensures
            s == self.store_view(),
    {
        self.store
    }

    /// The root that the tree was opened at or last flushed to.
    pub fn root(&self) -> (root: &ContentId)
        ensures
            root@ == self.root_id(),
    {
        &self.root
    }

    /// Looks up the record of the actor `id`. It fails only where the store
    /// fails or the index names a record that cannot be read.
    pub fn get_actor(&self, id: ActorID) -> (r: Result<Option<ActorState>, ExecutionError>)
        requires
            self.wf(),
        ensures
            match r {
                Ok(Some(actor)) => self.actor(id) == Some(actor@) && !self.corrupt(id),
                Ok(None) => self.actor(id) is None && !self.corrupt(id),
                Err(ExecutionError::Fatal(Fault::Corrupt)) => self.corrupt(id),
                Err(ExecutionError::Fatal(Fault::Store)) => !self.store_view().reliable()
                    && cache_get(self.written(), id) is None,
                Err(_) => false,
            },
    {
        let ghost writes = models(self.cache@);
        let mut i: usize = self.cache.len();
        while i > 0
            invariant
                i <= self.cache@.len(),
                writes == models(self.cache@),
                forall|j: int| i <= j < writes.len() ==> (#[trigger] writes[j]).0 != id,
            decreases i,
        {
            i = i - 1;
            if self.cache[i].0 == id {
                proof {
                    assert(writes[i as int].0 == id);
                    lemma_cache_last(writes, i as int, id);
                }
                return Ok(Some(self.cache[i].1.clone()));
            }
        }
        proof {
            lemma_cache_absent(writes, id);
        }
        let (pos, found) = locate(&self.index, id);
        if !found {
            return Ok(None);
        }
        proof {
            lemma_link_at(entries(self.index@), pos as int);
        }
        match self.store.get(&self.index[pos].1) {
            Err(_) => Err(ExecutionError::Fatal(Fault::Store)),
            Ok(None) => Err(ExecutionError::Fatal(Fault::Corrupt)),
            Ok(Some(bytes)) => match ActorState::decode(bytes.as_slice()) {
                None => Err(ExecutionError::Fatal(Fault::Corrupt)),
                Some(actor) => Ok(Some(actor)),
            },
        }
    }

    /// Stages the record of the actor `id`. Nothing is persisted before the
    /// next flush.
    pub fn set_actor(&mut self, id: ActorID, actor: ActorState)
        requires
            old(self).wf(),
        ensures
            final(self).wf(),
            final(self).store_view() == old(self).store_view(),
            final(self).root_id() == old(self).root_id(),
            final(self).index_entries() == old(self).index_entries(),
            final(self).written() == old(self).written().push((id, actor@)),
            final(self).persisted_count() == old(self).persisted_count(),
            !final(self).clean(),
            forall|other: ActorID|
                #![trigger final(self).actor(other)]
                final(self).actor(other) == if other == id {
                    Some(actor@)
                } else {
                    old(self).actor(other)
                },
            final(self).readable(id),
            !final(self).dangling(id),
            forall|other: ActorID|
                #![trigger final(self).readable(other)]
                old(self).readable(other) ==> final(self).readable(other),
            forall|other: ActorID|
                #![trigger final(self).dangling(other)]
                final(self).dangling(other) ==> old(self).dangling(other),
    {
        let ghost before = models(self.cache@);
        let ghost value = actor@;
        self.cache.push((id, actor));
        proof {
            assert(models(self.cache@) =~= before.push((id, value)));
            assert(models(self.cache@).drop_last() =~= before);
        }
    }

    /// Persists the staged records and the index node that links to them,
    /// and returns the identifier of that node: the new root. The root is
    /// decided by the links of the index alone, whatever the order in which
    /// the records were written. Where nothing is staged, nothing is
    /// written and the root stays.
    #[verifier::rlimit(40)]
    pub fn flush(&mut self) -> (r: Result<ContentId, ExecutionError>)
        requires
            old(self).wf(),
        ensures
            final(self).wf(),
            final(self).written() == old(self).written(),
            final(self).store_view().reliable() == old(self).store_view().reliable(),
            final(self).store_view().durable() == old(self).store_view().durable(),
            grown(old(self).blocks(), final(self).blocks()),
            forall|id: ActorID|
                #![trigger final(self).actor(id)]
                !old(self).dangling(id) ==> final(self).actor(id) == old(self).actor(id),
            forall|id: ActorID|
                #![trigger final(self).readable(id)]
                old(self).readable(id) ==> final(self).readable(id),
            forall|id: ActorID|
                #![trigger final(self).dangling(id)]
                final(self).dangling(id) ==> old(self).dangling(id),
            old(self).clean() ==> r is Ok && r->Ok_0@ == old(self).root_id() && *final(self)
                == *old(self),
            old(self).store_view().reliable() ==> r is Ok,
            final(self).store_view().staged() == newly_staged(
                old(self).store_view().staged(),
                old(self).blocks(),
                final(self).blocks(),
            ),
            r matches Ok(root) ==> root@ == old(self).next_root() && final(self).index_entries()
                == old(self).next_entries() && final(self).blocks() == old(self).next_blocks()
                && final(self).store_view().staged() == old(self).next_staged(),
            match r {
                Ok(root) => root@ == final(self).root_id() && final(self).clean()
                    && final(self).blocks().contains_key(root@) && (!old(self).clean() ==> root@
                    == index_id(final(self).index_entries()) && final(self).links()
                    == staged_links(old(self).links(), old(self).staged())
                    && final(self).blocks() == with_block(
                    staged_blocks(old(self).blocks(), old(self).staged()),
                    root@,
                    index_bytes(final(self).index_entries()),
                )),
                Err(ExecutionError::Fatal(Fault::Store)) => !old(self).store_view().reliable()
                    && final(self).root_id() == old(self).root_id(),
                Err(_) => false,
            },
    {
        proof {
            lemma_stage_step(
                self.store.staged(),
                self.store.blocks(),
                self.store.blocks(),
                self.root@,
                Seq::empty(),
            );
        }
        if self.flushed == self.cache.len() {
            return Ok(self.root.clone());
        }
        let ghost writes = models(self.cache@);
        let ghost base = self.links();
        let ghost first = self.flushed as int;
        let mut i: usize = self.flushed;
        assert(writes.subrange(first, first) =~= Seq::empty());
        while i < self.cache.len()
            invariant
                first <= i <= self.cache@.len(),
                first == self.flushed == old(self).flushed,
                self.cache@ == old(self).cache@,
                self.root == old(self).root,
                old(self).store.blocks().contains_key(old(self).root@),
                writes == models(self.cache@),
                base == old(self).links(),
                ascending(entries(self.index@)),
                link_map(entries(self.index@)) == staged_links(
                    base,
                    writes.subrange(first, i as int),
                ),
                grown(old(self).blocks(), self.store.blocks()),
                self.store.blocks() == staged_blocks(
                    old(self).blocks(),
                    writes.subrange(first, i as int),
                ),
                self.store.staged() == newly_staged(
                    old(self).store.staged(),
                    old(self).blocks(),
                    self.store.blocks(),
                ),
                self.store.reliable() == old(self).store.reliable(),
                self.store.durable() == old(self).store.durable(),
            decreases self.cache@.len() - i,
        {
            let id = self.cache[i].0;
            let bytes = self.cache[i].1.encode();
            proof {
                lemma_stage_step(
                    old(self).store.staged(),
                    old(self).blocks(),
                    self.store.blocks(),
                    content_id_of(HashKind::Blake2b256, DAG_CBOR, bytes@),
                    bytes@,
                );
            }
            let link = match self.store.stage(HashKind::Blake2b256, DAG_CBOR, bytes.as_slice()) {
                Err(_) => {
                    proof {
                        lemma_view_kept(*old(self), *self, writes.subrange(first, i as int));
                    }
                    return Err(ExecutionError::Fatal(Fault::Store));
                },
                Ok(link) => link,
            };
            upsert(&mut self.index, id, link);
            proof {
                assert(writes.subrange(first, i + 1).drop_last() =~= writes.subrange(
                    first,
                    i as int,
                ));
                assert(writes.subrange(first, i + 1).last() == writes[i as int]);
            }
            i = i + 1;
        }
        let node = encode_index(&self.index);
        proof {
            lemma_stage_step(
                old(self).store.staged(),
                old(self).blocks(),
                self.store.blocks(),
                content_id_of(HashKind::Blake2b256, DAG_CBOR, node@),
                node@,
            );
            lemma_sorted_entries(entries(self.index@));
            assert(writes.subrange(first, i as int) == old(self).staged());
        }
        let root = match self.store.stage(HashKind::Blake2b256, DAG_CBOR, node.as_slice()) {
            Err(_) => {
                proof {
                    lemma_view_kept(*old(self), *self, writes.subrange(first, i as int));
                }
                return Err(ExecutionError::Fatal(Fault::Store));
            },
            Ok(root) => root,
        };
        self.root = root.clone();
        self.flushed = self.cache.len();
        proof {
            lemma_view_kept(*old(self), *self, writes.subrange(first, i as int));
        }
        Ok(root)
    }

    /// Stores a block beside the tree's own, unless the store already holds
    /// one under the same identifier.
    pub fn stage_block(&mut self, id: &ContentId, data: &[u8]) -> (r: Result<(), StoreFault>)
        requires
            old(self).wf(),
        ensures
            final(self).wf(),
            final(self).written() == old(self).written(),
            final(self).persisted_count() == old(self).persisted_count(),
            final(self).index_entries() == old(self).index_entries(),
            final(self).root_id() == old(self).root_id(),
            final(self).store_view().reliable() == old(self).store_view().reliable(),
            final(self).store_view().durable() == old(self).store_view().durable(),
            old(self).store_view().reliable() ==> r is Ok,
            r is Ok ==> final(self).blocks() == with_block(old(self).blocks(), id@, data@),
            r is Err ==> final(self).blocks() == old(self).blocks(),
            final(self).store_view().staged() == newly_staged(
                old(self).store_view().staged(),
                old(self).blocks(),
                final(self).blocks(),
            ),
            forall|other: ActorID|
                #![trigger final(self).actor(other)]
                !old(self).dangling(other) ==> final(self).actor(other) == old(self).actor(other),
            forall|other: ActorID|
                #![trigger final(self).readable(other)]
                old(self).readable(other) ==> final(self).readable(other),
            forall|other: ActorID|
                #![trigger final(self).dangling(other)]
                final(self).dangling(other) ==> old(self).dangling(other),
    {
        proof {
            lemma_stage_step(
                self.store.staged(),
                self.store.blocks(),
                self.store.blocks(),
                id@,
                data@,
            );
        }
        let r = self.store.stage_keyed(id, data);
        proof {
            lemma_view_kept(*old(self), *self, Seq::empty());
        }
        r
    }

}

/// The identifiers of the first `n` entries of a list of blocks.
pub open spec fn taken(found: Seq<(ContentId, Vec<u8>)>, n: int) -> Set<CidModel> {
    Set::new(|id: CidModel| exists|j: int| 0 <= j < n && j < found.len()
        && (#[trigger] found[j]).0@ == id)
}

impl<B: Blockstore> StateTree<B> {
    /// Takes over from `src` every block that `root` reaches there, unless
    /// the store already holds a block under the same identifier. A link
    /// that leaves `src` must lead to a block that the store holds. Nothing
    /// is taken over unless all that `root` reaches can be resolved.
    #[verifier::rlimit(40)]
    pub fn absorb<T: BlockSource>(&mut self, src: &T, root: &ContentId) -> (r: Result<
        (),
        ClosureError,
    >)
        requires
            old(self).wf(),
        ensures
            final(self).wf(),
            final(self).written() == old(self).written(),
            final(self).persisted_count() == old(self).persisted_count(),
            final(self).index_entries() == old(self).index_entries(),
            final(self).root_id() == old(self).root_id(),
            final(self).store_view().reliable() == old(self).store_view().reliable(),
            final(self).store_view().durable() == old(self).store_view().durable(),
            grown(old(self).blocks(), final(self).blocks()),
            final(self).store_view().staged() == newly_staged(
                old(self).store_view().staged(),
                old(self).blocks(),
                final(self).blocks(),
            ),
            forall|other: ActorID|
                #![trigger final(self).actor(other)]
                !old(self).dangling(other) ==> final(self).actor(other) == old(self).actor(other),
            forall|other: ActorID|
                #![trigger final(self).readable(other)]
                old(self).readable(other) ==> final(self).readable(other),
            forall|other: ActorID|
                #![trigger final(self).dangling(other)]
                final(self).dangling(other) ==> old(self).dangling(other),
            match r {
                Ok(()) => resolvable(src.blocks(), old(self).blocks(), root@)
                    && final(self).blocks()
                    == closure(src.blocks(), root@).union_prefer_right(old(self).blocks()),
                Err(ClosureError::Malformed) => *final(self) == *old(self)
                    && exists|id: CidModel|
                    reachable(src.blocks(), root@, id) && malformed(src.blocks(), id),
                Err(ClosureError::Unresolved) => *final(self) == *old(self)
                    && exists|id: CidModel|
                    reachable(src.blocks(), root@, id) && !src.blocks().contains_key(id)
                        && !old(self).blocks().contains_key(id),
                Err(ClosureError::Store(_)) => !(src.reliable()
                    && old(self).store_view().reliable()),
            },
    {
        let ghost base = self.store.blocks();
        proof {
            lemma_stage_step(self.store.staged(), base, base, root@, Seq::empty());
        }
        let ghost reached = closure(src.blocks(), root@);
        let found = match collect_closure(src, &self.store, root) {
            Err(e) => {
                proof {
                    lemma_view_kept(*old(self), *self, Seq::empty());
                }
                return Err(e);
            },
            Ok(found) => found,
        };
        let mut i: usize = 0;
        assert(reached.restrict(taken(found@, 0)).union_prefer_right(base) =~= base);
        while i < found.len()
            invariant
                i <= found@.len(),
                self.wf(),
                self.cache == old(self).cache,
                self.flushed == old(self).flushed,
                self.index == old(self).index,
                self.root == old(self).root,
                base == old(self).store.blocks(),
                self.store.reliable() == old(self).store.reliable(),
                self.store.durable() == old(self).store.durable(),
                grown(base, self.store.blocks()),
                self.store.staged() == newly_staged(
                    old(self).store.staged(),
                    base,
                    self.store.blocks(),
                ),
                each_in(found@, reached),
                self.store.blocks() == reached.restrict(taken(found@, i as int)).union_prefer_right(
                    base,
                ),
            decreases found@.len() - i,
        {
            let ghost now = self.store.blocks();
            proof {
                lemma_stage_step(
                    old(self).store.staged(),
                    base,
                    now,
                    found@[i as int].0@,
                    found@[i as int].1@,
                );
            }
            match self.store.stage_keyed(&found[i].0, found[i].1.as_slice()) {
                Err(fault) => {
                    proof {
                        assert(self.store.blocks() =~= now);
                        lemma_view_kept(*old(self), *self, Seq::empty());
                    }
                    return Err(ClosureError::Store(fault));
                },
                Ok(()) => {},
            }
            proof {
                let key = found@[i as int].0@;
                assert(taken(found@, i + 1) =~= taken(found@, i as int).insert(key));
                assert(self.store.blocks() =~= reached.restrict(
                    taken(found@, i + 1),
                ).union_prefer_right(base));
            }
            i = i + 1;
        }
        proof {
            lemma_entries_map_dom(found@);
            assert(reached.restrict(taken(found@, i as int)) =~= reached) by {
                assert forall|id: CidModel| reached.contains_key(id) implies taken(
                    found@,
                    i as int,
                ).contains(id) by {
                    assert(entries_map(found@).contains_key(id));
                    let j = choose|j: int|
                        0 <= j < found@.len() && found@[j].0@ == id && found@[j].1@ == entries_map(
                            found@,
                        )[id];
                    assert(found@[j].0@ == id);
                }
            }
            lemma_view_kept(*old(self), *self, Seq::empty());
        }
        Ok(())
    }
}

impl<B: Blockstore> StateTree<B> {
    /// Makes durable what `root` reaches among the staged blocks of the
    /// store: see [`BufferedStore::flush`]. What the tree shows stays as it is.
    #[verifier::rlimit(40)]
    pub fn flush_store(&mut self, root: &ContentId) -> (r: Result<(), ClosureError>)
        requires
            old(self).wf(),
        ensures
            final(self).wf(),
            final(self).written() == old(self).written(),
            final(self).persisted_count() == old(self).persisted_count(),
            final(self).index_entries() == old(self).index_entries(),
            final(self).root_id() == old(self).root_id(),
            final(self).blocks() == old(self).blocks(),
            final(self).store_view().staged() == old(self).store_view().staged(),
            final(self).store_view().reliable() == old(self).store_view().reliable(),
            forall|id: ActorID|
                #![trigger final(self).actor(id)]
                final(self).actor(id) == old(self).actor(id),
            forall|id: ActorID|
                #![trigger final(self).readable(id)]
                old(self).readable(id) ==> final(self).readable(id),
            forall|id: ActorID|
                #![trigger final(self).dangling(id)]
                final(self).dangling(id) ==> old(self).dangling(id),
            partly_flushed(
                old(self).store_view().durable(),
                final(self).store_view().durable(),
                closure(old(self).store_view().staged(), root@),
            ),
            match r {
                Ok(()) => resolvable(
                    old(self).store_view().staged(),
                    old(self).store_view().durable(),
                    root@,
                ) && final(self).store_view().durable()
                    == old(self).store_view().durable().union_prefer_right(
                    closure(old(self).store_view().staged(), root@),
                ),
                Err(ClosureError::Malformed) => final(self).store_view().durable()
                    == old(self).store_view().durable() && exists|id: CidModel|
                    reachable(old(self).store_view().staged(), root@, id) && malformed(
                        old(self).store_view().staged(),
                        id,
                    ),
                Err(ClosureError::Unresolved) => final(self).store_view().durable()
                    == old(self).store_view().durable() && exists|id: CidModel|
                    reachable(old(self).store_view().staged(), root@, id)
                        && !old(self).store_view().staged().contains_key(id)
                        && !old(self).store_view().durable().contains_key(id),
                Err(ClosureError::Store(_)) => !old(self).store_view().reliable(),
            },
    {
        self.store.flush(root)
    }
}

/// A tree whose written records are those of `before`, whose links are the
/// links of `before` with some of those records persisted, and whose store
/// has only grown, shows every actor as `before` did.
proof fn lemma_view_kept<B: Blockstore>(
    before: StateTree<B>,
    after: StateTree<B>,
    done: Seq<(ActorID, ActorModel)>,
)
    requires
        after.written() == before.written(),
        after.links() == staged_links(before.links(), done),
        grown(before.blocks(), after.blocks()),
        forall|j: int|
            0 <= j < done.len() ==> exists|k: int|
                0 <= k < before.written().len() && (#[trigger] before.written()[k]).0 == (
                #[trigger] done[j]).0,
        after.store_view().reliable() == before.store_view().reliable(),
    ensures
        forall|id: ActorID|
            #![trigger after.actor(id)]
            !before.dangling(id) ==> after.actor(id) == before.actor(id),
        forall|id: ActorID|
            #![trigger after.readable(id)]
            before.readable(id) ==> after.readable(id),
        forall|id: ActorID|
            #![trigger after.dangling(id)]
            after.dangling(id) ==> before.dangling(id),
{
    assert forall|id: ActorID|
        #![trigger after.dangling(id)]
        after.dangling(id) implies before.dangling(id) by {
        lemma_cache_absent(before.written(), id);
        assert forall|j: int| 0 <= j < done.len() implies (#[trigger] done[j]).0 != id by {
            let k = choose|k: int|
                0 <= k < before.written().len() && (#[trigger] before.written()[k]).0 == done[j].0;
            assert(before.written()[k].0 != id);
        }
        lemma_staged_links_other(before.links(), done, id);
    }
    assert forall|id: ActorID|
        #![trigger after.readable(id)]
        before.readable(id) implies after.readable(id) by {
        if cache_get(before.written(), id) is None {
            lemma_cache_absent(before.written(), id);
            assert forall|j: int| 0 <= j < done.len() implies (#[trigger] done[j]).0 != id by {
                let k = choose|k: int|
                    0 <= k < before.written().len() && (#[trigger] before.written()[k]).0
                        == done[j].0;
                assert(before.written()[k].0 != id);
            }
            lemma_staged_links_other(before.links(), done, id);
        }
    }
    assert forall|id: ActorID| #![trigger after.actor(id)] !before.dangling(id) implies after.actor(
        id,
    ) == before.actor(id) by {
        if cache_get(before.written(), id) is None {
            lemma_cache_absent(before.written(), id);
            assert forall|j: int| 0 <= j < done.len() implies (#[trigger] done[j]).0 != id by {
                let k = choose|k: int|
                    0 <= k < before.written().len() && (#[trigger] before.written()[k]).0
                        == done[j].0;
                assert(before.written()[k].0 != id);
            }
            lemma_staged_links_other(before.links(), done, id);
        }
    }
}

} // verus!
