//! The blocks that a root reaches through embedded links.

use vstd::prelude::*;
use crate::blockstore::{
    entries_map, lemma_entries_map_dom, lemma_entries_map_last, BlockSource, Blockstore,
    StoreFault,
};
use crate::cbor::{byte_strings, links_of, scan_links};
use crate::content_id::{link_target, read_link_target, CidModel, ContentId, DAG_CBOR};

verus! {

/// The values of a list of identifiers.
pub open spec fn ids(list: Seq<ContentId>) -> Seq<CidModel> {
    Seq::new(list.len(), |i: int| list[i]@)
}

/// The blocks that a list of links points to; `None` where one of them does
/// not hold an identifier.
pub open spec fn targets(raw: Seq<Seq<u8>>) -> Option<Seq<CidModel>> {
    if forall|i: int| 0 <= i < raw.len() ==> (#[trigger] link_target(raw[i])) is Some {
        Some(Seq::new(raw.len(), |i: int| link_target(raw[i])->0))
    } else {
        None
    }
}

/// The blocks that the block `data`, stored under `id`, links to. Only
/// DAG-CBOR blocks link; `None` where such a block is malformed.
pub open spec fn children(id: CidModel, data: Seq<u8>) -> Option<Seq<CidModel>> {
    if id.codec != DAG_CBOR {
        Some(Seq::empty())
    } else {
        match links_of(data) {
            None => None,
            Some(raw) => targets(raw),
        }
    }
}

/// Reads the identifiers of the blocks that a block links to.
pub fn children_of(id: &ContentId, data: &[u8]) -> (r: Option<Vec<ContentId>>)
    ensures
        match r {
            Some(list) => children(id@, data@) == Some(ids(list@)),
            None => children(id@, data@) is None,
        },
{
    let mut out: Vec<ContentId> = Vec::new();
    if id.codec() != DAG_CBOR {
        assert(ids(out@) =~= Seq::empty());
        return Some(out);
    }
    let raw = match scan_links(data) {
        None => {
            return None;
        },
        Some(raw) => raw,
    };
    let ghost links = byte_strings(raw@);
    let mut i: usize = 0;
    while i < raw.len()
        invariant
            i <= raw@.len(),
            out@.len() == i,
            links == byte_strings(raw@),
            id@.codec == DAG_CBOR,
            links_of(data@) == Some(links),
            forall|j: int| 0 <= j < i ==> #[trigger] link_target(links[j]) == Some(out@[j]@),
        decreases raw@.len() - i,
    {
        match read_link_target(raw[i].as_slice()) {
            None => {
                assert(link_target(links[i as int]) is None);
                return None;
            },
            Some(target) => {
                out.push(target);
            },
        }
        i = i + 1;
    }
    assert(ids(out@) =~= Seq::new(links.len(), |i: int| link_target(links[i])->0));
    Some(out)
}

/// Block `a` is held and links to `b`.
pub open spec fn edge(src: Map<CidModel, Seq<u8>>, a: CidModel, b: CidModel) -> bool {
    src.contains_key(a) && children(a, src[a]) is Some && children(a, src[a])->0.contains(b)
}

/// Each block of `path` links to the next one.
pub open spec fn is_path(src: Map<CidModel, Seq<u8>>, path: Seq<CidModel>) -> bool {
    path.len() > 0 && forall|i: int|
        0 <= i < path.len() - 1 ==> edge(src, #[trigger] path[i], path[i + 1])
}

/// A chain of links through the blocks of `src` leads from `root` to `id`.
pub open spec fn reachable(src: Map<CidModel, Seq<u8>>, root: CidModel, id: CidModel) -> bool {
    exists|path: Seq<CidModel>| #[trigger]
        is_path(src, path) && path[0] == root && path.last() == id
}

/// `id` names a block of `src` whose links cannot be read.
pub open spec fn malformed(src: Map<CidModel, Seq<u8>>, id: CidModel) -> bool {
    src.contains_key(id) && children(id, src[id]) is None
}

/// The blocks of `src` that `root` reaches.
#[verifier::opaque]
pub open spec fn closure(src: Map<CidModel, Seq<u8>>, root: CidModel) -> Map<CidModel, Seq<u8>> {
    Map::new(|id: CidModel| src.contains_key(id)
        && reachable(src, root, id), |id: CidModel| src[id])
}

/// Every block that `root` reaches is well formed if `src` holds it, and is
/// held by `outside` if `src` does not.
#[verifier::opaque]
pub open spec fn resolvable(
    src: Map<CidModel, Seq<u8>>,
    outside: Map<CidModel, Seq<u8>>,
    root: CidModel,
) -> bool {
    forall|id: CidModel| #[trigger]
        reachable(src, root, id) ==> !malformed(src, id) && (src.contains_key(id)
            || outside.contains_key(id))
}

/// A root reaches itself.
pub proof fn lemma_reachable_self(src: Map<CidModel, Seq<u8>>, root: CidModel)
    ensures
        reachable(src, root, root),
{
    let path = seq![root];
    assert(is_path(src, path) && path[0] == root && path.last() == root);
}

/// What is linked from a reached block is reached.
pub proof fn lemma_reachable_step(
    src: Map<CidModel, Seq<u8>>,
    root: CidModel,
    a: CidModel,
    b: CidModel,
)
    requires
        reachable(src, root, a),
        edge(src, a, b),
    ensures
        reachable(src, root, b),
{
    let path = choose|path: Seq<CidModel>| #[trigger]
        is_path(src, path) && path[0] == root && path.last() == a;
    let longer = path.push(b);
    assert forall|i: int| 0 <= i < longer.len() - 1 implies edge(
        src,
        #[trigger] longer[i],
        longer[i + 1],
    ) by {
        if i < path.len() - 1 {
            assert(edge(src, path[i], path[i + 1]));
        }
    }
    assert(is_path(src, longer) && longer[0] == root && longer.last() == b);
}

/// Why a walk from a root could not be completed.
#[derive(Clone, Copy, Debug, PartialEq, Eq, Structural)]
pub enum ClosureError {
    /// A reached block's links cannot be read.
    Malformed,
    /// A reached link leads to a block that neither store holds.
    Unresolved,
    /// A store operation failed.
    Store(StoreFault),
}

/// `c` is the identifier of one of the collected blocks.
pub open spec fn has_id(found: Seq<(ContentId, Vec<u8>)>, c: CidModel) -> bool {
    exists|i: int| 0 <= i < found.len() && (#[trigger] found[i]).0@ == c
}

/// `c` waits to be visited.
pub open spec fn queued(pending: Seq<ContentId>, c: CidModel) -> bool {
    exists|i: int| 0 <= i < pending.len() && (#[trigger] pending[i])@ == c
}

/// `c` is collected, waits to be visited, or is known to lie outside.
pub open spec fn settled(
    src: Map<CidModel, Seq<u8>>,
    outside: Map<CidModel, Seq<u8>>,
    found: Seq<(ContentId, Vec<u8>)>,
    pending: Seq<ContentId>,
    c: CidModel,
) -> bool {
    has_id(found, c) || queued(pending, c) || (!src.contains_key(c) && outside.contains_key(c))
}

/// A collected entry is a reached, well-formed block of `src`.
pub open spec fn visited_ok(
    src: Map<CidModel, Seq<u8>>,
    root: CidModel,
    e: (ContentId, Vec<u8>),
) -> bool {
    src.contains_key(e.0@) && src[e.0@] == e.1@ && reachable(src, root, e.0@) && children(
        e.0@,
        e.1@,
    ) is Some
}

/// The collected entry `e` links to `c`.
pub open spec fn child_of(e: (ContentId, Vec<u8>), c: CidModel) -> bool {
    children(e.0@, e.1@) is Some && children(e.0@, e.1@)->0.contains(c)
}

/// What holds between the steps of a walk.
pub open spec fn walk_inv(
    src: Map<CidModel, Seq<u8>>,
    outside: Map<CidModel, Seq<u8>>,
    root: CidModel,
    found: Seq<(ContentId, Vec<u8>)>,
    pending: Seq<ContentId>,
) -> bool {
    &&& forall|i: int| 0 <= i < found.len() ==> visited_ok(src, root, #[trigger] found[i])
    &&& forall|i: int, j: int|
        0 <= i < j < found.len() ==> (#[trigger] found[i]).0@ != (#[trigger] found[j]).0@
    &&& forall|i: int| 0 <= i < pending.len() ==> reachable(src, root, (#[trigger] pending[i])@)
    &&& forall|i: int, c: CidModel|
        0 <= i < found.len() && #[trigger] child_of(found[i], c) ==> settled(
            src,
            outside,
            found,
            pending,
            c,
        )
    &&& settled(src, outside, found, pending, root)
}

/// Dropping a pending identifier that is settled otherwise keeps `c` settled.
proof fn lemma_settled_after_drop(
    src: Map<CidModel, Seq<u8>>,
    outside: Map<CidModel, Seq<u8>>,
    found: Seq<(ContentId, Vec<u8>)>,
    pending: Seq<ContentId>,
    c: CidModel,
)
    requires
        pending.len() > 0,
        settled(src, outside, found, pending, c),
        has_id(found, pending.last()@) || (!src.contains_key(pending.last()@)
            && outside.contains_key(pending.last()@)),
    ensures
        settled(src, outside, found, pending.drop_last(), c),
{
    if !has_id(found, c) && !(!src.contains_key(c) && outside.contains_key(c)) {
        let i = choose|i: int| 0 <= i < pending.len() && (#[trigger] pending[i])@ == c;
        assert(i < pending.len() - 1);
        assert(pending.drop_last()[i]@ == c);
    }
}

/// Skipping a pending identifier that is settled otherwise keeps the walk's
/// invariant.
proof fn lemma_walk_skip(
    src: Map<CidModel, Seq<u8>>,
    outside: Map<CidModel, Seq<u8>>,
    root: CidModel,
    found: Seq<(ContentId, Vec<u8>)>,
    pending: Seq<ContentId>,
)
    requires
        pending.len() > 0,
        walk_inv(src, outside, root, found, pending),
        has_id(found, pending.last()@) || (!src.contains_key(pending.last()@)
            && outside.contains_key(pending.last()@)),
    ensures
        walk_inv(src, outside, root, found, pending.drop_last()),
{
    let rest = pending.drop_last();
    assert forall|i: int| 0 <= i < rest.len() implies reachable(
        src,
        root,
        (#[trigger] rest[i])@,
    ) by {
        assert(rest[i] == pending[i]);
    }
    assert forall|i: int, c: CidModel|
        0 <= i < found.len() && #[trigger] child_of(found[i], c) implies settled(
        src,
        outside,
        found,
        rest,
        c,
    ) by {
        lemma_settled_after_drop(src, outside, found, pending, c);
    }
    lemma_settled_after_drop(src, outside, found, pending, root);
}

/// Collecting the last pending block and queueing what it links to keeps
/// `c` settled.
proof fn lemma_settled_after_visit(
    src: Map<CidModel, Seq<u8>>,
    outside: Map<CidModel, Seq<u8>>,
    found: Seq<(ContentId, Vec<u8>)>,
    pending: Seq<ContentId>,
    data: Vec<u8>,
    kids: Seq<ContentId>,
    c: CidModel,
)
    requires
        pending.len() > 0,
        settled(src, outside, found, pending, c),
    ensures
        settled(
            src,
            outside,
            found.push((pending.last(), data)),
            pending.drop_last() + kids,
            c,
        ),
{
    let grown = found.push((pending.last(), data));
    let next = pending.drop_last() + kids;
    if has_id(found, c) {
        let i = choose|i: int| 0 <= i < found.len() && (#[trigger] found[i]).0@ == c;
        assert(grown[i].0@ == c);
    } else if queued(pending, c) {
        let i = choose|i: int| 0 <= i < pending.len() && (#[trigger] pending[i])@ == c;
        if i < pending.len() - 1 {
            assert(next[i]@ == c);
        } else {
            assert(grown[found.len() as int].0@ == c);
        }
    }
}

/// Collecting the last pending block and queueing what it links to keeps the
/// walk's invariant.
#[verifier::rlimit(40)]
proof fn lemma_walk_visit(
    src: Map<CidModel, Seq<u8>>,
    outside: Map<CidModel, Seq<u8>>,
    root: CidModel,
    found: Seq<(ContentId, Vec<u8>)>,
    pending: Seq<ContentId>,
    data: Vec<u8>,
    kids: Seq<ContentId>,
)
    requires
        pending.len() > 0,
        walk_inv(src, outside, root, found, pending),
        !has_id(found, pending.last()@),
        src.contains_key(pending.last()@),
        src[pending.last()@] == data@,
        children(pending.last()@, data@) == Some(ids(kids)),
    ensures
        walk_inv(
            src,
            outside,
            root,
            found.push((pending.last(), data)),
            pending.drop_last() + kids,
        ),
{
    let id = pending.last();
    let grown = found.push((id, data));
    let next = pending.drop_last() + kids;
    assert(reachable(src, root, pending[pending.len() - 1]@));
    assert forall|i: int| 0 <= i < grown.len() implies visited_ok(src, root,
        #[trigger] grown[i]) by {
        if i < found.len() {
            assert(grown[i] == found[i]);
        }
    }
    assert forall|i: int, j: int| 0 <= i < j < grown.len() implies (#[trigger] grown[i]).0@ != (
    #[trigger] grown[j]).0@ by {
        if j < found.len() {
            assert(grown[i] == found[i] && grown[j] == found[j]);
        } else {
            assert(grown[i] == found[i]);
        }
    }
    assert forall|i: int| 0 <= i < next.len() implies reachable(
        src,
        root,
        (#[trigger] next[i])@,
    ) by {
        if i < pending.len() - 1 {
            assert(next[i] == pending[i]);
        } else {
            let k = i - (pending.len() - 1);
            assert(next[i] == kids[k]);
            assert(ids(kids)[k] == kids[k]@);
            assert(edge(src, id@, kids[k]@));
            lemma_reachable_step(src, root, id@, kids[k]@);
        }
    }
    assert forall|i: int, c: CidModel|
        0 <= i < grown.len() && #[trigger] child_of(grown[i], c) implies settled(
        src,
        outside,
        grown,
        next,
        c,
    ) by {
        if i < found.len() {
            assert(grown[i] == found[i]);
            lemma_settled_after_visit(src, outside, found, pending, data, kids, c);
        } else {
            let k = choose|k: int| 0 <= k < ids(kids).len() && ids(kids)[k] == c;
            assert(next[pending.len() - 1 + k] == kids[k]);
            assert(queued(next, c));
        }
    }
    lemma_settled_after_visit(src, outside, found, pending, data, kids, root);
}

/// Collected blocks are distinct blocks of `src`, so they are no more than it holds.
proof fn lemma_found_bounded(
    src: Map<CidModel, Seq<u8>>,
    outside: Map<CidModel, Seq<u8>>,
    root: CidModel,
    found: Seq<(ContentId, Vec<u8>)>,
    pending: Seq<ContentId>,
)
    requires
        src.dom().finite(),
        walk_inv(src, outside, root, found, pending),
    ensures
        found.len() <= src.dom().len(),
{
    let keys = Seq::new(found.len(), |i: int| found[i].0@);
    assert(keys.no_duplicates()) by {
        assert forall|i: int, j: int| 0 <= i < keys.len() && 0 <= j < keys.len()
            && i != j implies keys[i]
            != keys[j] by {
            if i < j {
                assert(found[i].0@ != found[j].0@);
            } else {
                assert(found[j].0@ != found[i].0@);
            }
        }
    }
    keys.unique_seq_to_set();
    assert(keys.to_set().subset_of(src.dom())) by {
        assert forall|k: CidModel| keys.to_set().contains(k) implies src.dom().contains(k) by {
            let i = choose|i: int| 0 <= i < keys.len() && keys[i] == k;
            assert(visited_ok(src, root, found[i]));
        }
    }
    vstd::set_lib::lemma_len_subset(keys.to_set(), src.dom());
}

/// Once nothing is pending, every block on a path from the root is settled.
proof fn lemma_path_settled(
    src: Map<CidModel, Seq<u8>>,
    outside: Map<CidModel, Seq<u8>>,
    root: CidModel,
    found: Seq<(ContentId, Vec<u8>)>,
    path: Seq<CidModel>,
    k: int,
)
    requires
        walk_inv(src, outside, root, found, Seq::empty()),
        is_path(src, path),
        path[0] == root,
        0 <= k < path.len(),
    ensures
        settled(src, outside, found, Seq::empty(), path[k]),
    decreases k,
{
    if k > 0 {
        lemma_path_settled(src, outside, root, found, path, k - 1);
        assert(edge(src, path[k - 1], path[k - 1 + 1]));
        let i = choose|i: int| 0 <= i < found.len() && (#[trigger] found[i]).0@ == path[k - 1];
        assert(visited_ok(src, root, found[i]));
        assert(child_of(found[i], path[k]));
    }
}

/// Once nothing is pending, the collected blocks are the closure of the
/// root, and all that it reaches can be resolved.
#[verifier::rlimit(40)]
proof fn lemma_walk_done(
    src: Map<CidModel, Seq<u8>>,
    outside: Map<CidModel, Seq<u8>>,
    root: CidModel,
    found: Seq<(ContentId, Vec<u8>)>,
)
    requires
        walk_inv(src, outside, root, found, Seq::empty()),
    ensures
        resolvable(src, outside, root),
        entries_map(found) == closure(src, root),
        each_in(found, closure(src, root)),
{
    reveal(closure);
    reveal(resolvable);
    assert forall|i: int| 0 <= i < found.len() implies closure(src, root).contains_key(
        (#[trigger] found[i]).0@,
    ) && closure(src, root)[found[i].0@] == found[i].1@ by {
        assert(visited_ok(src, root, found[i]));
    }
    assert forall|id: CidModel| #[trigger] reachable(src, root, id) implies !malformed(src, id) && (
    src.contains_key(id) || outside.contains_key(id)) && (src.contains_key(id) ==> has_id(
        found,
        id,
    )) by {
        let path = choose|path: Seq<CidModel>| #[trigger]
            is_path(src, path) && path[0] == root && path.last() == id;
        lemma_path_settled(src, outside, root, found, path, path.len() - 1);
        if has_id(found, id) {
            let i = choose|i: int| 0 <= i < found.len() && (#[trigger] found[i]).0@ == id;
            assert(visited_ok(src, root, found[i]));
        }
    }
    lemma_entries_map_dom(found);
    assert forall|id: CidModel|
        entries_map(found).contains_key(id) == closure(src, root).contains_key(id) by {
        if entries_map(found).contains_key(id) {
            let j = choose|j: int| 0 <= j < found.len() && found[j].0@ == id;
            assert(visited_ok(src, root, found[j]));
        }
        if closure(src, root).contains_key(id) {
            let i = choose|i: int| 0 <= i < found.len() && (#[trigger] found[i]).0@ == id;
            lemma_entries_map_last(found, i, id);
        }
    }
    assert forall|id: CidModel| entries_map(found).contains_key(id) implies entries_map(found)[id]
        == closure(src, root)[id] by {
        let i = choose|i: int| 0 <= i < found.len() && (#[trigger] found[i]).0@ == id;
        assert(visited_ok(src, root, found[i]));
        lemma_entries_map_last(found, i, id);
    }
    assert(entries_map(found) =~= closure(src, root));
}

/// Each entry of the list is a block of the map.
pub open spec fn each_in(found: Seq<(ContentId, Vec<u8>)>, blocks: Map<CidModel, Seq<u8>>) -> bool {
    forall|i: int|
        0 <= i < found.len() ==> blocks.contains_key((#[trigger] found[i]).0@)
            && blocks[found[i].0@]
            == found[i].1@
}

/// The closure of a root is made of blocks of `src`.
pub proof fn lemma_closure_within(src: Map<CidModel, Seq<u8>>, root: CidModel)
    ensures
        forall|id: CidModel| #[trigger]
            closure(src, root).contains_key(id) ==> src.contains_key(id) && src[id] == closure(
                src,
                root,
            )[id] && reachable(src, root, id),
        forall|id: CidModel|
            src.contains_key(id) && reachable(src, root, id) ==> #[trigger] closure(
                src,
                root,
            ).contains_key(id),
{
    reveal(closure);
}

/// Whether one of the collected blocks is stored under `id`.
fn collected(found: &Vec<(ContentId, Vec<u8>)>, id: &ContentId) -> (b: bool)
    ensures
        b == has_id(found@, id@),
{
    let mut i: usize = 0;
    while i < found.len()
        invariant
            i <= found@.len(),
            forall|j: int| 0 <= j < i ==> (#[trigger] found@[j]).0@ != id@,
        decreases found@.len() - i,
    {
        if found[i].0.same(id) {
            return true;
        }
        i = i + 1;
    }
    false
}

/// Walks the links from `root` through the blocks of `src` and collects
/// every block of `src` that it reaches. A link that leaves `src` must lead
/// to a block of `outside`; such a block is not followed further.
#[verifier::rlimit(40)]
pub fn collect_closure<S: BlockSource, T: Blockstore>(src: &S, outside: &T, root: &ContentId) -> (r:
    Result<Vec<(ContentId, Vec<u8>)>, ClosureError>)
    ensures
        match r {
            Ok(found) => resolvable(src.blocks(), outside.blocks(), root@) && entries_map(found@)
                == closure(src.blocks(), root@) && each_in(found@, closure(src.blocks(), root@)),
            Err(ClosureError::Malformed) => exists|id: CidModel|
                reachable(src.blocks(), root@, id) && malformed(src.blocks(), id),
            Err(ClosureError::Unresolved) => exists|id: CidModel|
                reachable(src.blocks(), root@, id) && !src.blocks().contains_key(id)
                    && !outside.blocks().contains_key(id),
            Err(ClosureError::Store(_)) => !(src.reliable() && outside.reliable()),
        },
{
    let ghost sb = src.blocks();
    let ghost ob = outside.blocks();
    let mut pending: Vec<ContentId> = Vec::new();
    pending.push(root.clone());
    let mut found: Vec<(ContentId, Vec<u8>)> = Vec::new();
    proof {
        src.lemma_finite();
        lemma_reachable_self(sb, root@);
        assert(pending@[0]@ == root@);
    }
    while pending.len() > 0
        invariant
            sb == src.blocks(),
            ob == outside.blocks(),
            sb.dom().finite(),
            found@.len() <= sb.dom().len(),
            walk_inv(sb, ob, root@, found@, pending@),
        decreases sb.dom().len() - found@.len(), pending@.len(),
    {
        let ghost before = pending@;
        let id = pending.pop().unwrap();
        assert(pending@ == before.drop_last() && id == before.last());
        assert(reachable(sb, root@, before[before.len() - 1]@));
        if collected(&found, &id) {
            proof {
                lemma_walk_skip(sb, ob, root@, found@, before);
            }
        } else {
            match src.get(&id) {
                Err(fault) => {
                    return Err(ClosureError::Store(fault));
                },
                Ok(None) => {
                    match outside.has(&id) {
                        Err(fault) => {
                            return Err(ClosureError::Store(fault));
                        },
                        Ok(false) => {
                            assert(reachable(sb, root@, id@) && !sb.contains_key(id@)
                                && !ob.contains_key(id@));
                            return Err(ClosureError::Unresolved);
                        },
                        Ok(true) => {
                            proof {
                                lemma_walk_skip(sb, ob, root@, found@, before);
                            }
                        },
                    }
                },
                Ok(Some(data)) => {
                    let mut kids = match children_of(&id, data.as_slice()) {
                        None => {
                            assert(reachable(sb, root@, id@) && malformed(sb, id@));
                            return Err(ClosureError::Malformed);
                        },
                        Some(kids) => kids,
                    };
                    proof {
                        lemma_walk_visit(sb, ob, root@, found@, before, data, kids@);
                    }
                    pending.append(&mut kids);
                    found.push((id, data));
                    proof {
                        lemma_found_bounded(sb, ob, root@, found@, pending@);
                    }
                },
            }
        }
    }
    proof {
        assert(pending@ =~= Seq::empty());
        lemma_walk_done(sb, ob, root@, found@);
    }
    Ok(found)
}

} // verus!
