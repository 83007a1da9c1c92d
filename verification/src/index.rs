//! The index node of the state tree: actor identifiers in ascending order,
//! each with the link to the actor's record.

use vstd::prelude::*;
use crate::cbor::{links_from, links_of, prepend, prepend_all, LINK_TAG, MAX_LINK_LEN};
use crate::closure::children;
use crate::codec::{
    array_at, head_bytes, lemma_array_entered, lemma_array_round_trip, lemma_head_len,
    lemma_link_found, lemma_link_round_trip, lemma_no_parts, lemma_three_parts, lemma_two_parts,
    lemma_uint_passed, lemma_uint_round_trip, link_item,
    read_array, read_target, read_uint, target_at, travels, uint_at, uint_item, write_head,
    write_link, write_uint,
};
use crate::content_id::{cid_binary, link_target, CidModel, ContentId, DAG_CBOR};

verus! {

/// The values of a list of index entries.
pub open spec fn entries(index: Seq<(u64, ContentId)>) -> Seq<(u64, CidModel)> {
    Seq::new(index.len(), |i: int| (index[i].0, index[i].1@))
}

/// The identifiers ascend strictly.
pub open spec fn ascending(list: Seq<(u64, CidModel)>) -> bool {
    forall|i: int, j: int| 0 <= i < j < list.len()
        ==> (#[trigger] list[i]).0 < (#[trigger] list[j]).0
}

/// The list has an entry for `id`.
pub open spec fn listed(list: Seq<(u64, CidModel)>, id: u64) -> bool {
    exists|i: int| 0 <= i < list.len() && (#[trigger] list[i]).0 == id
}

/// The link that the list gives for `id`.
pub open spec fn link_for(list: Seq<(u64, CidModel)>, id: u64) -> CidModel {
    list[choose|i: int| 0 <= i < list.len() && (#[trigger] list[i]).0 == id].1
}

/// The links of a list, by identifier.
pub open spec fn link_map(list: Seq<(u64, CidModel)>) -> Map<u64, CidModel> {
    Map::new(|id: u64| listed(list, id), |id: u64| link_for(list, id))
}

/// In an ascending list the entry at `i` is the one for its identifier.
pub proof fn lemma_link_at(list: Seq<(u64, CidModel)>, i: int)
    requires
        ascending(list),
        0 <= i < list.len(),
    ensures
        link_map(list).contains_key(list[i].0),
        link_map(list)[list[i].0] == list[i].1,
{
    let id = list[i].0;
    assert(listed(list, id));
    let j = choose|j: int| 0 <= j < list.len() && (#[trigger] list[j]).0 == id;
    if j < i {
        assert(list[j].0 < list[i].0);
    } else if i < j {
        assert(list[i].0 < list[j].0);
    }
}

/// The links of a list make a finite map.
pub proof fn lemma_link_map_finite(list: Seq<(u64, CidModel)>)
    ensures
        link_map(list).dom().finite(),
{
    let ids = Seq::new(list.len(), |i: int| list[i].0);
    vstd::seq_lib::seq_to_set_is_finite(ids);
    assert(link_map(list).dom() =~= ids.to_set()) by {
        assert forall|id: u64| link_map(list).dom().contains(id) == ids.to_set().contains(id) by {
            if listed(list, id) {
                let i = choose|i: int| 0 <= i < list.len() && (#[trigger] list[i]).0 == id;
                assert(ids[i] == id);
            }
            if ids.to_set().contains(id) {
                let i = choose|i: int| 0 <= i < ids.len() && ids[i] == id;
                assert(list[i].0 == id);
            }
        }
    }
}

/// Two ascending lists with the same links are the same list.
#[verifier::rlimit(40)]
pub proof fn lemma_ascending_unique(a: Seq<(u64, CidModel)>, b: Seq<(u64, CidModel)>)
    requires
        ascending(a),
        ascending(b),
        link_map(a) == link_map(b),
    ensures
        a == b,
    decreases a.len(),
{
    if a.len() == 0 {
        if b.len() > 0 {
            lemma_link_at(b, 0);
            assert(listed(a, b[0].0));
        }
        assert(a =~= b);
    } else {
        let n = a.len() - 1;
        lemma_link_at(a, n);
        assert(listed(b, a[n].0));
        let k = choose|k: int| 0 <= k < b.len() && (#[trigger] b[k]).0 == a[n].0;
        lemma_link_at(b, k);
        if k < b.len() - 1 {
            let m = b.len() - 1;
            lemma_link_at(b, m);
            assert(b[k].0 < b[m].0);
            assert(listed(a, b[m].0));
            let j = choose|j: int| 0 <= j < a.len() && (#[trigger] a[j]).0 == b[m].0;
            if j < n {
                assert(a[j].0 < a[n].0);
            }
        }
        let fa = a.drop_last();
        let fb = b.drop_last();
        assert(link_map(fa) =~= link_map(fb)) by {
            assert forall|id: u64| listed(fa, id) == listed(fb, id) by {
                if listed(fa, id) {
                    let i = choose|i: int| 0 <= i < fa.len() && (#[trigger] fa[i]).0 == id;
                    assert(a[i].0 == id);
                    assert(a[i].0 < a[n].0);
                    assert(listed(a, id));
                    assert(link_map(a).contains_key(id));
                    assert(link_map(b).contains_key(id));
                    assert(listed(b, id));
                    let j = choose|j: int| 0 <= j < b.len() && (#[trigger] b[j]).0 == id;
                    assert(fb[j].0 == id);
                }
                if listed(fb, id) {
                    let i = choose|i: int| 0 <= i < fb.len() && (#[trigger] fb[i]).0 == id;
                    assert(b[i].0 == id);
                    assert(b[i].0 < b[k].0);
                    assert(listed(b, id));
                    assert(link_map(b).contains_key(id));
                    assert(link_map(a).contains_key(id));
                    assert(listed(a, id));
                    let j = choose|j: int| 0 <= j < a.len() && (#[trigger] a[j]).0 == id;
                    assert(fa[j].0 == id);
                }
            }
            assert forall|id: u64| listed(fa, id) implies link_for(fa, id) == link_for(fb, id) by {
                let i = choose|i: int| 0 <= i < fa.len() && (#[trigger] fa[i]).0 == id;
                assert(fa[i] == a[i]);
                lemma_link_at(fa, i);
                lemma_link_at(a, i);
                let j = choose|j: int| 0 <= j < fb.len() && (#[trigger] fb[j]).0 == id;
                assert(fb[j] == b[j]);
                lemma_link_at(fb, j);
                lemma_link_at(b, j);
            }
        }
        lemma_ascending_unique(fa, fb);
        assert(a =~= fa.push(a[n]));
        assert(b =~= fb.push(b[k]));
    }
}

/// Finds where the entry for `id` is, or where it would go.
pub fn locate(index: &Vec<(u64, ContentId)>, id: u64) -> (r: (usize, bool))
    requires
        ascending(entries(index@)),
    ensures
        r.0 <= index@.len(),
        forall|i: int| 0 <= i < r.0 ==> (#[trigger] index@[i]).0 < id,
        forall|i: int| r.0 <= i < index@.len() ==> (#[trigger] index@[i]).0 >= id,
        r.1 == (r.0 < index@.len() && index@[r.0 as int].0 == id),
        r.1 == listed(entries(index@), id),
{
    let mut pos: usize = 0;
    while pos < index.len() && index[pos].0 < id
        invariant
            pos <= index@.len(),
            forall|i: int| 0 <= i < pos ==> (#[trigger] index@[i]).0 < id,
        decreases index@.len() - pos,
    {
        pos = pos + 1;
    }
    let found = pos < index.len() && index[pos].0 == id;
    proof {
        let list = entries(index@);
        assert forall|i: int| pos <= i < index@.len() implies (#[trigger] index@[i]).0 >= id by {
            if i > pos {
                assert(list[pos as int].0 < list[i].0);
            }
        }
        if found {
            assert(list[pos as int].0 == id);
        } else if listed(list, id) {
            let i = choose|i: int| 0 <= i < list.len() && (#[trigger] list[i]).0 == id;
            assert(index@[i].0 == id);
        }
    }
    (pos, found)
}

/// Sets the link for `id`, keeping the identifiers in ascending order.
#[verifier::rlimit(40)]
pub fn upsert(index: &mut Vec<(u64, ContentId)>, id: u64, link: ContentId)
    requires
        ascending(entries(old(index)@)),
    ensures
        ascending(entries(final(index)@)),
        link_map(entries(final(index)@)) == link_map(entries(old(index)@)).insert(id, link@),
{
    let (pos, found) = locate(index, id);
    let ghost before = entries(index@);
    let ghost target = link@;
    if found {
        index.set(pos, (id, link));
    } else {
        index.insert(pos, (id, link));
    }
    proof {
        let after = entries(index@);
        let p = pos as int;
        if found {
            assert(after =~= before.update(p, (id, target)));
        } else {
            assert(after =~= before.insert(p, (id, target)));
        }
        assert(ascending(after)) by {
            assert forall|i: int,
                j: int| 0 <= i < j < after.len() implies (#[trigger] after[i]).0 < (
            #[trigger] after[j]).0 by {
                if found {
                    assert(before[i].0 < before[j].0);
                } else {
                    let bi = if i < p { i } else { i - 1 };
                    let bj = if j < p { j } else { j - 1 };
                    if i != p && j != p {
                        assert(before[bi].0 < before[bj].0);
                    } else if i == p {
                        assert(index@[j].0 == before[bj].0);
                        assert(old(index)@[bj].0 >= id);
                    } else {
                        assert(old(index)@[bi].0 < id);
                    }
                }
            }
        }
        lemma_link_at(after, p);
        assert(link_map(after) =~= link_map(before).insert(id, target)) by {
            assert forall|k: u64| link_map(after).contains_key(k) == link_map(before).insert(
                id,
                target,
            ).contains_key(k) by {
                if listed(after, k) && k != id {
                    let i = choose|i: int| 0 <= i < after.len() && (#[trigger] after[i]).0 == k;
                    let bi = if found || i < p { i } else { i - 1 };
                    assert(before[bi].0 == k);
                }
                if listed(before, k) && k != id {
                    let i = choose|i: int| 0 <= i < before.len() && (#[trigger] before[i]).0 == k;
                    let ai = if found || i < p { i } else { i + 1 };
                    assert(after[ai].0 == k);
                }
            }
            assert forall|k: u64| link_map(after).contains_key(k) implies link_map(after)[k]
                == link_map(before).insert(id, target)[k] by {
                if k != id {
                    let i = choose|i: int| 0 <= i < before.len() && (#[trigger] before[i]).0 == k;
                    let ai = if found || i < p { i } else { i + 1 };
                    assert(after[ai] == before[i]);
                    lemma_link_at(before, i);
                    lemma_link_at(after, ai);
                }
            }
        }
    }
}

/// The persisted form of one entry: an array of the identifier and the link.
pub open spec fn entry_bytes(e: (u64, CidModel)) -> Seq<u8> {
    head_bytes(4, 2) + uint_item(e.0) + link_item(e.1)
}

/// The persisted forms of the entries, one after the other.
pub open spec fn entries_bytes(list: Seq<(u64, CidModel)>) -> Seq<u8>
    decreases list.len(),
{
    if list.len() == 0 {
        Seq::empty()
    } else {
        entries_bytes(list.drop_last()) + entry_bytes(list.last())
    }
}

/// The persisted form of an index node: an array of its entries.
pub open spec fn index_bytes(list: Seq<(u64, CidModel)>) -> Seq<u8> {
    head_bytes(4, list.len() as u64) + entries_bytes(list)
}

/// Writes the persisted form of an index node.
pub fn encode_index(index: &Vec<(u64, ContentId)>) -> (bytes: Vec<u8>)
    ensures
        bytes@ == index_bytes(entries(index@)),
        ascending(entries(index@)) ==> index_of(bytes@) == Some(entries(index@)),
{
    let ghost list = entries(index@);
    let mut out: Vec<u8> = Vec::new();
    write_head(&mut out, 4, index.len() as u64);
    let ghost head = out@;
    let mut i: usize = 0;
    assert(list.take(0) =~= Seq::empty());
    assert(out@ =~= head + entries_bytes(list.take(0)));
    while i < index.len()
        invariant
            i <= index@.len(),
            list == entries(index@),
            head == head_bytes(4, list.len() as u64),
            out@ == head + entries_bytes(list.take(i as int)),
            forall|k: int| 0 <= k < i ==> travels((#[trigger] list[k]).1),
        decreases index@.len() - i,
    {
        let ghost so_far = out@;
        write_head(&mut out, 4, 2);
        write_uint(&mut out, index[i].0);
        write_link(&mut out, &index[i].1);
        proof {
            assert(list.take(i + 1).drop_last() =~= list.take(i as int));
            assert(list.take(i + 1).last() == list[i as int]);
            assert(out@ =~= so_far + entry_bytes(list[i as int]));
            assert(out@ =~= head + entries_bytes(list.take(i + 1)));
        }
        i = i + 1;
    }
    assert(list.take(i as int) =~= list);
    proof {
        assert(out@.len() == out.len());
        assert(index@.len() == index.len());
        if ascending(list) {
            lemma_index_round_trip(list);
        }
    }
    out
}

/// The entry written at `pos`, and the position after it.
#[verifier::opaque]
pub open spec fn entry_at(bytes: Seq<u8>, pos: int) -> Option<((u64, CidModel), int)> {
    match array_at(bytes, pos) {
        Some((n, pos1)) => match uint_at(bytes, pos1) {
            Some((id, pos2)) => match target_at(bytes, pos2) {
                Some((link, pos3)) => if n == 2 {
                    Some(((id, link), pos3))
                } else {
                    None
                },
                None => None,
            },
            None => None,
        },
        None => None,
    }
}

/// The first `n` entries written from `pos`, and the position after them.
pub open spec fn entries_at(bytes: Seq<u8>, pos: int, n: nat) -> Option<
    (Seq<(u64, CidModel)>, int),
>
    decreases n,
{
    if n == 0 {
        Some((Seq::empty(), pos))
    } else {
        match entries_at(bytes, pos, (n - 1) as nat) {
            None => None,
            Some((front, p)) => match entry_at(bytes, p) {
                None => None,
                Some((e, next)) => Some((front.push(e), next)),
            },
        }
    }
}

/// The index node that the bytes hold, if they hold one and nothing else:
/// an array of entries whose identifiers ascend.
#[verifier::opaque]
pub open spec fn index_of(bytes: Seq<u8>) -> Option<Seq<(u64, CidModel)>> {
    match array_at(bytes, 0) {
        Some((n, p)) => match entries_at(bytes, p, n as nat) {
            Some((list, end)) => if end == bytes.len() && ascending(list) {
                Some(list)
            } else {
                None
            },
            None => None,
        },
        None => None,
    }
}

/// Where fewer entries cannot be read, more cannot either.
pub proof fn lemma_entries_fail(bytes: Seq<u8>, pos: int, k: nat, n: nat)
    requires
        k <= n,
        entries_at(bytes, pos, k) is None,
    ensures
        entries_at(bytes, pos, n) is None,
    decreases n,
{
    if k < n {
        lemma_entries_fail(bytes, pos, k, (n - 1) as nat);
    }
}

/// The identifier of an entry that was persisted is read back.
proof fn lemma_entry_id(prefix: Seq<u8>, e: (u64, CidModel), rest: Seq<u8>)
    requires
        prefix.len() + entry_bytes(e).len() + rest.len() <= usize::MAX,
    ensures
        array_at(prefix + entry_bytes(e) + rest, prefix.len() as int) == Some(
            (2u64, (prefix.len() + head_bytes(4, 2).len()) as int),
        ),
        uint_at(
            prefix + entry_bytes(e) + rest,
            (prefix.len() + head_bytes(4, 2).len()) as int,
        ) == Some((e.0, (prefix.len() + head_bytes(4, 2).len() + uint_item(e.0).len()) as int)),
{
    let h = head_bytes(4, 2);
    let u = uint_item(e.0);
    let l = link_item(e.1);
    lemma_three_parts(prefix, h, u, l, rest);
    lemma_array_round_trip(prefix, 2, u + l + rest);
    lemma_uint_round_trip(prefix + h, e.0, l + rest);
}

/// The link of an entry that was persisted is read back, where it travels.
proof fn lemma_entry_link(prefix: Seq<u8>, e: (u64, CidModel), rest: Seq<u8>)
    requires
        travels(e.1),
        prefix.len() + entry_bytes(e).len() + rest.len() <= usize::MAX,
    ensures
        target_at(
            prefix + entry_bytes(e) + rest,
            (prefix.len() + head_bytes(4, 2).len() + uint_item(e.0).len()) as int,
        ) == Some((e.1, (prefix.len() + entry_bytes(e).len()) as int)),
{
    let h = head_bytes(4, 2);
    let u = uint_item(e.0);
    let l = link_item(e.1);
    lemma_three_parts(prefix, h, u, l, rest);
    lemma_link_round_trip(prefix + h + u, e.1, rest);
}

/// An entry that was persisted is read back, where its link travels.
pub proof fn lemma_entry_round_trip(prefix: Seq<u8>, e: (u64, CidModel), rest: Seq<u8>)
    requires
        travels(e.1),
        prefix.len() + entry_bytes(e).len() + rest.len() <= usize::MAX,
    ensures
        entry_at(prefix + entry_bytes(e) + rest, prefix.len() as int) == Some(
            (e, (prefix.len() + entry_bytes(e).len()) as int),
        ),
{
    reveal(entry_at);
    lemma_entry_id(prefix, e, rest);
    lemma_entry_link(prefix, e, rest);
}

/// Entries that were persisted are read back, where their links travel.
#[verifier::rlimit(40)]
pub proof fn lemma_entries_round_trip(prefix: Seq<u8>, list: Seq<(u64, CidModel)>, rest: Seq<u8>)
    requires
        forall|i: int| 0 <= i < list.len() ==> travels((#[trigger] list[i]).1),
        prefix.len() + entries_bytes(list).len() + rest.len() <= usize::MAX,
    ensures
        entries_at(prefix + entries_bytes(list) + rest, prefix.len() as int, list.len()) == Some(
            (list, (prefix.len() + entries_bytes(list).len()) as int),
        ),
    decreases list.len(),
{
    let bytes = prefix + entries_bytes(list) + rest;
    if list.len() == 0 {
        assert(entries_at(bytes, prefix.len() as int, 0) == Some(
            (Seq::<(u64, CidModel)>::empty(), prefix.len() as int),
        ));
        assert(list =~= Seq::empty());
    } else {
        let front = list.drop_last();
        let last = list.last();
        let written = entries_bytes(front);
        lemma_two_parts(prefix, written, entry_bytes(last), rest);
        assert forall|i: int| 0 <= i < front.len() implies travels((#[trigger] front[i]).1) by {
            assert(front[i] == list[i]);
        }
        lemma_entries_round_trip(prefix, front, entry_bytes(last) + rest);
        assert(travels(list[list.len() - 1].1));
        lemma_entry_round_trip(prefix + written, last, rest);
        assert(front.push(last) =~= list);
    }
}

/// An index node that was persisted is read back as it was, where its
/// identifiers ascend and its links travel.
pub proof fn lemma_index_round_trip(list: Seq<(u64, CidModel)>)
    requires
        ascending(list),
        forall|i: int| 0 <= i < list.len() ==> travels((#[trigger] list[i]).1),
        index_bytes(list).len() <= usize::MAX,
        list.len() <= u64::MAX,
    ensures
        index_of(index_bytes(list)) == Some(list),
{
    reveal(index_of);
    let none = Seq::<u8>::empty();
    let h = head_bytes(4, list.len() as u64);
    lemma_no_parts(h);
    lemma_no_parts(index_bytes(list));
    lemma_array_round_trip(none, list.len() as u64, entries_bytes(list));
    lemma_entries_round_trip(h, list, none);
}

/// The binary forms of the links of a list of entries.
pub open spec fn binaries(list: Seq<(u64, CidModel)>) -> Seq<Seq<u8>> {
    Seq::new(list.len(), |i: int| cid_binary(list[i].1.codec, list[i].1.hash, list[i].1.digest))
}

/// The identifiers that the links of a list of entries point to.
pub open spec fn linked(list: Seq<(u64, CidModel)>) -> Seq<CidModel> {
    Seq::new(list.len(), |i: int| list[i].1)
}

/// The binary forms of the links are short enough for links.
pub open spec fn links_fit(list: Seq<(u64, CidModel)>) -> bool {
    forall|i: int|
        0 <= i < list.len() ==> cid_binary(
            (#[trigger] list[i]).1.codec,
            list[i].1.hash,
            list[i].1.digest,
        ).len() < MAX_LINK_LEN
}

/// The walk over a persisted entry finds its link and goes on behind it.
proof fn lemma_entry_walk(prefix: Seq<u8>, e: (u64, CidModel), rest: Seq<u8>, extra: nat)
    requires
        cid_binary(e.1.codec, e.1.hash, e.1.digest).len() < MAX_LINK_LEN,
        extra <= rest.len(),
        prefix.len() + entry_bytes(e).len() + rest.len() <= usize::MAX,
    ensures
        links_from(prefix + entry_bytes(e) + rest, prefix.len() as int, extra + 1) == prepend(
            cid_binary(e.1.codec, e.1.hash, e.1.digest),
            links_from(
                prefix + entry_bytes(e) + rest,
                (prefix.len() + entry_bytes(e).len()) as int,
                extra,
            ),
        ),
{
    let h = head_bytes(4, 2);
    let u = uint_item(e.0);
    let l = link_item(e.1);
    lemma_head_len(4, 2);
    lemma_head_len(0, e.0);
    lemma_head_len(6, LINK_TAG);
    lemma_three_parts(prefix, h, u, l, rest);
    lemma_array_entered(prefix, 2, u + l + rest, extra + 1);
    lemma_uint_passed(prefix + h, e.0, l + rest, extra + 2);
    lemma_link_found(prefix + h + u, e.1, rest, extra + 1);
}

/// Putting links before the rest one by one or all at once is the same.
proof fn lemma_prepend_all(found: Seq<Seq<u8>>, link: Seq<u8>, rest: Option<Seq<Seq<u8>>>)
    ensures
        prepend_all(found, prepend(link, rest)) == prepend_all(found.push(link), rest),
        prepend_all(Seq::<Seq<u8>>::empty(), rest) == rest,
{
    if rest is Some {
        assert(found + (seq![link] + rest->0) =~= found.push(link) + rest->0);
        assert(Seq::<Seq<u8>>::empty() + rest->0 =~= rest->0);
    }
}

/// The binary forms of the links of a list end with that of its last entry.
proof fn lemma_binaries_last(list: Seq<(u64, CidModel)>)
    requires
        list.len() > 0,
    ensures
        binaries(list) == binaries(list.drop_last()).push(binary_of(list.last())),
        links_fit(list) ==> links_fit(list.drop_last()) && binary_of(list.last()).len()
            < MAX_LINK_LEN,
{
    let front = list.drop_last();
    assert(binaries(list) =~= binaries(front).push(binary_of(list.last())));
    if links_fit(list) {
        assert forall|i: int| 0 <= i < front.len() implies cid_binary(
            (#[trigger] front[i]).1.codec,
            front[i].1.hash,
            front[i].1.digest,
        ).len() < MAX_LINK_LEN by {
            assert(front[i] == list[i]);
        }
        assert(list[list.len() - 1] == list.last());
    }
}

/// The walk over persisted entries finds their links, in order, and goes
/// on behind them.
pub proof fn lemma_entries_walk(
    prefix: Seq<u8>,
    list: Seq<(u64, CidModel)>,
    rest: Seq<u8>,
    extra: nat,
)
    requires
        links_fit(list),
        extra <= rest.len(),
        prefix.len() + entries_bytes(list).len() + rest.len() <= usize::MAX,
    ensures
        links_from(
            prefix + entries_bytes(list) + rest,
            prefix.len() as int,
            list.len() + extra,
        ) == prepend_all(
            binaries(list),
            links_from(
                prefix + entries_bytes(list) + rest,
                (prefix.len() + entries_bytes(list).len()) as int,
                extra,
            ),
        ),
    decreases list.len(),
{
    let bytes = prefix + entries_bytes(list) + rest;
    if list.len() == 0 {
        assert(binaries(list) =~= Seq::empty());
        lemma_prepend_all(Seq::empty(), Seq::empty(), links_from(bytes, prefix.len() as int,
            extra));
    } else {
        let front = list.drop_last();
        let last = list.last();
        let written = entries_bytes(front);
        lemma_head_len(4, 2);
        lemma_two_parts(prefix, written, entry_bytes(last), rest);
        lemma_binaries_last(list);
        lemma_entries_walk(prefix, front, entry_bytes(last) + rest, extra + 1);
        lemma_entry_walk(prefix + written, last, rest, extra);
        let end = (prefix.len() + entries_bytes(list).len()) as int;
        lemma_prepend_all(binaries(front), binary_of(last), links_from(bytes, end, extra));
    }
}

/// The binary form of the link of an entry.
pub open spec fn binary_of(e: (u64, CidModel)) -> Seq<u8> {
    cid_binary(e.1.codec, e.1.hash, e.1.digest)
}

/// The links that a walk finds in a persisted index node are the links of
/// its entries, in order.
pub proof fn lemma_index_links_found(list: Seq<(u64, CidModel)>)
    requires
        links_fit(list),
        index_bytes(list).len() <= usize::MAX,
        list.len() <= u64::MAX,
    ensures
        links_of(index_bytes(list)) == Some(binaries(list)),
{
    let none = Seq::<u8>::empty();
    let h = head_bytes(4, list.len() as u64);
    lemma_head_len(4, list.len() as u64);
    lemma_no_parts(h);
    lemma_no_parts(index_bytes(list));
    lemma_array_entered(none, list.len() as u64, entries_bytes(list), 1);
    lemma_entries_walk(h, list, none, 0);
    reveal(links_from);
    assert(binaries(list) + Seq::<Seq<u8>>::empty() =~= binaries(list));
}

/// The blocks that a persisted index node links to are the records of its
/// entries, where their identifiers travel.
pub proof fn lemma_index_children(id: CidModel, list: Seq<(u64, CidModel)>)
    requires
        id.codec == DAG_CBOR,
        forall|i: int| 0 <= i < list.len() ==> travels((#[trigger] list[i]).1),
        index_bytes(list).len() <= usize::MAX,
        list.len() <= u64::MAX,
    ensures
        children(id, index_bytes(list)) == Some(linked(list)),
{
    assert(links_fit(list)) by {
        assert forall|i: int| 0 <= i < list.len() implies cid_binary(
            (#[trigger] list[i]).1.codec,
            list[i].1.hash,
            list[i].1.digest,
        ).len() < MAX_LINK_LEN by {
            assert(travels(list[i].1));
        }
    }
    lemma_index_links_found(list);
    let raw = binaries(list);
    assert forall|i: int| 0 <= i < raw.len() implies (#[trigger] link_target(raw[i])) == Some(
        list[i].1,
    ) by {
        assert(travels(list[i].1));
    }
    assert(Seq::new(raw.len(), |i: int| link_target(raw[i])->0) =~= linked(list));
}

/// Reads the entry at `pos`.
pub fn read_entry(bytes: &[u8], pos: usize) -> (r: Option<((u64, ContentId), usize)>)
    ensures
        match r {
            Some((e, next)) => entry_at(bytes@, pos as int) == Some(((e.0, e.1@), next as int))
                && pos < next <= bytes@.len(),
            None => entry_at(bytes@, pos as int) is None,
        },
{
    proof {
        reveal(entry_at);
    }
    let (n, pos1) = match read_array(bytes, pos) {
        Some(x) => x,
        None => {
            return None;
        },
    };
    let (id, pos2) = match read_uint(bytes, pos1) {
        Some(x) => x,
        None => {
            return None;
        },
    };
    let (link, pos3) = match read_target(bytes, pos2) {
        Some(x) => x,
        None => {
            return None;
        },
    };
    if n != 2 {
        return None;
    }
    Some(((id, link), pos3))
}

/// Whether the identifiers of the entries ascend strictly.
pub fn is_ascending(index: &Vec<(u64, ContentId)>) -> (b: bool)
    ensures
        b == ascending(entries(index@)),
{
    let ghost list = entries(index@);
    let mut i: usize = 1;
    while i < index.len()
        invariant
            1 <= i,
            list == entries(index@),
            forall|a: int, b: int|
                0 <= a < b < i && b < list.len()
                    ==> (#[trigger] list[a]).0 < (#[trigger] list[b]).0,
        decreases index@.len() - i,
    {
        if index[i - 1].0 >= index[i].0 {
            assert(!(list[i - 1].0 < list[i as int].0));
            return false;
        }
        proof {
            assert forall|a: int, b: int| 0 <= a < b < i + 1 && b < list.len() implies (
            #[trigger] list[a]).0 < (#[trigger] list[b]).0 by {
                if b == i && a < i - 1 {
                    assert(list[a].0 < list[i - 1].0);
                }
                if b == i && a == i - 1 {
                    assert(list[i - 1].0 < list[i as int].0);
                }
            }
        }
        i = i + 1;
    }
    true
}

/// Reads an index node from its persisted form.
pub fn decode_index(bytes: &[u8]) -> (r: Option<Vec<(u64, ContentId)>>)
    ensures
        match r {
            Some(index) => index_of(bytes@) == Some(entries(index@)),
            None => index_of(bytes@) is None,
        },
{
    proof {
        reveal(index_of);
    }
    let len: usize = bytes.len();
    let (n, start) = match read_array(bytes, 0) {
        Some(x) => x,
        None => {
            return None;
        },
    };
    let mut out: Vec<(u64, ContentId)> = Vec::new();
    let mut pos: usize = start;
    let mut i: u64 = 0;
    assert(entries(out@) =~= Seq::empty());
    while i < n
        invariant
            i <= n,
            len == bytes@.len(),
            pos <= len,
            array_at(bytes@, 0) == Some((n, start as int)),
            entries_at(bytes@, start as int, i as nat) == Some((entries(out@), pos as int)),
        decreases n - i,
    {
        match read_entry(bytes, pos) {
            None => {
                proof {
                    reveal(index_of);
                    lemma_entries_fail(bytes@, start as int, (i + 1) as nat, n as nat);
                }
                return None;
            },
            Some((e, next)) => {
                let ghost so_far = entries(out@);
                let ghost value = (e.0, e.1@);
                out.push(e);
                assert(entries(out@) =~= so_far.push(value));
                pos = next;
            },
        }
        i = i + 1;
    }
    if pos != len || !is_ascending(&out) {
        return None;
    }
    Some(out)
}

} // verus!
