//! The table of addresses: which actor an address stands for, and which
//! identifier the next new address gets. The table is the state of the
//! init actor and is reached through the state tree.

use vstd::prelude::*;
use crate::actor::{ActorID, ActorModel, ActorState};
use crate::blockstore::{with_block, BlockSource, Blockstore};
use crate::codec::{
    array_at, bytes_item, head_bytes, lemma_array_round_trip, lemma_string_round_trip,
    lemma_three_parts, lemma_two_parts, lemma_uint_round_trip, read_array, read_string,
    read_uint, string_at, uint_at, uint_item, write_bytes, write_head, write_uint,
};
use crate::content_id::{content_id_of, hash_block, CidModel, HashKind, DAG_CBOR};
use crate::error::{ExecutionError, Fault};
use crate::manifest::same_bytes;
use crate::state_tree::{lemma_stage_step, newly_staged, StateTree};

verus! {

/// The actor whose state is the table of addresses.
pub const INIT_ACTOR_ID: ActorID = 1;

/// An address as its holder writes it: bytes in the encoding of its protocol.
#[derive(Debug)]
pub struct Address {
    bytes: Vec<u8>,
}

impl View for Address {
    type V = Seq<u8>;

    closed spec fn view(&self) -> Seq<u8> {
        self.bytes@
    }
}

impl Address {
    /// The address with these bytes.
    pub fn new(bytes: Vec<u8>) -> (a: Address)
        ensures
            a@ == bytes@,
    {
        Address { bytes }
    }

    /// The bytes of the address.
    pub fn to_bytes(&self) -> (bytes: &Vec<u8>)
        ensures
            bytes@ == self@,
    {
        &self.bytes
    }
}

/// The mathematical value of the table of addresses.
pub struct InitModel {
    pub next_id: ActorID,
    pub table: Seq<(Seq<u8>, ActorID)>,
}

/// The actor that the table gives for `addr`: that of the first row with
/// the address.
pub open spec fn resolve(table: Seq<(Seq<u8>, ActorID)>, addr: Seq<u8>) -> Option<ActorID>
    decreases table.len(),
{
    if table.len() == 0 {
        None
    } else if table.first().0 == addr {
        Some(table.first().1)
    } else {
        resolve(table.drop_first(), addr)
    }
}

/// The persisted form of one row: an array of the address and the actor.
pub open spec fn row_bytes(row: (Seq<u8>, ActorID)) -> Seq<u8> {
    head_bytes(4, 2) + bytes_item(row.0) + uint_item(row.1)
}

/// The persisted forms of the rows, one after the other.
pub open spec fn rows_bytes(table: Seq<(Seq<u8>, ActorID)>) -> Seq<u8>
    decreases table.len(),
{
    if table.len() == 0 {
        Seq::empty()
    } else {
        rows_bytes(table.drop_last()) + row_bytes(table.last())
    }
}

/// The persisted form of the table: an array of the next identifier and the
/// array of rows.
pub open spec fn init_bytes(state: InitModel) -> Seq<u8> {
    head_bytes(4, 2) + uint_item(state.next_id) + head_bytes(4, state.table.len() as u64)
        + rows_bytes(state.table)
}

/// The row written at `pos`, and the position after it.
pub open spec fn row_at(bytes: Seq<u8>, pos: int) -> Option<((Seq<u8>, ActorID), int)> {
    match array_at(bytes, pos) {
        Some((n, pos1)) => match string_at(bytes, pos1, 2) {
            Some((addr, pos2)) => match uint_at(bytes, pos2) {
                Some((id, pos3)) => if n == 2 {
                    Some(((addr, id), pos3))
                } else {
                    None
                },
                None => None,
            },
            None => None,
        },
        None => None,
    }
}

/// The first `n` rows written from `pos`, and the position after them.
pub open spec fn rows_at(bytes: Seq<u8>, pos: int, n: nat) -> Option<
    (Seq<(Seq<u8>, ActorID)>, int),
>
    decreases n,
{
    if n == 0 {
        Some((Seq::empty(), pos))
    } else {
        match rows_at(bytes, pos, (n - 1) as nat) {
            None => None,
            Some((front, p)) => match row_at(bytes, p) {
                None => None,
                Some((row, next)) => Some((front.push(row), next)),
            },
        }
    }
}

/// The table that the bytes hold, if they hold one and nothing else.
pub open spec fn init_of(bytes: Seq<u8>) -> Option<InitModel> {
    match array_at(bytes, 0) {
        Some((two, pos1)) => match uint_at(bytes, pos1) {
            Some((next_id, pos2)) => match array_at(bytes, pos2) {
                Some((n, pos3)) => match rows_at(bytes, pos3, n as nat) {
                    Some((table, end)) => if two == 2 && end == bytes.len() {
                        Some(InitModel { next_id, table })
                    } else {
                        None
                    },
                    None => None,
                },
                None => None,
            },
            None => None,
        },
        None => None,
    }
}

/// Where fewer rows cannot be read, more cannot either.
proof fn lemma_rows_fail(bytes: Seq<u8>, pos: int, k: nat, n: nat)
    requires
        k <= n,
        rows_at(bytes, pos, k) is None,
    ensures
        rows_at(bytes, pos, n) is None,
    decreases n,
{
    if k < n {
        lemma_rows_fail(bytes, pos, k, (n - 1) as nat);
    }
}

/// The address of a row that was persisted is read back.
proof fn lemma_row_address(prefix: Seq<u8>, row: (Seq<u8>, ActorID), rest: Seq<u8>)
    requires
        prefix.len() + row_bytes(row).len() + rest.len() <= usize::MAX,
    ensures
        string_at(
            prefix + row_bytes(row) + rest,
            (prefix.len() + head_bytes(4, 2).len()) as int,
            2,
        ) == Some(
            (row.0, (prefix.len() + head_bytes(4, 2).len() + bytes_item(row.0).len()) as int),
        ),
{
    let h = head_bytes(4, 2);
    let u = uint_item(row.1);
    lemma_three_parts(prefix, h, bytes_item(row.0), u, rest);
    lemma_string_round_trip(prefix + h, 2, row.0, u + rest);
}

/// The actor of a row that was persisted is read back.
proof fn lemma_row_actor(prefix: Seq<u8>, row: (Seq<u8>, ActorID), rest: Seq<u8>)
    requires
        prefix.len() + row_bytes(row).len() + rest.len() <= usize::MAX,
    ensures
        uint_at(
            prefix + row_bytes(row) + rest,
            (prefix.len() + head_bytes(4, 2).len() + bytes_item(row.0).len()) as int,
        ) == Some((row.1, (prefix.len() + row_bytes(row).len()) as int)),
{
    let h = head_bytes(4, 2);
    let a = bytes_item(row.0);
    let u = uint_item(row.1);
    lemma_three_parts(prefix, h, a, u, rest);
    lemma_uint_round_trip(prefix + h + a, row.1, rest);
}

/// A row that was persisted is read back.
pub proof fn lemma_row_round_trip(prefix: Seq<u8>, row: (Seq<u8>, ActorID), rest: Seq<u8>)
    requires
        prefix.len() + row_bytes(row).len() + rest.len() <= usize::MAX,
    ensures
        row_at(prefix + row_bytes(row) + rest, prefix.len() as int) == Some(
            (row, (prefix.len() + row_bytes(row).len()) as int),
        ),
{
    let h = head_bytes(4, 2);
    let a = bytes_item(row.0);
    let u = uint_item(row.1);
    let bytes = prefix + row_bytes(row) + rest;
    assert(array_at(bytes, prefix.len() as int)
        == Some((2u64, (prefix.len() + h.len()) as int))) by {
        assert(bytes =~= prefix + h + (a + u + rest));
        lemma_array_round_trip(prefix, 2, a + u + rest);
    }
    lemma_row_address(prefix, row, rest);
    lemma_row_actor(prefix, row, rest);
}

/// Rows that were persisted are read back.
pub proof fn lemma_rows_round_trip(
    prefix: Seq<u8>,
    table: Seq<(Seq<u8>, ActorID)>,
    rest: Seq<u8>,
)
    requires
        prefix.len() + rows_bytes(table).len() + rest.len() <= usize::MAX,
    ensures
        rows_at(prefix + rows_bytes(table) + rest, prefix.len() as int, table.len()) == Some(
            (table, (prefix.len() + rows_bytes(table).len()) as int),
        ),
    decreases table.len(),
{
    let bytes = prefix + rows_bytes(table) + rest;
    if table.len() == 0 {
        assert(rows_at(bytes, prefix.len() as int, 0) == Some(
            (Seq::<(Seq<u8>, ActorID)>::empty(), prefix.len() as int),
        ));
        assert(table =~= Seq::empty());
    } else {
        let front = table.drop_last();
        let last = table.last();
        let written = rows_bytes(front);
        lemma_two_parts(prefix, written, row_bytes(last), rest);
        lemma_rows_round_trip(prefix, front, row_bytes(last) + rest);
        lemma_row_round_trip(prefix + written, last, rest);
        assert(front.push(last) =~= table);
    }
}

/// A table that was persisted is read back as it was.
pub proof fn lemma_init_round_trip(state: InitModel)
    requires
        init_bytes(state).len() <= usize::MAX,
        state.table.len() <= u64::MAX,
    ensures
        init_of(init_bytes(state)) == Some(state),
{
    let none = Seq::<u8>::empty();
    let h = head_bytes(4, 2);
    let u = uint_item(state.next_id);
    let n = head_bytes(4, state.table.len() as u64);
    let r = rows_bytes(state.table);
    lemma_init_parts(h, u, n, r);
    lemma_array_round_trip(none, 2, u + n + r);
    lemma_uint_round_trip(h, state.next_id, n + r);
    lemma_array_round_trip(h + u, state.table.len() as u64, r);
    lemma_rows_round_trip(h + u + n, state.table, none);
}

/// The four parts of a persisted table can be grouped in other ways.
proof fn lemma_init_parts(h: Seq<u8>, u: Seq<u8>, n: Seq<u8>, r: Seq<u8>)
    ensures
        h + u + n + r == Seq::<u8>::empty() + h + (u + n + r),
        h + u + n + r == h + u + (n + r),
        h + u + n + r == (h + u + n) + r + Seq::<u8>::empty(),
{
    assert(h + u + n + r =~= Seq::<u8>::empty() + h + (u + n + r));
    assert(h + u + n + r =~= h + u + (n + r));
    assert(h + u + n + r =~= (h + u + n) + r + Seq::<u8>::empty());
}

/// The values of a list of rows.
pub open spec fn rows(table: Seq<(Vec<u8>, ActorID)>) -> Seq<(Seq<u8>, ActorID)> {
    Seq::new(table.len(), |i: int| (table[i].0@, table[i].1))
}

/// The table of addresses.
#[derive(Debug)]
pub struct InitState {
    next_id: ActorID,
    table: Vec<(Vec<u8>, ActorID)>,
}

impl View for InitState {
    type V = InitModel;

    closed spec fn view(&self) -> InitModel {
        InitModel { next_id: self.next_id, table: rows(self.table@) }
    }
}

impl InitState {
    /// An empty table whose first new actor gets `next_id`.
    pub fn new(next_id: ActorID) -> (s: InitState)
        ensures
            s@ == (InitModel { next_id, table: Seq::empty() }),
    {
        let s = InitState { next_id, table: Vec::new() };
        assert(rows(s.table@) =~= Seq::empty());
        s
    }

    /// The identifier that the next new address gets.
    pub fn next_id(&self) -> (id: ActorID)
        ensures
            id == self@.next_id,
    {
        self.next_id
    }

    /// The actor that the table gives for the address.
    pub fn lookup(&self, addr: &Address) -> (r: Option<ActorID>)
        ensures
            r == resolve(self@.table, addr@),
    {
        let ghost table = rows(self.table@);
        let mut i: usize = 0;
        assert(table.skip(0) =~= table);
        while i < self.table.len()
            invariant
                i <= self.table@.len(),
                table == rows(self.table@),
                resolve(table, addr@) == resolve(table.skip(i as int), addr@),
            decreases self.table@.len() - i,
        {
            assert(table.skip(i as int).first() == table[i as int]);
            assert(table.skip(i as int).drop_first() =~= table.skip(i + 1));
            if same_bytes(self.table[i].0.as_slice(), addr.to_bytes().as_slice()) {
                return Some(self.table[i].1);
            }
            i = i + 1;
        }
        None
    }

    /// Gives the address the next identifier and returns it; `None`, and no
    /// change, where no identifier is left.
    pub fn assign(&mut self, addr: &Address) -> (r: Option<ActorID>)
        ensures
            match r {
                Some(id) => id == old(self)@.next_id && id < u64::MAX && final(self)@
                    == (InitModel {
                    next_id: (id + 1) as u64,
                    table: old(self)@.table.push((addr@, id)),
                }),
                None => old(self)@.next_id == u64::MAX && *final(self) == *old(self),
            },
    {
        if self.next_id == u64::MAX {
            return None;
        }
        let id = self.next_id;
        let ghost before = rows(self.table@);
        let bytes = addr.to_bytes().clone();
        self.table.push((bytes, id));
        self.next_id = id + 1;
        assert(rows(self.table@) =~= before.push((addr@, id)));
        Some(id)
    }

    /// The persisted form of the table.
    pub fn encode(&self) -> (bytes: Vec<u8>)
        ensures
            bytes@ == init_bytes(self@),
            init_of(bytes@) == Some(self@),
    {
        let ghost table = rows(self.table@);
        let mut out: Vec<u8> = Vec::new();
        write_head(&mut out, 4, 2);
        write_uint(&mut out, self.next_id);
        write_head(&mut out, 4, self.table.len() as u64);
        let ghost head = out@;
        let mut i: usize = 0;
        assert(table.take(0) =~= Seq::empty());
        assert(out@ =~= head + rows_bytes(table.take(0)));
        while i < self.table.len()
            invariant
                i <= self.table@.len(),
                table == rows(self.table@),
                head == head_bytes(4, 2) + uint_item(self.next_id) + head_bytes(
                    4,
                    table.len() as u64,
                ),
                out@ == head + rows_bytes(table.take(i as int)),
            decreases self.table@.len() - i,
        {
            let ghost so_far = out@;
            write_head(&mut out, 4, 2);
            write_bytes(&mut out, self.table[i].0.as_slice());
            write_uint(&mut out, self.table[i].1);
            proof {
                assert(table.take(i + 1).drop_last() =~= table.take(i as int));
                assert(table.take(i + 1).last() == table[i as int]);
                assert(out@ =~= so_far + row_bytes(table[i as int]));
                assert(out@ =~= head + rows_bytes(table.take(i + 1)));
            }
            i = i + 1;
        }
        assert(table.take(i as int) =~= table);
        proof {
            assert(out@.len() == out.len());
            assert(self.table@.len() == self.table.len());
            lemma_init_round_trip(self@);
        }
        out
    }

    /// Reads a table from its persisted form.
    pub fn decode(bytes: &[u8]) -> (r: Option<InitState>)
        ensures
            match r {
                Some(state) => init_of(bytes@) == Some(state@),
                None => init_of(bytes@) is None,
            },
    {
        let len: usize = bytes.len();
        let (two, pos1) = match read_array(bytes, 0) {
            Some(x) => x,
            None => {
                return None;
            },
        };
        let (next_id, pos2) = match read_uint(bytes, pos1) {
            Some(x) => x,
            None => {
                return None;
            },
        };
        let (n, start) = match read_array(bytes, pos2) {
            Some(x) => x,
            None => {
                return None;
            },
        };
        let mut table: Vec<(Vec<u8>, ActorID)> = Vec::new();
        let mut pos: usize = start;
        let mut i: u64 = 0;
        assert(rows(table@) =~= Seq::empty());
        while i < n
            invariant
                i <= n,
                len == bytes@.len(),
                pos <= len,
                array_at(bytes@, 0) == Some((two, pos1 as int)),
                uint_at(bytes@, pos1 as int) == Some((next_id, pos2 as int)),
                array_at(bytes@, pos2 as int) == Some((n, start as int)),
                rows_at(bytes@, start as int, i as nat) == Some((rows(table@), pos as int)),
            decreases n - i,
        {
            let (count, at1) = match read_array(bytes, pos) {
                Some(x) => x,
                None => {
                    proof {
                        lemma_rows_fail(bytes@, start as int, (i + 1) as nat, n as nat);
                    }
                    return None;
                },
            };
            let (addr, at2) = match read_string(bytes, at1, 2) {
                Some(x) => x,
                None => {
                    proof {
                        lemma_rows_fail(bytes@, start as int, (i + 1) as nat, n as nat);
                    }
                    return None;
                },
            };
            let (id, at3) = match read_uint(bytes, at2) {
                Some(x) => x,
                None => {
                    proof {
                        lemma_rows_fail(bytes@, start as int, (i + 1) as nat, n as nat);
                    }
                    return None;
                },
            };
            if count != 2 {
                proof {
                    lemma_rows_fail(bytes@, start as int, (i + 1) as nat, n as nat);
                }
                return None;
            }
            let ghost so_far = rows(table@);
            let ghost value = (addr@, id);
            table.push((addr, id));
            assert(rows(table@) =~= so_far.push(value));
            pos = at3;
            i = i + 1;
        }
        if two != 2 || pos != len {
            return None;
        }
        Some(InitState { next_id, table })
    }
}

/// A table with one more row resolves the addresses that it resolved
/// before as before, and the address of the row, if it was not resolved,
/// to the actor of the row.
pub proof fn lemma_resolve_push(
    table: Seq<(Seq<u8>, ActorID)>,
    row: (Seq<u8>, ActorID),
    addr: Seq<u8>,
)
    ensures
        resolve(table.push(row), addr) == match resolve(table, addr) {
            Some(known) => Some(known),
            None => if row.0 == addr {
                Some(row.1)
            } else {
                None
            },
        },
    decreases table.len(),
{
    let longer = table.push(row);
    if table.len() == 0 {
        assert(longer.drop_first() =~= Seq::empty());
        assert(longer.first() == row);
    } else {
        assert(longer.first() == table.first());
        assert(longer.drop_first() =~= table.drop_first().push(row));
        lemma_resolve_push(table.drop_first(), row, addr);
    }
}

/// The extended table gives the new address the identifier that was next,
/// counts one further, and resolves every other address as before.
pub proof fn lemma_extended(state: InitModel, addr: Seq<u8>, other: Seq<u8>)
    requires
        resolve(state.table, addr) is None,
        state.next_id < u64::MAX,
    ensures
        resolve(extended(state, addr).table, addr) == Some(state.next_id),
        extended(state, addr).next_id == state.next_id + 1,
        other != addr ==> resolve(extended(state, addr).table, other) == resolve(
            state.table,
            other,
        ),
{
    lemma_resolve_push(state.table, (addr, state.next_id), addr);
    lemma_resolve_push(state.table, (addr, state.next_id), other);
}

/// The record with another link as its state.
pub open spec fn with_state(actor: ActorModel, state: CidModel) -> ActorModel {
    ActorModel {
        code: actor.code,
        state,
        sequence: actor.sequence,
        negative: actor.negative,
        digits: actor.digits,
    }
}

/// The identifier under which a table is persisted.
pub open spec fn init_id(state: InitModel) -> CidModel {
    content_id_of(HashKind::Blake2b256, DAG_CBOR, init_bytes(state))
}

/// The table with one more row, for the address that got the next
/// identifier.
pub open spec fn extended(state: InitModel, addr: Seq<u8>) -> InitModel {
    InitModel { next_id: (state.next_id + 1) as u64, table: state.table.push((addr,
        state.next_id)) }
}

impl<B: Blockstore> StateTree<B> {
    /// The table of addresses that the tree leads to.
    pub open spec fn init_state(&self) -> Option<InitModel> {
        match self.actor(INIT_ACTOR_ID) {
            Some(actor) => if self.blocks().contains_key(actor.state) {
                init_of(self.blocks()[actor.state])
            } else {
                None
            },
            None => None,
        }
    }

    /// The blocks of the store once `addr` is resolved: a new address adds
    /// the extended table.
    pub open spec fn blocks_with_address(&self, addr: Seq<u8>) -> Map<CidModel, Seq<u8>> {
        if self.init_state() is Some && resolve(self.init_state()->0.table, addr) is None {
            let table = extended(self.init_state()->0, addr);
            with_block(self.blocks(), init_id(table), init_bytes(table))
        } else {
            self.blocks()
        }
    }

    /// The store holds, under the identifier that the extended table would
    /// get, a block that is not that table: the table cannot be recorded.
    pub open spec fn table_shadowed(&self, addr: Seq<u8>) -> bool {
        &&& self.init_state() is Some
        &&& resolve(self.init_state()->0.table, addr) is None
        &&& self.init_state()->0.next_id < u64::MAX
        &&& self.blocks().contains_key(init_id(extended(self.init_state()->0, addr)))
        &&& self.blocks()[init_id(extended(self.init_state()->0, addr))] != init_bytes(
            extended(self.init_state()->0, addr),
        )
    }

    /// What registering a new address does to the tree: the extended table
    /// is put to the store, and the record of the init actor, with the link
    /// to that table as its state, is staged.
    pub open spec fn registered(&self, before: &Self, addr: Seq<u8>) -> bool {
        let table = extended(before.init_state()->0, addr);
        let init = before.actor(INIT_ACTOR_ID)->0;
        &&& self.blocks() == with_block(before.blocks(), init_id(table), init_bytes(table))
        &&& self.written() == before.written().push(
            (INIT_ACTOR_ID, with_state(init, init_id(table))),
        )
        &&& self.actor(INIT_ACTOR_ID) == Some(with_state(init, init_id(table)))
    }

    /// Resolves an address to the actor that it stands for. An address that
    /// the table knows keeps its actor, and nothing changes. A new address
    /// gets the next identifier of the table, and the extended table is
    /// recorded before the identifier is returned.
    #[verifier::rlimit(40)]
    pub fn register_new_address(&mut self, addr: &Address) -> (r: Result<ActorID, ExecutionError>)
        requires
            old(self).wf(),
        ensures
            final(self).wf(),
            final(self).root_id() == old(self).root_id(),
            final(self).index_entries() == old(self).index_entries(),
            final(self).persisted_count() == old(self).persisted_count(),
            final(self).store_view().reliable() == old(self).store_view().reliable(),
            final(self).store_view().durable() == old(self).store_view().durable(),
            final(self).store_view().staged() == newly_staged(
                old(self).store_view().staged(),
                old(self).blocks(),
                final(self).blocks(),
            ),
            forall|other: ActorID|
                #![trigger final(self).actor(other)]
                other != INIT_ACTOR_ID && !old(self).dangling(other) ==> final(self).actor(other)
                    == old(self).actor(other),
            forall|other: ActorID|
                #![trigger final(self).readable(other)]
                old(self).readable(other) ==> final(self).readable(other),
            forall|other: ActorID|
                #![trigger final(self).dangling(other)]
                final(self).dangling(other) ==> old(self).dangling(other),
            match r {
                Ok(id) => old(self).init_state() is Some && match resolve(
                    old(self).init_state()->0.table,
                    addr@,
                ) {
                    Some(known) => id == known && *final(self) == *old(self),
                    None => id == old(self).init_state()->0.next_id && id < u64::MAX
                        && final(self).registered(old(self), addr@) && final(self).init_state()
                        == Some(extended(old(self).init_state()->0, addr@)),
                },
                Err(ExecutionError::Fatal(Fault::Corrupt)) => *final(self) == *old(self)
                    && (old(self).init_state() is None || old(self).table_shadowed(addr@)),
                Err(ExecutionError::Fatal(Fault::Exhausted)) => old(self).init_state() is Some
                    && resolve(old(self).init_state()->0.table, addr@) is None
                        && old(self).init_state()->0.next_id == u64::MAX && *final(self)
                        == *old(self),
                Err(ExecutionError::Fatal(Fault::Store)) => !old(self).store_view().reliable()
                    && final(self).written() == old(self).written() && final(self).blocks()
                        == old(self).blocks(),
                Err(_) => false,
            },
    {
        proof {
            self.lemma_actor(INIT_ACTOR_ID);
        }
        let mut init = match self.get_actor(INIT_ACTOR_ID) {
            Err(ExecutionError::Fatal(Fault::Store)) => {
                return Err(ExecutionError::Fatal(Fault::Store));
            },
            Err(_) => {
                return Err(ExecutionError::Fatal(Fault::Corrupt));
            },
            Ok(None) => {
                return Err(ExecutionError::Fatal(Fault::Corrupt));
            },
            Ok(Some(init)) => init,
        };
        let bytes = match self.store().get(&init.state) {
            Err(_) => {
                return Err(ExecutionError::Fatal(Fault::Store));
            },
            Ok(None) => {
                return Err(ExecutionError::Fatal(Fault::Corrupt));
            },
            Ok(Some(bytes)) => bytes,
        };
        let mut table = match InitState::decode(bytes.as_slice()) {
            None => {
                return Err(ExecutionError::Fatal(Fault::Corrupt));
            },
            Some(table) => table,
        };
        match table.lookup(addr) {
            Some(id) => {
                return Ok(id);
            },
            None => {},
        }
        let id = match table.assign(addr) {
            None => {
                return Err(ExecutionError::Fatal(Fault::Exhausted));
            },
            Some(id) => id,
        };
        match self.record_table(init, &table) {
            Err(e) => {
                return Err(e);
            },
            Ok(()) => {},
        }
        proof {
            lemma_init_round_trip(table@);
        }
        Ok(id)
    }

    /// Puts the table to the store and stages the record of the init actor
    /// with the link to it as its state. A block of other content that the
    /// store shows under the identifier of the table is a fatal fault.
    #[verifier::rlimit(40)]
    fn record_table(&mut self, init: ActorState, table: &InitState) -> (r: Result<
        (),
        ExecutionError,
    >)
        requires
            old(self).wf(),
        ensures
            final(self).wf(),
            final(self).root_id() == old(self).root_id(),
            final(self).index_entries() == old(self).index_entries(),
            final(self).persisted_count() == old(self).persisted_count(),
            final(self).store_view().reliable() == old(self).store_view().reliable(),
            final(self).store_view().durable() == old(self).store_view().durable(),
            final(self).store_view().staged() == newly_staged(
                old(self).store_view().staged(),
                old(self).blocks(),
                final(self).blocks(),
            ),
            forall|other: ActorID|
                #![trigger final(self).actor(other)]
                other != INIT_ACTOR_ID && !old(self).dangling(other) ==> final(self).actor(other)
                    == old(self).actor(other),
            forall|other: ActorID|
                #![trigger final(self).readable(other)]
                old(self).readable(other) ==> final(self).readable(other),
            forall|other: ActorID|
                #![trigger final(self).dangling(other)]
                final(self).dangling(other) ==> old(self).dangling(other),
            init_bytes(table@).len() <= usize::MAX,
            table@.table.len() <= usize::MAX,
            match r {
                Ok(()) => final(self).blocks() == with_block(
                    old(self).blocks(),
                    init_id(table@),
                    init_bytes(table@),
                ) && final(self).blocks().contains_key(init_id(table@))
                    && final(self).blocks()[init_id(
                    table@,
                )] == init_bytes(table@) && final(self).written() == old(self).written().push(
                    (INIT_ACTOR_ID, with_state(init@, init_id(table@))),
                ) && final(self).actor(INIT_ACTOR_ID) == Some(with_state(init@, init_id(table@))),
                Err(ExecutionError::Fatal(Fault::Corrupt)) => *final(self) == *old(self)
                    && old(self).blocks().contains_key(init_id(table@))
                    && old(self).blocks()[init_id(table@)]
                    != init_bytes(table@),
                Err(ExecutionError::Fatal(Fault::Store)) => !old(self).store_view().reliable()
                    && final(self).written() == old(self).written() && final(self).blocks()
                        == old(self).blocks(),
                Err(_) => false,
            },
    {
        let block = table.encode();
        let link = hash_block(HashKind::Blake2b256, DAG_CBOR, block.as_slice());
        proof {
            assert(block@.len() == block.len());
            assert(table.table@.len() == table.table.len());
            assert(table@.table.len() == table.table@.len());
            lemma_stage_step(
                self.store_view().staged(),
                self.blocks(),
                self.blocks(),
                link@,
                block@,
            );
        }
        let held = match self.store().get(&link) {
            Err(_) => {
                return Err(ExecutionError::Fatal(Fault::Store));
            },
            Ok(held) => held,
        };
        match held {
            Some(other) => {
                if !same_bytes(other.as_slice(), block.as_slice()) {
                    return Err(ExecutionError::Fatal(Fault::Corrupt));
                }
            },
            None => {
                match self.stage_block(&link, block.as_slice()) {
                    Err(_) => {
                        return Err(ExecutionError::Fatal(Fault::Store));
                    },
                    Ok(()) => {},
                }
            },
        }
        let mut init = init;
        init.state = link;
        self.set_actor(INIT_ACTOR_ID, init);
        Ok(())
    }
}

} // verus!
