//! The machine: one execution context over a block store, with the state
//! tree, the manifest of built-in actors, and the operations that change
//! state while a message executes.

use vstd::prelude::*;
use crate::actor::{ActorID, ActorModel, ActorState};
use crate::blockstore::{put, with_block, BlockSource, Blockstore};
use crate::buffered::{lemma_nothing_flushed, partly_flushed, BufferedStore};
use crate::closure::{
    closure, edge, is_path, lemma_reachable_self, lemma_reachable_step, malformed, reachable,
    resolvable, ClosureError,
};
use crate::content_id::{
    content_id_of, found_id, CidModel, ContentId, HashKind, BLAKE2B_256, DAG_CBOR,
};
use crate::error::{ErrorNumber, ExecutionError, Fault};
use crate::events::{events_blocks, events_root, events_trie_built, EVENTS_AMT_BITWIDTH};
use crate::memory_store::IpldMemoryStore;
use crate::index::{index_of, link_map};
use crate::init_actor::{
    extended, init_id, resolve, with_state, Address, InitModel, INIT_ACTOR_ID,
};
use crate::manifest::{
    decode_pointer, decode_system_state, manifest_at, pointer_of, system_state_of, EntryModel,
    Manifest, MANIFEST_VERSION,
};
use crate::state_tree::{
    index_id, lemma_stage_step, newly_staged, persisted, staged_links, StateTree,
};
use crate::supply::{lemma_total_moved, total};
use crate::token::TokenAmount;

verus! {

/// The actor whose state names the manifest of built-in actors.
pub const SYSTEM_ACTOR_ID: ActorID = 0;

/// The oldest network version that the machine runs.
pub const MIN_SUPPORTED_VERSION: u32 = 18;

/// The newest network version that the machine runs.
pub const MAX_SUPPORTED_VERSION: u32 = 18;

/// A version of the network's rules.
#[derive(Clone, Copy, Debug, PartialEq, Eq, Structural)]
pub struct NetworkVersion(pub u32);

/// Whether the machine runs the network version.
pub open spec fn supported(version: NetworkVersion) -> bool {
    MIN_SUPPORTED_VERSION <= version.0 <= MAX_SUPPORTED_VERSION
}

/// The mathematical value of a machine context.
pub struct ContextModel {
    pub epoch: i64,
    pub base_fee: int,
    pub network_version: NetworkVersion,
    pub initial_state_root: CidModel,
    pub builtin_actors_override: Option<CidModel>,
}

/// What a machine is made for: fixed when the machine is made.
#[derive(Debug)]
pub struct MachineContext {
    /// The epoch at which the messages execute.
    pub epoch: i64,
    /// The base fee in force.
    pub base_fee: TokenAmount,
    /// The version of the network's rules.
    pub network_version: NetworkVersion,
    /// The root of the state tree before the messages.
    pub initial_state_root: ContentId,
    /// Where to find the manifest of built-in actors, if not in the state
    /// of the system actor.
    pub builtin_actors_override: Option<ContentId>,
}

impl View for MachineContext {
    type V = ContextModel;

    open spec fn view(&self) -> ContextModel {
        ContextModel {
            epoch: self.epoch,
            base_fee: self.base_fee@,
            network_version: self.network_version,
            initial_state_root: self.initial_state_root@,
            builtin_actors_override: found_id(self.builtin_actors_override),
        }
    }
}

impl Clone for MachineContext {
    fn clone(&self) -> (r: Self)
        ensures
            r@ == self@,
    {
        let over = match &self.builtin_actors_override {
            Some(id) => Some(id.clone()),
            None => None,
        };
        MachineContext {
            epoch: self.epoch,
            base_fee: self.base_fee.clone(),
            network_version: self.network_version,
            initial_state_root: self.initial_state_root.clone(),
            builtin_actors_override: over,
        }
    }
}

/// Why a machine could not be made.
#[derive(Clone, Copy, Debug, PartialEq, Eq, Structural)]
pub enum MachineError {
    /// The network version is outside the supported range.
    UnsupportedVersion,
    /// A store operation failed.
    Store,
    /// The store does not hold the initial state root.
    MissingRoot,
    /// The empty array did not get its well-known identifier.
    EmptyArrayMismatch,
    /// The initial state root is not an index node.
    InvalidRoot,
    /// The manifest of built-in actors could not be found or read.
    Manifest,
}

/// A refused construction: the reason, and the block store as it is now.
#[derive(Debug)]
pub struct Rejected<B> {
    pub error: MachineError,
    pub blockstore: B,
}

/// The bytes of the empty array.
pub open spec fn empty_array_bytes() -> Seq<u8> {
    seq![0x80u8]
}

/// The digest of the well-known identifier of the empty array.
pub open spec fn empty_array_digest() -> Seq<u8> {
    seq![
        0x45u8, 0xb0u8, 0xcfu8, 0xc2u8, 0x20u8, 0xceu8, 0xecu8, 0x5bu8,
        0x7cu8, 0x1cu8, 0x62u8, 0xc4u8, 0xd4u8, 0x19u8, 0x3du8, 0x38u8,
        0xe4u8, 0xebu8, 0xa4u8, 0x8eu8, 0x88u8, 0x15u8, 0x72u8, 0x9cu8,
        0xe7u8, 0x5fu8, 0x9cu8, 0x0au8, 0xb0u8, 0xe4u8, 0xc1u8, 0xc0u8,
    ]
}

/// The well-known identifier of the empty array, the state of an actor
/// that has none yet.
pub open spec fn empty_array_id() -> CidModel {
    CidModel { codec: DAG_CBOR, hash: BLAKE2B_256, digest: empty_array_digest() }
}

/// The identifier that the store computes for the empty array.
pub open spec fn computed_empty_id() -> CidModel {
    content_id_of(HashKind::Blake2b256, DAG_CBOR, empty_array_bytes())
}

/// The well-known identifier of the empty array.
pub fn empty_arr_cid() -> (id: ContentId)
    ensures
        id@ == empty_array_id(),
{
    let digest: Vec<u8> = vec![
        0x45u8, 0xb0u8, 0xcfu8, 0xc2u8, 0x20u8, 0xceu8, 0xecu8, 0x5bu8,
        0x7cu8, 0x1cu8, 0x62u8, 0xc4u8, 0xd4u8, 0x19u8, 0x3du8, 0x38u8,
        0xe4u8, 0xebu8, 0xa4u8, 0x8eu8, 0x88u8, 0x15u8, 0x72u8, 0x9cu8,
        0xe7u8, 0x5fu8, 0x9cu8, 0x0au8, 0xb0u8, 0xe4u8, 0xc1u8, 0xc0u8,
    ];
    assert(digest@ =~= empty_array_digest());
    ContentId::from_parts(DAG_CBOR, BLAKE2B_256, digest)
}

/// Calls `fvm_ipld_encoding::to_vec` on an empty array: its DAG-CBOR form
/// is the one byte that heads an array of no items.
#[verifier::external_body]
fn empty_array_block() -> (bytes: Vec<u8>)
    ensures
        bytes@ == empty_array_bytes(),
{
    fvm_ipld_encoding::to_vec::<[(); 0]>(&[]).unwrap()
}

/// Calls `rand::random` for sixteen bytes. Nothing is known of them.
#[verifier::external_body]
fn fresh_nonce() -> (nonce: [u8; 16]) {
    rand::random()
}

/// The text that names a machine: the epoch in decimal, a hyphen, and the
/// nonce as `cid::multibase::encode` writes it in lower-case base 32.
pub uninterp spec fn label_text(epoch: i64, nonce: Seq<u8>) -> Seq<char>;

/// Formats the epoch and a hyphen before what `cid::multibase::encode`
/// gives for the nonce in lower-case base 32.
#[verifier::external_body]
fn machine_label(epoch: i64, nonce: &[u8; 16]) -> (label: String)
    ensures
        label@ == label_text(epoch, nonce@),
{
    format!("{}-{}", epoch, cid::multibase::encode(cid::multibase::Base::Base32Lower, nonce))
}

/// Puts the blocks that the rest of the system takes for granted: the
/// empty array, which must get its well-known identifier.
pub fn put_empty_blocks<S: Blockstore>(store: &mut S) -> (r: Result<(), MachineError>)
    ensures
        final(store).reliable() == old(store).reliable(),
        old(store).reliable() && computed_empty_id() == empty_array_id() ==> r is Ok,
        match r {
            Ok(()) => computed_empty_id() == empty_array_id() && final(store).blocks()
                == with_block(
                old(store).blocks(),
                empty_array_id(),
                empty_array_bytes(),
            ),
            Err(MachineError::EmptyArrayMismatch) => computed_empty_id() != empty_array_id()
                && final(store).blocks() == with_block(
                old(store).blocks(),
                computed_empty_id(),
                empty_array_bytes(),
            ),
            Err(MachineError::Store) => !old(store).reliable() && final(store).blocks()
                == old(store).blocks(),
            Err(_) => false,
        },
{
    let block = empty_array_block();
    let id = match put(store, HashKind::Blake2b256, DAG_CBOR, block.as_slice()) {
        Err(_) => {
            return Err(MachineError::Store);
        },
        Ok(id) => id,
    };
    let expected = empty_arr_cid();
    if !id.same(&expected) {
        return Err(MachineError::EmptyArrayMismatch);
    }
    Ok(())
}

/// The store once the empty array is in it.
pub open spec fn prepared(blocks: Map<CidModel, Seq<u8>>) -> Map<CidModel, Seq<u8>> {
    with_block(blocks, empty_array_id(), empty_array_bytes())
}

/// Where the manifest is and which version it has: from the override, or
/// else from the state of the system actor, at the first version.
pub open spec fn manifest_pointer(
    over: Option<CidModel>,
    system: Option<ActorModel>,
    blocks: Map<CidModel, Seq<u8>>,
) -> Option<(u32, CidModel)> {
    match over {
        Some(id) => if blocks.contains_key(id) {
            pointer_of(blocks[id])
        } else {
            None
        },
        None => match system {
            Some(actor) => if blocks.contains_key(actor.state) {
                match system_state_of(blocks[actor.state]) {
                    Some(target) => Some((MANIFEST_VERSION, target)),
                    None => None,
                }
            } else {
                None
            },
            None => None,
        },
    }
}

/// The manifest of built-in actors that the context and the state lead to.
pub open spec fn resolved_manifest(
    over: Option<CidModel>,
    system: Option<ActorModel>,
    blocks: Map<CidModel, Seq<u8>>,
) -> Option<Seq<EntryModel>> {
    match manifest_pointer(over, system, blocks) {
        Some((version, id)) => manifest_at(blocks, id, version),
        None => None,
    }
}

/// The record of the system actor in the tree whose index node is stored
/// under `root`.
pub open spec fn system_actor_in(blocks: Map<CidModel, Seq<u8>>, root: CidModel) -> Option<
    ActorModel,
> {
    if blocks.contains_key(root) && index_of(blocks[root]) is Some {
        persisted(link_map(index_of(blocks[root])->0), blocks, SYSTEM_ACTOR_ID)
    } else {
        None
    }
}

/// A machine can be made for the context over a store with these blocks,
/// if the store does not fail.
pub open spec fn constructible(context: ContextModel, blocks: Map<CidModel, Seq<u8>>) -> bool {
    &&& supported(context.network_version)
    &&& blocks.contains_key(context.initial_state_root)
    &&& computed_empty_id() == empty_array_id()
    &&& index_of(prepared(blocks)[context.initial_state_root]) is Some
    &&& resolved_manifest(
        context.builtin_actors_override,
        system_actor_in(prepared(blocks), context.initial_state_root),
        prepared(blocks),
    ) is Some
}

/// Finds and reads the manifest of built-in actors.
fn resolve_manifest<B: Blockstore>(over: &Option<ContentId>, tree: &StateTree<B>) -> (r: Result<
    Manifest,
    MachineError,
>)
    requires
        tree.wf(),
    ensures
        match r {
            Ok(m) => resolved_manifest(found_id(*over), tree.actor(SYSTEM_ACTOR_ID), tree.blocks())
                == Some(m.entries_view()) && manifest_pointer(
                found_id(*over),
                tree.actor(SYSTEM_ACTOR_ID),
                tree.blocks(),
            ) == Some((m.version_view(), m.source_view())),
            Err(MachineError::Manifest) => resolved_manifest(
                found_id(*over),
                tree.actor(SYSTEM_ACTOR_ID),
                tree.blocks(),
            ) is None,
            Err(MachineError::Store) => !tree.store_view().reliable(),
            Err(_) => false,
        },
{
    let (version, target) = match over {
        Some(id) => {
            let bytes = match tree.store().get(id) {
                Err(_) => {
                    return Err(MachineError::Store);
                },
                Ok(None) => {
                    return Err(MachineError::Manifest);
                },
                Ok(Some(bytes)) => bytes,
            };
            match decode_pointer(bytes.as_slice()) {
                None => {
                    return Err(MachineError::Manifest);
                },
                Some(pointer) => pointer,
            }
        },
        None => {
            proof {
                tree.lemma_actor(SYSTEM_ACTOR_ID);
            }
            let system = match tree.get_actor(SYSTEM_ACTOR_ID) {
                Err(ExecutionError::Fatal(Fault::Store)) => {
                    return Err(MachineError::Store);
                },
                Err(_) => {
                    return Err(MachineError::Manifest);
                },
                Ok(None) => {
                    return Err(MachineError::Manifest);
                },
                Ok(Some(system)) => system,
            };
            let bytes = match tree.store().get(&system.state) {
                Err(_) => {
                    return Err(MachineError::Store);
                },
                Ok(None) => {
                    return Err(MachineError::Manifest);
                },
                Ok(Some(bytes)) => bytes,
            };
            match decode_system_state(bytes.as_slice()) {
                None => {
                    return Err(MachineError::Manifest);
                },
                Some(target) => (MANIFEST_VERSION, target),
            }
        },
    };
    match Manifest::load(tree.store(), &target, version) {
        Ok(m) => Ok(m),
        Err(Fault::Store) => Err(MachineError::Store),
        Err(_) => Err(MachineError::Manifest),
    }
}

/// What a transfer comes to, given the records of sender and receiver.
pub open spec fn transfer_outcome(
    sender: Option<ActorModel>,
    receiver: Option<ActorModel>,
    to_self: bool,
    value: int,
) -> Result<(), ErrorNumber> {
    if value < 0 {
        Err(ErrorNumber::IllegalArgument)
    } else if sender is None {
        Err(ErrorNumber::InsufficientFunds)
    } else if sender->0.balance() < value {
        Err(ErrorNumber::InsufficientFunds)
    } else if to_self {
        Ok(())
    } else if receiver is None {
        Err(ErrorNumber::NotFound)
    } else {
        Ok(())
    }
}

/// The cases of a transfer: a negative value is an illegal argument,
/// whoever sends; a sender without a record has insufficient funds,
/// whatever the value, and is never reported as not found; a receiver
/// without a record is not found where the sender can pay; and a transfer
/// to the sender itself succeeds exactly where the sender can pay.
pub proof fn lemma_transfer_cases(
    sender: Option<ActorModel>,
    receiver: Option<ActorModel>,
    to_self: bool,
    value: int,
)
    ensures
        value < 0 ==> transfer_outcome(sender, receiver, to_self, value) == Err::<(), ErrorNumber>(
            ErrorNumber::IllegalArgument,
        ),
        value >= 0 && sender is None ==> transfer_outcome(sender, receiver, to_self, value)
            == Err::<
            (),
            ErrorNumber,
        >(ErrorNumber::InsufficientFunds),
        value >= 0 && sender is Some && sender->0.balance() >= value && !to_self && receiver is None
            ==> transfer_outcome(sender, receiver, to_self, value) == Err::<(), ErrorNumber>(
            ErrorNumber::NotFound,
        ),
        value >= 0 && sender is Some && to_self ==> transfer_outcome(
            sender,
            receiver,
            to_self,
            value,
        ) == if sender->0.balance() >= value {
            Ok::<(), ErrorNumber>(())
        } else {
            Err::<(), ErrorNumber>(ErrorNumber::InsufficientFunds)
        },
{
}

/// `after` is `before` with `delta` added to the balance.
pub open spec fn balance_moved(before: ActorModel, after: ActorModel, delta: int) -> bool {
    &&& after.code == before.code
    &&& after.state == before.state
    &&& after.sequence == before.sequence
    &&& after.balance() == before.balance() + delta
}

/// The machine over the block store `B`, with the externs `E` that it keeps
/// for the code that it runs.
pub struct DefaultMachine<B, E> {
    context: MachineContext,
    externs: E,
    state_tree: StateTree<B>,
    builtin_actors: Manifest,
    id: String,
    poisoned: bool,
}

impl<B: Blockstore, E> DefaultMachine<B, E> {
    /// The state tree of the machine.
    pub closed spec fn tree(&self) -> StateTree<B> {
        self.state_tree
    }

    /// The machine has met a fatal fault and refuses further work.
    pub closed spec fn is_poisoned(&self) -> bool {
        self.poisoned
    }

    /// The context that the machine was made for.
    pub closed spec fn context_view(&self) -> ContextModel {
        self.context@
    }

    /// The externs that the machine was made with.
    pub closed spec fn externs_view(&self) -> E {
        self.externs
    }

    /// The manifest of built-in actors.
    pub closed spec fn manifest_view(&self) -> Manifest {
        self.builtin_actors
    }

    /// The text that names the machine in logs.
    pub closed spec fn label(&self) -> Seq<char> {
        self.id@
    }

    /// The machine is in order.
    pub open spec fn wf(&self) -> bool {
        self.tree().wf()
    }

    /// The record of the actor `id`.
    pub open spec fn actor(&self, id: ActorID) -> Option<ActorModel> {
        self.tree().actor(id)
    }

    /// The blocks that have reached the underlying store.
    pub open spec fn durable(&self) -> Map<CidModel, Seq<u8>> {
        self.tree().store_view().durable()
    }

    /// The blocks that wait in the buffer.
    pub open spec fn staged(&self) -> Map<CidModel, Seq<u8>> {
        self.tree().store_view().staged()
    }

    /// Whether the underlying store never fails.
    pub open spec fn reliable(&self) -> bool {
        self.tree().store_view().reliable()
    }

    /// Nothing but the state tree and the poison mark differs.
    pub open spec fn same_setup(&self, other: &Self) -> bool {
        &&& self.context_view() == other.context_view()
        &&& self.externs_view() == other.externs_view()
        &&& self.manifest_view() == other.manifest_view()
        &&& self.label() == other.label()
    }

    /// Makes a machine for `context` over `blockstore`, named with a fresh
    /// random nonce. See [`DefaultMachine::with_nonce`].
    pub fn new(context: &MachineContext, blockstore: B, externs: E) -> (r: Result<
        Self,
        Rejected<B>,
    >)
        ensures
            !supported(context.network_version) ==> r is Err,
            !blockstore.blocks().contains_key(context.initial_state_root@) ==> r is Err
                && r->Err_0.blockstore == blockstore,
            blockstore.reliable() && constructible(context@, blockstore.blocks()) ==> r is Ok,
            r matches Ok(m) ==> made_for(m, context@, blockstore, externs),
            r matches Err(rej) ==> refused_for(rej, context@, blockstore),
    {
        let nonce = fresh_nonce();
        Self::with_nonce(context, blockstore, externs, &nonce)
    }

    /// Makes a machine for `context` over `blockstore`. The network version
    /// is checked first, then that the store holds the initial root; before
    /// that nothing is written. Then the empty array is put, the state tree
    /// is opened at the root and the manifest of built-in actors is read.
    /// The nonce only names the machine.
    #[verifier::rlimit(40)]
    pub fn with_nonce(context: &MachineContext, blockstore: B, externs: E, nonce: &[u8; 16]) -> (r:
        Result<Self, Rejected<B>>)
        ensures
            !supported(context.network_version) ==> r is Err,
            !blockstore.blocks().contains_key(context.initial_state_root@) ==> r is Err
                && r->Err_0.blockstore == blockstore,
            blockstore.reliable() && constructible(context@, blockstore.blocks()) ==> r is Ok,
            r matches Ok(m) ==> made_for(m, context@, blockstore, externs) && m.label()
                == label_text(context.epoch, nonce@),
            r matches Err(rej) ==> refused_for(rej, context@, blockstore),
    {
        let version = context.network_version.0;
        if version < MIN_SUPPORTED_VERSION || version > MAX_SUPPORTED_VERSION {
            return Err(Rejected { error: MachineError::UnsupportedVersion, blockstore });
        }
        match blockstore.has(&context.initial_state_root) {
            Err(_) => {
                return Err(Rejected { error: MachineError::Store, blockstore });
            },
            Ok(false) => {
                return Err(Rejected { error: MachineError::MissingRoot, blockstore });
            },
            Ok(true) => {},
        }
        let mut blockstore = blockstore;
        match put_empty_blocks(&mut blockstore) {
            Err(error) => {
                return Err(Rejected { error, blockstore });
            },
            Ok(()) => {},
        }
        let buffered = BufferedStore::new(blockstore);
        assert(buffered.blocks() =~= buffered.durable());
        let state_tree = match StateTree::new_from_root(buffered, &context.initial_state_root) {
            Err((Fault::Store, buffered)) => {
                return Err(Rejected { error: MachineError::Store,
                    blockstore: buffered.into_inner() });
            },
            Err((_, buffered)) => {
                return Err(
                    Rejected { error: MachineError::InvalidRoot,
                        blockstore: buffered.into_inner() },
                );
            },
            Ok(tree) => tree,
        };
        proof {
            state_tree.lemma_actor(SYSTEM_ACTOR_ID);
        }
        let builtin_actors = match resolve_manifest(&context.builtin_actors_override, &state_tree) {
            Err(error) => {
                return Err(Rejected { error, blockstore: state_tree.into_store().into_inner() });
            },
            Ok(m) => m,
        };
        let id = machine_label(context.epoch, nonce);
        Ok(
            DefaultMachine {
                context: context.clone(),
                externs,
                state_tree,
                builtin_actors,
                id,
                poisoned: false,
            },
        )
    }
}

/// What a transfer between two different actors does to the records.
pub open spec fn moved<B: Blockstore>(
    before: StateTree<B>,
    after: StateTree<B>,
    from: ActorID,
    to: ActorID,
    value: int,
) -> bool {
    &&& before.actor(from) is Some
    &&& before.actor(to) is Some
    &&& after.actor(from) is Some
    &&& after.actor(to) is Some
    &&& balance_moved(before.actor(from)->0, after.actor(from)->0, -value)
    &&& balance_moved(before.actor(to)->0, after.actor(to)->0, value)
    &&& forall|id: ActorID|
        #![trigger after.actor(id)]
        id != from && id != to ==> after.actor(id) == before.actor(id)
    &&& after.readable(from)
    &&& after.readable(to)
    &&& !after.dangling(from)
    &&& !after.dangling(to)
    &&& forall|id: ActorID|
        #![trigger after.dangling(id)]
        after.dangling(id) ==> before.dangling(id)
    &&& forall|id: ActorID|
        #![trigger after.readable(id)]
        before.readable(id) ==> after.readable(id)
    &&& after.store_view() == before.store_view()
    &&& after.root_id() == before.root_id()
    &&& after.index_entries() == before.index_entries()
}

/// A transfer between two actors leaves the sum of all balances as it is.
pub proof fn lemma_transfer_conserves<B: Blockstore>(
    before: StateTree<B>,
    after: StateTree<B>,
    from: ActorID,
    to: ActorID,
    value: int,
)
    requires
        from != to,
        moved(before, after, from, to, value),
    ensures
        total(after.actors()) == total(before.actors()),
{
    before.lemma_actors_finite();
    lemma_total_moved(before.actors(), after.actors(), from, to, value);
}

/// A transfer between two actors whose balances are not negative leaves
/// no balance negative.
pub proof fn lemma_transfer_keeps_balances_positive<B: Blockstore>(
    before: StateTree<B>,
    after: StateTree<B>,
    from: ActorID,
    to: ActorID,
    value: int,
)
    requires
        from != to,
        moved(before, after, from, to, value),
        transfer_outcome(before.actor(from), before.actor(to), false, value) is Ok,
        forall|id: ActorID|
            before.actors().contains_key(id) ==> (#[trigger] before.actors()[id]).balance() >= 0,
    ensures
        forall|id: ActorID|
            after.actors().contains_key(id) ==> (#[trigger] after.actors()[id]).balance() >= 0,
{
    assert forall|id: ActorID| after.actors().contains_key(id) implies (
    #[trigger] after.actors()[id]).balance() >= 0 by {
        assert(before.actors().contains_key(from));
        assert(before.actors().contains_key(to));
        if id != from && id != to {
            assert(after.actor(id) == before.actor(id));
            assert(before.actors().contains_key(id));
            assert(before.actors()[id].balance() >= 0);
        } else {
            assert(before.actors()[to].balance() >= 0);
        }
    }
}

/// Whether a transfer has to look at the receiver: the value is not
/// negative, the sender has a record and can pay, and the receiver is
/// another actor.
pub open spec fn needs_receiver(sender: Option<ActorModel>, to_self: bool, value: int) -> bool {
    value >= 0 && sender is Some && sender->0.balance() >= value && !to_self
}

/// How the result of a transfer and the machine after it follow from the
/// machine before it, where that machine was not poisoned.
pub open spec fn transfer_done<B: Blockstore, E>(
    before: DefaultMachine<B, E>,
    after: DefaultMachine<B, E>,
    from: ActorID,
    to: ActorID,
    value: int,
    r: Result<(), ExecutionError>,
) -> bool {
    let outcome = transfer_outcome(before.actor(from), before.actor(to), from == to, value);
    match r {
        Ok(()) => outcome is Ok && !after.is_poisoned() && if from == to {
            after == before
        } else {
            moved(before.tree(), after.tree(), from, to, value)
        },
        Err(ExecutionError::Syscall(n)) => outcome == Err::<(), ErrorNumber>(n) && after == before,
        Err(ExecutionError::Fatal(Fault::Corrupt)) => value >= 0 && after.is_poisoned()
            && after.tree() == before.tree() && (before.tree().corrupt(from) || (needs_receiver(
            before.actor(from),
            from == to,
            value,
        ) && before.tree().corrupt(to))),
        Err(ExecutionError::Fatal(Fault::Store)) => value >= 0 && after.is_poisoned()
            && after.tree() == before.tree() && (!before.tree().readable(from) || (needs_receiver(
            before.actor(from),
            from == to,
            value,
        ) && !before.tree().readable(to))),
        Err(ExecutionError::Fatal(_)) => false,
    }
}

/// The result that a decided transfer returns.
pub open spec fn lifted(outcome: Result<(), ErrorNumber>) -> Result<(), ExecutionError> {
    match outcome {
        Ok(()) => Ok(()),
        Err(n) => Err(ExecutionError::Syscall(n)),
    }
}

impl<B: Blockstore, E> DefaultMachine<B, E> {
    /// The context that the machine was made for.
    pub fn context(&self) -> (c: &MachineContext)
        ensures
            c@ == self.context_view(),
    {
        &self.context
    }

    /// The externs that the machine was made with.
    pub fn externs(&self) -> (e: &E)
        ensures
            *e == self.externs_view(),
    {
        &self.externs
    }

    /// The manifest of built-in actors.
    pub fn builtin_actors(&self) -> (m: &Manifest)
        ensures
            *m == self.manifest_view(),
    {
        &self.builtin_actors
    }

    /// The state tree.
    pub fn state_tree(&self) -> (t: &StateTree<B>)
        ensures
            *t == self.tree(),
    {
        &self.state_tree
    }

    /// The state tree, to change it. The machine stays in order as long as
    /// the tree does.
    pub fn state_tree_mut(&mut self) -> (t: &mut StateTree<B>)
        ensures
            *t == old(self).tree(),
            final(self).tree() == *final(t),
            final(self).same_setup(old(self)),
            final(self).is_poisoned() == old(self).is_poisoned(),
    {
        &mut self.state_tree
    }

    /// The buffered block store of the machine.
    pub fn blockstore(&self) -> (s: &BufferedStore<B>)
        ensures
            *s == self.tree().store_view(),
    {
        self.state_tree.store()
    }

    /// The text that names the machine in logs.
    pub fn machine_id(&self) -> (id: &str)
        ensures
            id@ == self.label(),
    {
        self.id.as_str()
    }

    /// Whether the machine has met a fatal fault.
    pub fn poisoned(&self) -> (b: bool)
        ensures
            b == self.is_poisoned(),
    {
        self.poisoned
    }

    /// Gives up the machine and returns its buffered block store. What was
    /// staged and not flushed stays in the buffer.
    pub fn into_store(self) -> (s: BufferedStore<B>)
        ensures
            s == self.tree().store_view(),
    {
        self.state_tree.into_store()
    }

    /// Moves `value` from the balance of `from` to the balance of `to`.
    ///
    /// A negative value is an illegal argument. A sender that does not
    /// exist, or holds less than `value`, has insufficient funds. A transfer
    /// to the sender itself then succeeds and changes nothing. A receiver
    /// that does not exist is not found. Otherwise both records are staged
    /// in the state tree; nothing is flushed. A record that cannot be read
    /// is a fatal fault, which poisons the machine.
    #[verifier::rlimit(40)]
    pub fn transfer(&mut self, from: ActorID, to: ActorID, value: &TokenAmount) -> (r: Result<
        (),
        ExecutionError,
    >)
        requires
            old(self).wf(),
        ensures
            final(self).wf(),
            final(self).same_setup(old(self)),
            final(self).tree().store_view() == old(self).tree().store_view(),
            total(final(self).tree().actors()) == total(old(self).tree().actors()),
            old(self).is_poisoned() ==> r == Err::<(), ExecutionError>(
                ExecutionError::Fatal(Fault::Poisoned),
            ) && *final(self) == *old(self),
            !old(self).is_poisoned()
                ==> transfer_done(*old(self), *final(self), from, to, value@, r),
            !old(self).is_poisoned() && (value@ < 0 || (old(self).tree().readable(from) && (
            needs_receiver(old(self).actor(from), from == to, value@) ==> old(self).tree().readable(
                to,
            )))) ==> r == lifted(
                transfer_outcome(old(self).actor(from), old(self).actor(to), from == to, value@),
            ),
    {
        if self.poisoned {
            return Err(ExecutionError::Fatal(Fault::Poisoned));
        }
        if value.is_negative() {
            return Err(ExecutionError::Syscall(ErrorNumber::IllegalArgument));
        }
        let mut from_actor = match self.state_tree.get_actor(from) {
            Err(e) => {
                self.poisoned = true;
                return Err(e);
            },
            Ok(None) => {
                return Err(ExecutionError::Syscall(ErrorNumber::InsufficientFunds));
            },
            Ok(Some(actor)) => actor,
        };
        proof {
            from_actor.balance.lemma_view();
        }
        if from_actor.balance.less_than(value) {
            return Err(ExecutionError::Syscall(ErrorNumber::InsufficientFunds));
        }
        if from == to {
            return Ok(());
        }
        let mut to_actor = match self.state_tree.get_actor(to) {
            Err(e) => {
                self.poisoned = true;
                return Err(e);
            },
            Ok(None) => {
                return Err(ExecutionError::Syscall(ErrorNumber::NotFound));
            },
            Ok(Some(actor)) => actor,
        };
        let ghost sender = from_actor@;
        let ghost receiver = to_actor@;
        proof {
            to_actor.balance.lemma_view();
        }
        match from_actor.deduct_funds(value) {
            Err(e) => {
                self.poisoned = true;
                return Err(e);
            },
            Ok(()) => {},
        }
        to_actor.deposit_funds(value);
        proof {
            from_actor.balance.lemma_view();
            to_actor.balance.lemma_view();
            assert(balance_moved(sender, from_actor@, -value@));
            assert(balance_moved(receiver, to_actor@, value@));
        }
        self.state_tree.set_actor(from, from_actor);
        self.state_tree.set_actor(to, to_actor);
        proof {
            lemma_transfer_conserves(old(self).tree(), self.tree(), from, to, value@);
        }
        Ok(())
    }
}

/// The blocks that the machine shows once it has taken over what `root`
/// reaches in `source`: a block that the machine shows already stays.
pub open spec fn absorbed_blocks<B: Blockstore, E>(
    m: DefaultMachine<B, E>,
    source: Map<CidModel, Seq<u8>>,
    root: CidModel,
) -> Map<CidModel, Seq<u8>> {
    closure(source, root).union_prefer_right(m.tree().blocks())
}

/// The blocks that wait in the buffer once the machine has taken over what
/// `root` reaches in `source`.
pub open spec fn absorbed_staged<B: Blockstore, E>(
    m: DefaultMachine<B, E>,
    source: Map<CidModel, Seq<u8>>,
    root: CidModel,
) -> Map<CidModel, Seq<u8>> {
    newly_staged(m.staged(), m.tree().blocks(), absorbed_blocks(m, source, root))
}

/// The next flush of the machine can resolve all that the new root
/// reaches among the blocks that will wait in the buffer.
pub open spec fn flushable<B: Blockstore, E>(m: DefaultMachine<B, E>) -> bool {
    resolvable(m.tree().next_staged(), m.durable(), m.tree().next_root())
}

/// The machine can take over what `root` reaches in `source`, and make it
/// durable: all of it can be resolved, in `source` and then in the buffer.
pub open spec fn committable<B: Blockstore, E>(
    m: DefaultMachine<B, E>,
    source: Map<CidModel, Seq<u8>>,
    root: CidModel,
) -> bool {
    resolvable(source, m.tree().blocks(), root) && resolvable(
        absorbed_staged(m, source, root),
        m.durable(),
        root,
    )
}

/// What a successful flush leaves behind: the tree has nothing staged, its
/// root, index and blocks are those that the machine before the flush
/// decides, and all that the root reaches among the buffered blocks has
/// become durable.
pub open spec fn flushed_to<B: Blockstore, E>(
    before: DefaultMachine<B, E>,
    after: DefaultMachine<B, E>,
    root: CidModel,
) -> bool {
    &&& !after.is_poisoned()
    &&& flushable(before)
    &&& root == before.tree().next_root()
    &&& root == after.tree().root_id()
    &&& after.tree().clean()
    &&& after.tree().index_entries() == before.tree().next_entries()
    &&& after.tree().blocks() == before.tree().next_blocks()
    &&& after.staged() == before.tree().next_staged()
    &&& after.tree().blocks().contains_key(root)
    &&& after.durable() == before.durable().union_prefer_right(closure(after.staged(), root))
    &&& if before.tree().clean() {
        root == before.tree().root_id() && after.staged() == before.staged()
    } else {
        root == index_id(after.tree().index_entries()) && after.tree().links() == staged_links(
            before.tree().links(),
            before.tree().staged(),
        )
    }
}

/// What a fatal fault during a flush leaves behind: a poisoned machine,
/// and a backing store that holds what it held and, where the store failed
/// half way, some of the blocks that were to be written. A block that
/// cannot be read, or a link that leads nowhere, is one that the root
/// decided by the machine before the flush reaches.
pub open spec fn flush_failed<B: Blockstore, E>(
    before: DefaultMachine<B, E>,
    after: DefaultMachine<B, E>,
    fault: Fault,
) -> bool {
    let staged = before.tree().next_staged();
    let root = before.tree().next_root();
    &&& after.is_poisoned()
    &&& partly_flushed(before.durable(), after.durable(), closure(staged, root))
    &&& match fault {
        Fault::Store => !before.reliable(),
        Fault::Malformed => after.durable() == before.durable() && tree_flushed(before, after)
            && exists|id: CidModel| reachable(staged, root, id) && malformed(staged, id),
        Fault::Unresolved => after.durable() == before.durable() && tree_flushed(before, after)
            && exists|id: CidModel|
            reachable(staged, root, id) && !staged.contains_key(id)
                && !before.durable().contains_key(
                id,
            ),
        _ => false,
    }
}

/// The tree of `after` is the tree of `before`, flushed: nothing is staged
/// in it, and its root, index and blocks are those that `before` decides.
pub open spec fn tree_flushed<B: Blockstore, E>(
    before: DefaultMachine<B, E>,
    after: DefaultMachine<B, E>,
) -> bool {
    &&& after.tree().clean()
    &&& after.tree().root_id() == before.tree().next_root()
    &&& after.tree().index_entries() == before.tree().next_entries()
    &&& after.tree().blocks() == before.tree().next_blocks()
    &&& after.staged() == before.tree().next_staged()
}

/// What a successful commitment of the trie under `root`, built in a store
/// with the blocks `source`, leaves behind: the machine shows the blocks of
/// the trie beside its own, and all that the root reaches among the
/// buffered blocks has become durable.
pub open spec fn committed<B: Blockstore, E>(
    before: DefaultMachine<B, E>,
    after: DefaultMachine<B, E>,
    source: Map<CidModel, Seq<u8>>,
    root: CidModel,
) -> bool {
    &&& !after.is_poisoned()
    &&& committable(before, source, root)
    &&& after.tree().blocks() == absorbed_blocks(before, source, root)
    &&& after.staged() == absorbed_staged(before, source, root)
    &&& after.durable() == before.durable().union_prefer_right(closure(after.staged(), root))
}

/// What a fatal fault while committing the trie under `root`, built in a
/// store with the blocks `source`, leaves behind. A block that cannot be
/// read, or a link that leads nowhere, is met in `source` or, once that is
/// taken over, among the buffered blocks.
pub open spec fn commit_failed<B: Blockstore, E>(
    before: DefaultMachine<B, E>,
    after: DefaultMachine<B, E>,
    source: Map<CidModel, Seq<u8>>,
    root: CidModel,
    fault: Fault,
) -> bool {
    let staged = absorbed_staged(before, source, root);
    &&& after.is_poisoned()
    &&& partly_flushed(before.durable(), after.durable(), closure(staged, root))
    &&& match fault {
        Fault::Store => !before.reliable(),
        Fault::Malformed => after.durable() == before.durable() && ((after.tree() == before.tree()
            && exists|id: CidModel| reachable(source, root, id) && malformed(source, id)) || (
        taken_over(before, after, source, root) && exists|id: CidModel|
            reachable(staged, root, id) && malformed(staged, id))),
        Fault::Unresolved => after.durable() == before.durable() && ((after.tree() == before.tree()
            && exists|id: CidModel|
            reachable(source, root, id) && !source.contains_key(id)
                && !before.tree().blocks().contains_key(id)) || (taken_over(
            before,
            after,
            source,
            root,
        ) && exists|id: CidModel|
            reachable(staged, root, id) && !staged.contains_key(id)
                && !before.durable().contains_key(
                id,
            ))),
        _ => false,
    }
}

/// The machine `after` is `before` with what `root` reaches in `source`
/// taken over into the buffer.
pub open spec fn taken_over<B: Blockstore, E>(
    before: DefaultMachine<B, E>,
    after: DefaultMachine<B, E>,
    source: Map<CidModel, Seq<u8>>,
    root: CidModel,
) -> bool {
    &&& resolvable(source, before.tree().blocks(), root)
    &&& after.tree().blocks() == absorbed_blocks(before, source, root)
    &&& after.staged() == absorbed_staged(before, source, root)
}

/// A walk that failed on a block or a link did not go over blocks that can
/// all be resolved.
pub proof fn lemma_not_resolvable(
    src: Map<CidModel, Seq<u8>>,
    outside: Map<CidModel, Seq<u8>>,
    root: CidModel,
    id: CidModel,
)
    requires
        reachable(src, root, id),
        malformed(src, id) || (!src.contains_key(id) && !outside.contains_key(id)),
    ensures
        !resolvable(src, outside, root),
{
    reveal(resolvable);
}

/// What can be resolved can still be resolved after the store outside has
/// taken more blocks.
pub proof fn lemma_resolvable_grows(
    src: Map<CidModel, Seq<u8>>,
    outside: Map<CidModel, Seq<u8>>,
    more: Map<CidModel, Seq<u8>>,
    root: CidModel,
)
    requires
        resolvable(src, outside, root),
        forall|id: CidModel| outside.contains_key(id) ==> #[trigger] more.contains_key(id),
    ensures
        resolvable(src, more, root),
{
    reveal(resolvable);
}

/// A root that is held outside and not among the blocks to walk reaches
/// only itself, and can be resolved.
pub proof fn lemma_resolvable_outside(
    src: Map<CidModel, Seq<u8>>,
    outside: Map<CidModel, Seq<u8>>,
    root: CidModel,
)
    requires
        !src.contains_key(root),
        outside.contains_key(root),
    ensures
        resolvable(src, outside, root),
{
    reveal(resolvable);
    assert forall|id: CidModel| #[trigger] reachable(src, root, id) implies id == root by {
        let path = choose|path: Seq<CidModel>| #[trigger]
            is_path(src, path) && path[0] == root && path.last() == id;
        if path.len() > 1 {
            assert(edge(src, path[0int], path[0int + 1]));
        }
    }
}

/// What can be resolved can still be resolved after more blocks were
/// staged, none of them under an identifier that was held before, and
/// after the store outside has taken more blocks: the walk meets the same
/// blocks.
pub proof fn lemma_resolvable_extended(
    src: Map<CidModel, Seq<u8>>,
    more_src: Map<CidModel, Seq<u8>>,
    outside: Map<CidModel, Seq<u8>>,
    more_outside: Map<CidModel, Seq<u8>>,
    root: CidModel,
)
    requires
        resolvable(src, outside, root),
        forall|id: CidModel|
            src.contains_key(id) ==> #[trigger] more_src.contains_key(id) && more_src[id]
                == src[id],
        forall|id: CidModel|
            #[trigger] more_src.contains_key(id) && !src.contains_key(id) ==> !outside.contains_key(
                id,
            ),
        forall|id: CidModel| outside.contains_key(id) ==> #[trigger] more_outside.contains_key(id),
    ensures
        resolvable(more_src, more_outside, root),
{
    reveal(resolvable);
    assert forall|id: CidModel| #[trigger] reachable(more_src, root, id) implies reachable(
        src,
        root,
        id,
    ) by {
        let path = choose|path: Seq<CidModel>| #[trigger]
            is_path(more_src, path) && path[0] == root && path.last() == id;
        lemma_same_walk(src, more_src, outside, root, path, path.len() - 1);
    }
}

/// Each block on a path through more staged blocks is reached through the
/// blocks that were staged before.
proof fn lemma_same_walk(
    src: Map<CidModel, Seq<u8>>,
    more_src: Map<CidModel, Seq<u8>>,
    outside: Map<CidModel, Seq<u8>>,
    root: CidModel,
    path: Seq<CidModel>,
    k: int,
)
    requires
        resolvable(src, outside, root),
        forall|id: CidModel|
            src.contains_key(id) ==> #[trigger] more_src.contains_key(id) && more_src[id]
                == src[id],
        forall|id: CidModel|
            #[trigger] more_src.contains_key(id) && !src.contains_key(id) ==> !outside.contains_key(
                id,
            ),
        is_path(more_src, path),
        path[0] == root,
        0 <= k < path.len(),
    ensures
        reachable(src, root, path[k]),
    decreases k,
{
    reveal(resolvable);
    if k == 0 {
        lemma_reachable_self(src, root);
    } else {
        lemma_same_walk(src, more_src, outside, root, path, k - 1);
        assert(edge(more_src, path[k - 1], path[k - 1 + 1]));
        assert(more_src.contains_key(path[k - 1]));
        assert(src.contains_key(path[k - 1]));
        assert(edge(src, path[k - 1], path[k]));
        lemma_reachable_step(src, root, path[k - 1], path[k]);
    }
}

/// After a flush that succeeded and a commitment that succeeded, a flush
/// of the machine succeeds again over a store that does not fail, and
/// returns the same root.
pub proof fn lemma_flush_after_commit<B: Blockstore, E>(
    before: DefaultMachine<B, E>,
    flushed: DefaultMachine<B, E>,
    after: DefaultMachine<B, E>,
    root: CidModel,
    source: Map<CidModel, Seq<u8>>,
    trie: CidModel,
)
    requires
        flushed_to(before, flushed, root),
        after.records_kept(&flushed),
        committed(flushed, after, source, trie),
    ensures
        after.tree().clean(),
        after.tree().next_root() == root,
        flushable(after),
{
    lemma_flush_again(before, flushed, root);
    assert(flushed.tree().next_staged() =~= flushed.staged());
    assert(after.tree().next_staged() =~= after.staged());
    lemma_resolvable_extended(
        flushed.staged(),
        after.staged(),
        flushed.durable(),
        after.durable(),
        root,
    );
}

/// After a flush that succeeded, a flush of the same machine succeeds
/// again over a store that does not fail, and returns the same root.
pub proof fn lemma_flush_again<B: Blockstore, E>(
    before: DefaultMachine<B, E>,
    after: DefaultMachine<B, E>,
    root: CidModel,
)
    requires
        flushed_to(before, after, root),
    ensures
        after.tree().clean(),
        after.tree().next_root() == root,
        flushable(after),
{
    let staged = after.staged();
    assert(after.tree().next_staged() =~= staged);
    reveal(partly_flushed);
    lemma_resolvable_grows(staged, before.durable(), after.durable(), root);
}

/// A machine that was just made can be flushed over a store that does not
/// fail, and the flush returns the initial root.
pub proof fn lemma_fresh_flush<B: Blockstore, E>(
    m: DefaultMachine<B, E>,
    context: ContextModel,
    blockstore: B,
    externs: E,
)
    requires
        made_for(m, context, blockstore, externs),
    ensures
        m.tree().clean(),
        m.tree().next_root() == context.initial_state_root,
        flushable(m),
{
    assert(m.tree().next_staged() =~= m.staged());
    lemma_resolvable_outside(m.staged(), m.durable(), context.initial_state_root);
}

impl<B: Blockstore, E> DefaultMachine<B, E> {
    /// What flushing keeps: the setup, the written records, and the record
    /// of every actor whose link does not dangle.
    pub open spec fn records_shown(&self, before: &Self) -> bool {
        &&& self.wf()
        &&& self.same_setup(before)
        &&& self.tree().written() == before.tree().written()
        &&& self.reliable() == before.reliable()
        &&& forall|id: ActorID|
            #![trigger self.actor(id)]
            !before.tree().dangling(id) ==> self.actor(id) == before.actor(id)
        &&& forall|id: ActorID|
            #![trigger self.tree().readable(id)]
            before.tree().readable(id) ==> self.tree().readable(id)
        &&& forall|id: ActorID|
            #![trigger self.tree().dangling(id)]
            self.tree().dangling(id) ==> before.tree().dangling(id)
    }

    /// What committing never touches: all that flushing keeps, and the
    /// tree's root, index and count of persisted records, so that the next
    /// flush of the tree is what it would have been.
    pub open spec fn records_kept(&self, before: &Self) -> bool {
        &&& self.records_shown(before)
        &&& self.tree().persisted_count() == before.tree().persisted_count()
        &&& self.tree().root_id() == before.tree().root_id()
        &&& self.tree().index_entries() == before.tree().index_entries()
    }

    /// Flushes the state tree and makes durable every buffered block that
    /// the new root reaches. Returns the new root. Over a store that does
    /// not fail the flush succeeds exactly where all that the new root
    /// reaches can be resolved. A failure is a fatal fault, which poisons
    /// the machine.
    #[verifier::rlimit(40)]
    pub fn flush(&mut self) -> (r: Result<ContentId, ExecutionError>)
        requires
            old(self).wf(),
        ensures
            final(self).records_shown(old(self)),
            old(self).is_poisoned() ==> r == Err::<ContentId, ExecutionError>(
                ExecutionError::Fatal(Fault::Poisoned),
            ) && *final(self) == *old(self),
            !old(self).is_poisoned() ==> match r {
                Ok(root) => flushed_to(*old(self), *final(self), root@),
                Err(ExecutionError::Fatal(fault)) => flush_failed(*old(self), *final(self), fault),
                Err(ExecutionError::Syscall(_)) => false,
            },
            !old(self).is_poisoned() && old(self).reliable() && flushable(*old(self)) ==> r is Ok,
    {
        if self.poisoned {
            return Err(ExecutionError::Fatal(Fault::Poisoned));
        }
        let ghost staged = self.tree().next_staged();
        let ghost next = self.tree().next_root();
        let root = match self.state_tree.flush() {
            Err(e) => {
                self.poisoned = true;
                proof {
                    lemma_nothing_flushed(self.durable(), closure(staged, next));
                }
                return Err(e);
            },
            Ok(root) => root,
        };
        match self.state_tree.flush_store(&root) {
            Ok(()) => {
                assert(flushed_to(*old(self), *self, root@));
                Ok(root)
            },
            Err(e) => {
                self.poisoned = true;
                let fault = closure_fault(e);
                proof {
                    if fault == Fault::Malformed {
                        let w = choose|id: CidModel|
                            reachable(staged, next, id) && malformed(staged, id);
                        lemma_not_resolvable(staged, old(self).durable(), next, w);
                    }
                    if fault == Fault::Unresolved {
                        let w = choose|id: CidModel|
                            reachable(staged, next, id) && !staged.contains_key(id)
                                && !old(self).durable().contains_key(id);
                        lemma_not_resolvable(staged, old(self).durable(), next, w);
                    }
                }
                assert(flush_failed(*old(self), *self, fault));
                Err(ExecutionError::Fatal(fault))
            },
        }
    }

    /// Takes over the trie that was built in `staging` under `root` and
    /// makes it durable at once: every block that `root` reaches is copied
    /// into the buffer, unless the store shows one under the same
    /// identifier, and is then flushed to the backing store. Over a store
    /// that does not fail this succeeds exactly where all that `root`
    /// reaches can be resolved. A failure is a fatal fault, which poisons
    /// the machine.
    #[verifier::rlimit(40)]
    pub fn commit_trie(&mut self, staging: &IpldMemoryStore, root: &ContentId) -> (r: Result<
        (),
        ExecutionError,
    >)
        requires
            old(self).wf(),
        ensures
            final(self).records_kept(old(self)),
            old(self).is_poisoned() ==> r == Err::<(), ExecutionError>(
                ExecutionError::Fatal(Fault::Poisoned),
            ) && *final(self) == *old(self),
            !old(self).is_poisoned() ==> match r {
                Ok(()) => committed(*old(self), *final(self), staging.blocks(), root@),
                Err(ExecutionError::Fatal(fault)) => commit_failed(
                    *old(self),
                    *final(self),
                    staging.blocks(),
                    root@,
                    fault,
                ),
                Err(ExecutionError::Syscall(_)) => false,
            },
            !old(self).is_poisoned() && old(self).reliable() && committable(
                *old(self),
                staging.blocks(),
                root@,
            ) ==> r is Ok,
    {
        if self.poisoned {
            return Err(ExecutionError::Fatal(Fault::Poisoned));
        }
        let ghost source = staging.blocks();
        let ghost staged = absorbed_staged(*self, source, root@);
        match self.state_tree.absorb(staging, root) {
            Ok(()) => {},
            Err(e) => {
                self.poisoned = true;
                let fault = closure_fault(e);
                proof {
                    lemma_nothing_flushed(self.durable(), closure(staged, root@));
                    if fault == Fault::Malformed {
                        let w = choose|id: CidModel|
                            reachable(source, root@, id) && malformed(source, id);
                        lemma_not_resolvable(source, old(self).tree().blocks(), root@, w);
                    }
                    if fault == Fault::Unresolved {
                        let w = choose|id: CidModel|
                            reachable(source, root@, id) && !source.contains_key(id)
                                && !old(self).tree().blocks().contains_key(id);
                        lemma_not_resolvable(source, old(self).tree().blocks(), root@, w);
                    }
                }
                assert(commit_failed(*old(self), *self, source, root@, fault));
                return Err(ExecutionError::Fatal(fault));
            },
        }
        assert(self.staged() == staged);
        match self.state_tree.flush_store(root) {
            Ok(()) => {
                assert(committed(*old(self), *self, source, root@));
                Ok(())
            },
            Err(e) => {
                self.poisoned = true;
                let fault = closure_fault(e);
                proof {
                    assert(self.staged() == staged);
                    if fault == Fault::Malformed {
                        let w = choose|id: CidModel|
                            reachable(staged, root@, id) && malformed(staged, id);
                        lemma_not_resolvable(staged, old(self).durable(), root@, w);
                    }
                    if fault == Fault::Unresolved {
                        let w = choose|id: CidModel|
                            reachable(staged, root@, id) && !staged.contains_key(id)
                                && !old(self).durable().contains_key(id);
                        lemma_not_resolvable(staged, old(self).durable(), root@, w);
                    }
                }
                assert(commit_failed(*old(self), *self, source, root@, fault));
                Err(ExecutionError::Fatal(fault))
            },
        }
    }

    /// Commits the events of one message: none gives no identifier;
    /// otherwise the events go, in order, into a new trie, which is made
    /// durable at once, and the identifier of its root is returned. Over a
    /// store that does not fail this succeeds exactly where the trie can
    /// be built and all that its root reaches can be resolved. A failure is
    /// a fatal fault, which poisons the machine.
    #[verifier::rlimit(40)]
    pub fn commit_events(&mut self, events: &[fvm_shared::event::StampedEvent]) -> (r: Result<
        Option<ContentId>,
        ExecutionError,
    >)
        requires
            old(self).wf(),
        ensures
            final(self).records_kept(old(self)),
            old(self).is_poisoned() ==> r == Err::<Option<ContentId>, ExecutionError>(
                ExecutionError::Fatal(Fault::Poisoned),
            ) && *final(self) == *old(self),
            !old(self).is_poisoned() && events@.len() == 0 ==> r == Ok::<
                Option<ContentId>,
                ExecutionError,
            >(None) && *final(self) == *old(self),
            !old(self).is_poisoned() && events@.len() > 0 ==> match r {
                Ok(Some(root)) => events_trie_built(events@, EVENTS_AMT_BITWIDTH) && root@
                    == events_root(events@, EVENTS_AMT_BITWIDTH) && committed(
                    *old(self),
                    *final(self),
                    events_blocks(events@, EVENTS_AMT_BITWIDTH),
                    root@,
                ),
                Ok(None) => false,
                Err(ExecutionError::Fatal(Fault::Events)) => !events_trie_built(
                    events@,
                    EVENTS_AMT_BITWIDTH,
                ) && final(self).is_poisoned() && final(self).tree() == old(self).tree(),
                Err(ExecutionError::Fatal(fault)) => events_trie_built(events@, EVENTS_AMT_BITWIDTH)
                    && commit_failed(
                    *old(self),
                    *final(self),
                    events_blocks(events@, EVENTS_AMT_BITWIDTH),
                    events_root(events@, EVENTS_AMT_BITWIDTH),
                    fault,
                ),
                Err(ExecutionError::Syscall(_)) => false,
            },
            !old(self).is_poisoned() && events@.len() > 0 && old(self).reliable()
                && events_trie_built(events@, EVENTS_AMT_BITWIDTH) && committable(
                *old(self),
                events_blocks(events@, EVENTS_AMT_BITWIDTH),
                events_root(events@, EVENTS_AMT_BITWIDTH),
            ) ==> r is Ok,
    {
        if self.poisoned {
            return Err(ExecutionError::Fatal(Fault::Poisoned));
        }
        if events.len() == 0 {
            return Ok(None);
        }
        let mut staging = IpldMemoryStore::new();
        let root = match staging.build_events_trie(events) {
            Err(fault) => {
                self.poisoned = true;
                return Err(ExecutionError::Fatal(fault));
            },
            Ok(root) => root,
        };
        assert(staging.blocks() =~= events_blocks(events@, EVENTS_AMT_BITWIDTH));
        match self.commit_trie(&staging, &root) {
            Ok(()) => Ok(Some(root)),
            Err(e) => Err(e),
        }
    }
}

/// The identifier that an address resolves to: the one that the table
/// knows, or the next one of the table.
pub open spec fn resolved_id(state: InitModel, addr: Seq<u8>) -> ActorID {
    match resolve(state.table, addr) {
        Some(known) => known,
        None => state.next_id,
    }
}

impl<B: Blockstore, E> DefaultMachine<B, E> {
    /// Creates an actor: resolves the address to an identifier, as
    /// [`StateTree::register_new_address`] does, and stages the record
    /// under it. A known address keeps its identifier and the table of
    /// addresses stays; a new address gets the next identifier, and the
    /// table is extended by it. A failure is a fatal fault, which poisons
    /// the machine; no record is staged then.
    #[verifier::rlimit(40)]
    pub fn create_actor(&mut self, addr: &Address, actor: ActorState) -> (r: Result<
        ActorID,
        ExecutionError,
    >)
        requires
            old(self).wf(),
        ensures
            final(self).wf(),
            final(self).same_setup(old(self)),
            final(self).durable() == old(self).durable(),
            final(self).reliable() == old(self).reliable(),
            final(self).tree().root_id() == old(self).tree().root_id(),
            final(self).tree().index_entries() == old(self).tree().index_entries(),
            final(self).tree().persisted_count() == old(self).tree().persisted_count(),
            old(self).is_poisoned() ==> r == Err::<ActorID, ExecutionError>(
                ExecutionError::Fatal(Fault::Poisoned),
            ) && *final(self) == *old(self),
            !old(self).is_poisoned() ==> match r {
                Ok(id) => !final(self).is_poisoned() && created(
                    old(self).tree(),
                    final(self).tree(),
                    addr@,
                    id,
                    actor@,
                ),
                Err(ExecutionError::Fatal(Fault::Corrupt)) => final(self).is_poisoned()
                    && final(self).tree() == old(self).tree() && (old(self).tree().init_state()
                    is None || old(self).tree().table_shadowed(addr@)),
                Err(ExecutionError::Fatal(Fault::Exhausted)) => final(self).is_poisoned()
                    && final(self).tree() == old(self).tree() && old(self).tree().init_state()
                    is Some && resolve(old(self).tree().init_state()->0.table, addr@) is None
                    && old(self).tree().init_state()->0.next_id == u64::MAX,
                Err(ExecutionError::Fatal(Fault::Store)) => final(self).is_poisoned()
                    && !old(self).reliable() && final(self).tree().written()
                    == old(self).tree().written()
                    && final(self).tree().blocks() == old(self).tree().blocks()
                        && final(self).staged() == old(self).staged(),
                Err(_) => false,
            },
    {
        if self.poisoned {
            return Err(ExecutionError::Fatal(Fault::Poisoned));
        }
        let id = match self.state_tree.register_new_address(addr) {
            Err(e) => {
                self.poisoned = true;
                proof {
                    lemma_stage_step(
                        old(self).staged(),
                        old(self).tree().blocks(),
                        old(self).tree().blocks(),
                        empty_array_id(),
                        Seq::empty(),
                    );
                }
                return Err(e);
            },
            Ok(id) => id,
        };
        self.state_tree.set_actor(id, actor);
        Ok(id)
    }
}

/// What creating an actor does to the tree, where it succeeds with `id`.
pub open spec fn created<B: Blockstore>(
    before: StateTree<B>,
    after: StateTree<B>,
    addr: Seq<u8>,
    id: ActorID,
    actor: ActorModel,
) -> bool {
    let table = before.init_state()->0;
    let init = before.actor(INIT_ACTOR_ID)->0;
    &&& before.init_state() is Some
    &&& id == resolved_id(table, addr)
    &&& after.actor(id) == Some(actor)
    &&& after.readable(id)
    &&& after.blocks() == before.blocks_with_address(addr)
    &&& after.store_view().staged() == newly_staged(
        before.store_view().staged(),
        before.blocks(),
        after.blocks(),
    )
    &&& forall|other: ActorID|
        #![trigger after.actor(other)]
        other != id && other != INIT_ACTOR_ID && !before.dangling(other) ==> after.actor(other)
            == before.actor(other)
    &&& if resolve(table.table, addr) is Some {
        &&& after.written() == before.written().push((id, actor))
        &&& id != INIT_ACTOR_ID ==> after.actor(INIT_ACTOR_ID) == before.actor(INIT_ACTOR_ID)
            && after.init_state() == before.init_state()
    } else {
        &&& id == table.next_id
        &&& id < u64::MAX
        &&& before.actor(INIT_ACTOR_ID) is Some
        &&& after.written() == before.written().push(
            (INIT_ACTOR_ID, with_state(init, init_id(extended(table, addr)))),
        ).push((id, actor))
        &&& id != INIT_ACTOR_ID ==> after.actor(INIT_ACTOR_ID) == Some(
            with_state(init, init_id(extended(table, addr))),
        ) && after.init_state() == Some(extended(table, addr))
    }
}

/// The fatal fault that a failed walk or flush stands for.
pub fn closure_fault(e: ClosureError) -> (fault: Fault)
    ensures
        fault == match e {
            ClosureError::Malformed => Fault::Malformed,
            ClosureError::Unresolved => Fault::Unresolved,
            ClosureError::Store(_) => Fault::Store,
        },
{
    match e {
        ClosureError::Malformed => Fault::Malformed,
        ClosureError::Unresolved => Fault::Unresolved,
        ClosureError::Store(_) => Fault::Store,
    }
}

/// What holds of a machine that was made for `context` over `blockstore`.
pub open spec fn made_for<B: Blockstore, E>(
    m: DefaultMachine<B, E>,
    context: ContextModel,
    blockstore: B,
    externs: E,
) -> bool {
    &&& constructible(context, blockstore.blocks())
    &&& m.wf()
    &&& !m.is_poisoned()
    &&& m.context_view() == context
    &&& m.externs_view() == externs
    &&& m.reliable() == blockstore.reliable()
    &&& m.durable() == prepared(blockstore.blocks())
    &&& m.staged() == Map::<CidModel, Seq<u8>>::empty()
    &&& m.tree().root_id() == context.initial_state_root
    &&& m.tree().written().len() == 0
    &&& m.tree().clean()
    &&& Some(m.tree().index_entries()) == index_of(
        prepared(blockstore.blocks())[context.initial_state_root],
    )
    &&& Some(m.manifest_view().entries_view()) == resolved_manifest(
        context.builtin_actors_override,
        system_actor_in(prepared(blockstore.blocks()), context.initial_state_root),
        prepared(blockstore.blocks()),
    )
    &&& Some((m.manifest_view().version_view(), m.manifest_view().source_view()))
        == manifest_pointer(
        context.builtin_actors_override,
        system_actor_in(prepared(blockstore.blocks()), context.initial_state_root),
        prepared(blockstore.blocks()),
    )
}

/// What holds of a refused construction for `context` over `blockstore`:
/// the reason is the first check that failed, and the store comes back with
/// at most the empty array written to it.
pub open spec fn refused_for<B: Blockstore>(
    rej: Rejected<B>,
    context: ContextModel,
    blockstore: B,
) -> bool {
    let blocks = blockstore.blocks();
    let root = context.initial_state_root;
    &&& rej.blockstore.reliable() == blockstore.reliable()
    &&& match rej.error {
        MachineError::UnsupportedVersion => !supported(context.network_version) && rej.blockstore
            == blockstore,
        MachineError::MissingRoot => supported(context.network_version) && !blocks.contains_key(
            root,
        ) && rej.blockstore == blockstore,
        MachineError::Store => supported(context.network_version) && !blockstore.reliable() && (
        rej.blockstore.blocks() == blocks || rej.blockstore.blocks() == prepared(blocks)) && (
        !blocks.contains_key(root) ==> rej.blockstore == blockstore),
        MachineError::EmptyArrayMismatch => supported(context.network_version)
            && blocks.contains_key(root) && computed_empty_id() != empty_array_id()
            && rej.blockstore.blocks() == with_block(
            blocks,
            computed_empty_id(),
            empty_array_bytes(),
        ),
        MachineError::InvalidRoot => supported(context.network_version) && blocks.contains_key(root)
            && computed_empty_id() == empty_array_id() && index_of(prepared(blocks)[root]) is None
            && rej.blockstore.blocks() == prepared(blocks),
        MachineError::Manifest => supported(context.network_version) && blocks.contains_key(root)
            && computed_empty_id() == empty_array_id() && index_of(prepared(blocks)[root]) is Some
            && resolved_manifest(
            context.builtin_actors_override,
            system_actor_in(prepared(blocks), root),
            prepared(blocks),
        ) is None && rej.blockstore.blocks() == prepared(blocks),
    }
}

} // verus!
