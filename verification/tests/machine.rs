use fvm_machine::actor::ActorState;
use fvm_machine::blockstore::{put, BlockSource, Blockstore, MemoryStore, ReadOnly};
use fvm_machine::buffered::BufferedStore;
use fvm_machine::codec::{write_all, write_head, write_link};
use fvm_machine::content_id::{ContentId, HashKind, DAG_CBOR, IPLD_RAW};
use fvm_machine::error::{ErrorNumber, ExecutionError, Fault};
use fvm_machine::index::encode_index;
use fvm_machine::init_actor::{Address, InitState};
use fvm_machine::machine::{
    empty_arr_cid, put_empty_blocks, DefaultMachine, MachineContext, MachineError, NetworkVersion,
    MAX_SUPPORTED_VERSION, MIN_SUPPORTED_VERSION,
};
use fvm_machine::state_tree::StateTree;
use fvm_machine::token::TokenAmount;

const ALICE: u64 = 100;
const BOB: u64 = 101;
const NOBODY: u64 = 999;

fn put_block(store: &mut MemoryStore, codec: u64, data: &[u8]) -> ContentId {
    put(store, HashKind::Blake2b256, codec, data).unwrap()
}

fn manifest_block(code: &ContentId) -> Vec<u8> {
    let mut out = Vec::new();
    write_head(&mut out, 4, 1);
    write_head(&mut out, 4, 2);
    write_head(&mut out, 3, 6);
    write_all(&mut out, b"system");
    write_link(&mut out, code);
    out
}

fn system_state_block(manifest: &ContentId) -> Vec<u8> {
    let mut out = Vec::new();
    write_head(&mut out, 4, 1);
    write_link(&mut out, manifest);
    out
}

/// A store with a flushed state tree: the system actor, the init actor and
/// two accounts. Returns the store and the root of the tree.
fn world(alice: i128, bob: i128) -> (MemoryStore, ContentId) {
    let mut store = MemoryStore::new();
    put_empty_blocks(&mut store).unwrap();
    let code = put_block(&mut store, IPLD_RAW, b"code of every actor");
    let manifest = put_block(&mut store, DAG_CBOR, &manifest_block(&code));
    let system_state = put_block(&mut store, DAG_CBOR, &system_state_block(&manifest));
    let init_state = put_block(&mut store, DAG_CBOR, &InitState::new(102).encode());
    let empty_root = put_block(&mut store, DAG_CBOR, &encode_index(&Vec::new()));
    let mut tree = match StateTree::new_from_root(BufferedStore::new(store), &empty_root) {
        Ok(tree) => tree,
        Err(_) => panic!("the empty index opens"),
    };
    tree.set_actor(0, ActorState::new(code.clone(), system_state, TokenAmount::zero(), 0));
    tree.set_actor(1, ActorState::new(code.clone(), init_state, TokenAmount::zero(), 0));
    tree.set_actor(
        BOB,
        ActorState::new(code.clone(), empty_arr_cid(), TokenAmount::from_atto(bob), 0),
    );
    tree.set_actor(
        ALICE,
        ActorState::new(code.clone(), empty_arr_cid(), TokenAmount::from_atto(alice), 7),
    );
    let root = tree.flush().unwrap();
    tree.flush_store(&root).unwrap();
    (tree.into_store().into_inner(), root)
}

fn context(root: &ContentId, version: u32) -> MachineContext {
    MachineContext {
        epoch: 42,
        base_fee: TokenAmount::from_atto(100),
        network_version: NetworkVersion(version),
        initial_state_root: root.clone(),
        builtin_actors_override: None,
    }
}

fn machine(alice: i128, bob: i128) -> DefaultMachine<MemoryStore, ()> {
    let (store, root) = world(alice, bob);
    match DefaultMachine::new(&context(&root, MIN_SUPPORTED_VERSION), store, ()) {
        Ok(m) => m,
        Err(rej) => panic!("construction refused: {:?}", rej.error),
    }
}

fn balance(m: &DefaultMachine<MemoryStore, ()>, id: u64) -> TokenAmount {
    m.state_tree().get_actor(id).unwrap().unwrap().balance
}

fn assert_balance(m: &DefaultMachine<MemoryStore, ()>, id: u64, atto: i128) {
    assert!(balance(m, id).same_amount(&TokenAmount::from_atto(atto)));
}

fn snapshot(store: &MemoryStore) -> Vec<(ContentId, Vec<u8>)> {
    (0..store.len()).map(|i| store.entry(i).unwrap()).collect()
}

fn same_snapshot(a: &[(ContentId, Vec<u8>)], b: &[(ContentId, Vec<u8>)]) -> bool {
    a.len() == b.len() && a.iter().zip(b.iter()).all(|(x, y)| x.0.same(&y.0) && x.1 == y.1)
}

#[test]
fn construction_succeeds_and_reads_manifest() {
    let m = machine(1000, 5);
    assert!(!m.poisoned());
    assert_eq!(m.context().epoch, 42);
    assert_eq!(m.builtin_actors().version(), 1);
    assert_eq!(m.builtin_actors().len(), 1);
    assert!(m.builtin_actors().code_by_name(b"system").is_some());
    assert!(m.builtin_actors().code_by_name(b"account").is_none());
    assert_balance(&m, ALICE, 1000);
    assert_balance(&m, BOB, 5);
}

#[test]
fn machine_id_is_epoch_and_base32_nonce() {
    let m = machine(1, 1);
    let id = m.machine_id();
    assert!(id.starts_with("42-b"));
    // 16 bytes make 26 base-32 digits after the base's prefix letter.
    assert_eq!(id.len(), "42-".len() + 1 + 26);
    assert!(id["42-b".len()..].chars().all(|c| c.is_ascii_lowercase() || ('2'..='7').contains(&c)));
    let (store, root) = world(1, 1);
    let fixed = match DefaultMachine::with_nonce(&context(&root, 18), store, (), &[0u8; 16]) {
        Ok(m) => m,
        Err(_) => panic!("construction refused"),
    };
    assert_eq!(fixed.machine_id(), "42-baaaaaaaaaaaaaaaaaaaaaaaaaa");
}

#[test]
fn transfer_moves_funds_and_conserves_the_total() {
    let mut m = machine(1000, 5);
    assert_eq!(m.transfer(ALICE, BOB, &TokenAmount::from_atto(300)), Ok(()));
    assert_balance(&m, ALICE, 700);
    assert_balance(&m, BOB, 305);
    assert_eq!(m.transfer(BOB, ALICE, &TokenAmount::from_atto(305)), Ok(()));
    assert_balance(&m, ALICE, 1005);
    assert_balance(&m, BOB, 0);
    let alice = m.state_tree().get_actor(ALICE).unwrap().unwrap();
    assert_eq!(alice.sequence, 7);
    assert!(alice.state.same(&empty_arr_cid()));
}

#[test]
fn transfer_of_zero_and_of_the_whole_balance() {
    let mut m = machine(1000, 5);
    assert_eq!(m.transfer(ALICE, BOB, &TokenAmount::zero()), Ok(()));
    assert_balance(&m, ALICE, 1000);
    assert_eq!(m.transfer(ALICE, BOB, &TokenAmount::from_atto(1000)), Ok(()));
    assert_balance(&m, ALICE, 0);
    assert_balance(&m, BOB, 1005);
}

#[test]
fn transfer_beyond_128_bits() {
    let mut m = machine(i128::MAX, i128::MAX);
    let big = TokenAmount::from_atto(i128::MAX);
    assert_eq!(m.transfer(ALICE, BOB, &big), Ok(()));
    let twice = big.plus(&big);
    assert!(balance(&m, BOB).same_amount(&twice));
    assert_balance(&m, ALICE, 0);
    assert_eq!(m.transfer(BOB, ALICE, &twice), Ok(()));
    assert!(balance(&m, ALICE).same_amount(&twice));
}

#[test]
fn transfer_negative_value() {
    let mut m = machine(1000, 5);
    assert_eq!(
        m.transfer(ALICE, BOB, &TokenAmount::from_atto(-1)),
        Err(ExecutionError::Syscall(ErrorNumber::IllegalArgument))
    );
    assert_balance(&m, ALICE, 1000);
    assert_balance(&m, BOB, 5);
    assert!(!m.poisoned());
}

#[test]
fn transfer_missing_sender() {
    let mut m = machine(1000, 5);
    for v in [0i128, 1, 1000] {
        assert_eq!(
            m.transfer(NOBODY, BOB, &TokenAmount::from_atto(v)),
            Err(ExecutionError::Syscall(ErrorNumber::InsufficientFunds))
        );
    }
    assert_eq!(
        m.transfer(NOBODY, NOBODY, &TokenAmount::zero()),
        Err(ExecutionError::Syscall(ErrorNumber::InsufficientFunds))
    );
    assert_balance(&m, BOB, 5);
}

#[test]
fn transfer_missing_receiver() {
    let mut m = machine(1000, 5);
    assert_eq!(
        m.transfer(ALICE, NOBODY, &TokenAmount::from_atto(10)),
        Err(ExecutionError::Syscall(ErrorNumber::NotFound))
    );
    assert_balance(&m, ALICE, 1000);
    assert!(m.state_tree().get_actor(NOBODY).unwrap().is_none());
}

#[test]
fn transfer_insufficient_funds() {
    let mut m = machine(1000, 5);
    assert_eq!(
        m.transfer(ALICE, BOB, &TokenAmount::from_atto(1001)),
        Err(ExecutionError::Syscall(ErrorNumber::InsufficientFunds))
    );
    // The balance is checked before the receiver is looked up.
    assert_eq!(
        m.transfer(ALICE, NOBODY, &TokenAmount::from_atto(1001)),
        Err(ExecutionError::Syscall(ErrorNumber::InsufficientFunds))
    );
    assert_balance(&m, ALICE, 1000);
    assert_balance(&m, BOB, 5);
}

#[test]
fn self_transfer() {
    let mut m = machine(1000, 5);
    assert_eq!(m.transfer(ALICE, ALICE, &TokenAmount::from_atto(1000)), Ok(()));
    assert_balance(&m, ALICE, 1000);
    assert_eq!(
        m.transfer(ALICE, ALICE, &TokenAmount::from_atto(1001)),
        Err(ExecutionError::Syscall(ErrorNumber::InsufficientFunds))
    );
    assert_balance(&m, ALICE, 1000);
}

#[test]
fn construction_rejects_bad_root() {
    let (store, _) = world(1, 1);
    let before = snapshot(&store);
    let missing = ContentId::new(DAG_CBOR, 0xb220, vec![7u8; 32]).unwrap();
    match DefaultMachine::new(&context(&missing, MIN_SUPPORTED_VERSION), store, ()) {
        Ok(_) => panic!("a machine over a store without the root"),
        Err(rej) => {
            assert_eq!(rej.error, MachineError::MissingRoot);
            assert!(same_snapshot(&before, &snapshot(&rej.blockstore)));
        },
    }
}

#[test]
fn construction_rejects_a_root_that_is_no_index() {
    let (mut store, _) = world(1, 1);
    let junk = put_block(&mut store, DAG_CBOR, &[0x01]);
    match DefaultMachine::new(&context(&junk, MIN_SUPPORTED_VERSION), store, ()) {
        Ok(_) => panic!("a machine over a root that is no index"),
        Err(rej) => assert_eq!(rej.error, MachineError::InvalidRoot),
    }
}

#[test]
fn construction_rejects_a_tree_without_manifest() {
    let mut store = MemoryStore::new();
    let root = put_block(&mut store, DAG_CBOR, &encode_index(&Vec::new()));
    match DefaultMachine::new(&context(&root, MIN_SUPPORTED_VERSION), store, ()) {
        Ok(_) => panic!("a machine without a manifest"),
        Err(rej) => {
            assert_eq!(rej.error, MachineError::Manifest);
            // The empty array was put before the manifest was looked for.
            assert!(rej.blockstore.has(&empty_arr_cid()).unwrap());
        },
    }
}

#[test]
fn network_version_gating() {
    for version in [0, MIN_SUPPORTED_VERSION - 1, MAX_SUPPORTED_VERSION + 1, u32::MAX] {
        let (store, root) = world(1, 1);
        let before = snapshot(&store);
        match DefaultMachine::new(&context(&root, version), store, ()) {
            Ok(_) => panic!("version {} accepted", version),
            Err(rej) => {
                assert_eq!(rej.error, MachineError::UnsupportedVersion);
                assert!(same_snapshot(&before, &snapshot(&rej.blockstore)));
            },
        }
    }
    for version in [MIN_SUPPORTED_VERSION, MAX_SUPPORTED_VERSION] {
        let (store, root) = world(1, 1);
        assert!(DefaultMachine::new(&context(&root, version), store, ()).is_ok());
    }
}

#[test]
fn manifest_override_is_followed() {
    let (mut store, root) = world(1, 1);
    let code = put_block(&mut store, IPLD_RAW, b"other code");
    let mut manifest = Vec::new();
    write_head(&mut manifest, 4, 2);
    for name in [&b"account"[..], &b"miner"[..]] {
        write_head(&mut manifest, 4, 2);
        write_head(&mut manifest, 3, name.len() as u64);
        write_all(&mut manifest, name);
        write_link(&mut manifest, &code);
    }
    let manifest = put_block(&mut store, DAG_CBOR, &manifest);
    let mut pointer = Vec::new();
    write_head(&mut pointer, 4, 2);
    write_head(&mut pointer, 0, 1);
    write_link(&mut pointer, &manifest);
    let pointer = put_block(&mut store, DAG_CBOR, &pointer);
    let mut ctx = context(&root, MIN_SUPPORTED_VERSION);
    ctx.builtin_actors_override = Some(pointer);
    let m = match DefaultMachine::new(&ctx, store, ()) {
        Ok(m) => m,
        Err(rej) => panic!("construction refused: {:?}", rej.error),
    };
    assert_eq!(m.builtin_actors().len(), 2);
    assert!(m.builtin_actors().code_by_name(b"miner").unwrap().same(&code));
    assert!(m.builtin_actors().source().same(&manifest));
}

#[test]
fn manifest_override_of_unknown_version_is_refused() {
    let (mut store, root) = world(1, 1);
    let code = put_block(&mut store, IPLD_RAW, b"other code");
    let manifest = put_block(&mut store, DAG_CBOR, &manifest_block(&code));
    let mut pointer = Vec::new();
    write_head(&mut pointer, 4, 2);
    write_head(&mut pointer, 0, 2);
    write_link(&mut pointer, &manifest);
    let pointer = put_block(&mut store, DAG_CBOR, &pointer);
    let mut ctx = context(&root, MIN_SUPPORTED_VERSION);
    ctx.builtin_actors_override = Some(pointer);
    match DefaultMachine::new(&ctx, store, ()) {
        Ok(_) => panic!("a manifest of version 2 was read"),
        Err(rej) => assert_eq!(rej.error, MachineError::Manifest),
    }
}

#[test]
fn flush_makes_the_new_tree_durable() {
    let mut m = machine(1000, 5);
    m.transfer(ALICE, BOB, &TokenAmount::from_atto(250)).unwrap();
    let root = m.flush().unwrap();
    assert!(root.same(m.state_tree().root()));
    let store = m.into_store().into_inner();
    assert!(store.has(&root).unwrap());
    let reopened = match DefaultMachine::new(&context(&root, MIN_SUPPORTED_VERSION), store, ()) {
        Ok(m) => m,
        Err(rej) => panic!("construction refused: {:?}", rej.error),
    };
    assert_balance(&reopened, ALICE, 750);
    assert_balance(&reopened, BOB, 255);
}

#[test]
fn unflushed_transfers_do_not_reach_the_store() {
    let (store, root) = world(1000, 5);
    let before = store.len();
    let mut m = match DefaultMachine::new(&context(&root, MIN_SUPPORTED_VERSION), store, ()) {
        Ok(m) => m,
        Err(_) => panic!("construction refused"),
    };
    m.transfer(ALICE, BOB, &TokenAmount::from_atto(250)).unwrap();
    let store = m.into_store().into_inner();
    assert_eq!(store.len(), before);
}

#[test]
fn flush_without_changes_returns_the_same_root() {
    let (store, root) = world(1000, 5);
    let mut m = match DefaultMachine::new(&context(&root, MIN_SUPPORTED_VERSION), store, ()) {
        Ok(m) => m,
        Err(_) => panic!("construction refused"),
    };
    assert!(m.flush().unwrap().same(&root));
    m.transfer(ALICE, BOB, &TokenAmount::from_atto(1)).unwrap();
    let first = m.flush().unwrap();
    assert!(!first.same(&root));
    let second = m.flush().unwrap();
    assert!(second.same(&first));
}

#[test]
fn root_does_not_depend_on_the_order_of_writes() {
    let mut one = machine(1000, 5);
    one.transfer(ALICE, BOB, &TokenAmount::from_atto(10)).unwrap();
    one.transfer(BOB, ALICE, &TokenAmount::from_atto(3)).unwrap();
    let mut other = machine(1000, 5);
    other.transfer(ALICE, BOB, &TokenAmount::from_atto(7)).unwrap();
    assert!(one.flush().unwrap().same(&other.flush().unwrap()));
}

#[test]
fn create_actor_assigns_the_next_identifier() {
    let mut m = machine(1000, 5);
    let code = m.state_tree().get_actor(ALICE).unwrap().unwrap().code;
    let carol = Address::new(vec![1, 2, 3]);
    let fresh = || ActorState::new(code.clone(), empty_arr_cid(), TokenAmount::zero(), 0);
    assert_eq!(m.create_actor(&carol, fresh()), Ok(102));
    assert_eq!(m.create_actor(&Address::new(vec![9]), fresh()), Ok(103));
    // A known address keeps its identifier.
    assert_eq!(m.create_actor(&carol, fresh()), Ok(102));
    assert_balance(&m, 102, 0);
    // The table of the init actor has both addresses and counts on.
    let init = m.state_tree().get_actor(1).unwrap().unwrap();
    let table = InitState::decode(&m.blockstore().get(&init.state).unwrap().unwrap()).unwrap();
    assert_eq!(table.next_id(), 104);
    assert_eq!(table.lookup(&carol), Some(102));
    assert_eq!(table.lookup(&Address::new(vec![9])), Some(103));
    assert_eq!(table.lookup(&Address::new(vec![8])), None);
    m.transfer(ALICE, 102, &TokenAmount::from_atto(40)).unwrap();
    assert_balance(&m, 102, 40);
    let root = m.flush().unwrap();
    let store = m.into_store().into_inner();
    let mut again = match DefaultMachine::new(&context(&root, MIN_SUPPORTED_VERSION), store, ()) {
        Ok(m) => m,
        Err(rej) => panic!("construction refused: {:?}", rej.error),
    };
    assert_balance(&again, 102, 40);
    assert_eq!(again.create_actor(&Address::new(vec![9]), fresh()), Ok(103));
    assert_eq!(again.create_actor(&Address::new(vec![10]), fresh()), Ok(104));
}

#[test]
fn create_actor_without_init_actor_poisons_the_machine() {
    let mut store = MemoryStore::new();
    put_empty_blocks(&mut store).unwrap();
    let code = put_block(&mut store, IPLD_RAW, b"code");
    let manifest = put_block(&mut store, DAG_CBOR, &manifest_block(&code));
    let system_state = put_block(&mut store, DAG_CBOR, &system_state_block(&manifest));
    let empty_root = put_block(&mut store, DAG_CBOR, &encode_index(&Vec::new()));
    let mut tree = match StateTree::new_from_root(BufferedStore::new(store), &empty_root) {
        Ok(tree) => tree,
        Err(_) => panic!("the empty index opens"),
    };
    tree.set_actor(0, ActorState::new(code.clone(), system_state, TokenAmount::zero(), 0));
    let root = tree.flush().unwrap();
    tree.flush_store(&root).unwrap();
    let store = tree.into_store().into_inner();
    let mut m = match DefaultMachine::new(&context(&root, MIN_SUPPORTED_VERSION), store, ()) {
        Ok(m) => m,
        Err(_) => panic!("construction refused"),
    };
    let actor = ActorState::new(code.clone(), empty_arr_cid(), TokenAmount::zero(), 0);
    assert_eq!(
        m.create_actor(&Address::new(vec![1]), actor),
        Err(ExecutionError::Fatal(Fault::Corrupt))
    );
    assert!(m.poisoned());
    assert_eq!(
        m.transfer(0, 0, &TokenAmount::zero()),
        Err(ExecutionError::Fatal(Fault::Poisoned))
    );
    assert_eq!(m.flush().err(), Some(ExecutionError::Fatal(Fault::Poisoned)));
    assert_eq!(m.commit_events(&[]).err(), Some(ExecutionError::Fatal(Fault::Poisoned)));
}

#[test]
fn flush_fails_where_a_record_links_to_a_block_that_nobody_holds() {
    let mut m = machine(1000, 5);
    let code = m.state_tree().get_actor(ALICE).unwrap().unwrap().code;
    let nowhere = ContentId::new(DAG_CBOR, 0xb220, vec![0xaa; 32]).unwrap();
    let actor = ActorState::new(code, nowhere, TokenAmount::zero(), 0);
    assert_eq!(m.create_actor(&Address::new(vec![4]), actor), Ok(102));
    let durable = m.blockstore().inner().len();
    assert_eq!(m.flush().err(), Some(ExecutionError::Fatal(Fault::Unresolved)));
    assert!(m.poisoned());
    // Nothing of the new tree became durable.
    assert_eq!(m.blockstore().inner().len(), durable);
    assert_eq!(m.flush().err(), Some(ExecutionError::Fatal(Fault::Poisoned)));
}

#[test]
fn flush_fails_where_a_record_links_to_a_block_that_cannot_be_read() {
    let mut m = machine(1000, 5);
    let code = m.state_tree().get_actor(ALICE).unwrap().unwrap().code;
    let broken = [0x82u8, 0x01];
    let id = put(&mut MemoryStore::new(), HashKind::Blake2b256, DAG_CBOR, &broken).unwrap();
    m.state_tree_mut().stage_block(&id, &broken).unwrap();
    m.state_tree_mut().set_actor(BOB, ActorState::new(code, id, TokenAmount::zero(), 0));
    assert_eq!(m.flush().err(), Some(ExecutionError::Fatal(Fault::Malformed)));
    assert!(m.poisoned());
}

#[test]
fn state_changes_through_the_tree_are_flushed_with_the_machine() {
    let mut m = machine(1000, 5);
    let mut bob = m.state_tree().get_actor(BOB).unwrap().unwrap();
    bob.sequence = 9;
    m.state_tree_mut().set_actor(BOB, bob);
    let root = m.flush().unwrap();
    let store = m.into_store().into_inner();
    let again = match DefaultMachine::new(&context(&root, MIN_SUPPORTED_VERSION), store, ()) {
        Ok(m) => m,
        Err(rej) => panic!("construction refused: {:?}", rej.error),
    };
    assert_eq!(again.state_tree().get_actor(BOB).unwrap().unwrap().sequence, 9);
    assert_balance(&again, BOB, 5);
}

#[test]
fn create_actor_fails_where_no_identifier_is_left() {
    let mut m = machine(1000, 5);
    let mut init = m.state_tree().get_actor(1).unwrap().unwrap();
    let full = InitState::new(u64::MAX).encode();
    let id = put(&mut MemoryStore::new(), HashKind::Blake2b256, DAG_CBOR, &full).unwrap();
    m.state_tree_mut().stage_block(&id, &full).unwrap();
    init.state = id;
    m.state_tree_mut().set_actor(1, init);
    let code = m.state_tree().get_actor(ALICE).unwrap().unwrap().code;
    let actor = ActorState::new(code, empty_arr_cid(), TokenAmount::zero(), 0);
    assert_eq!(
        m.create_actor(&Address::new(vec![4]), actor),
        Err(ExecutionError::Fatal(Fault::Exhausted))
    );
    assert!(m.poisoned());
}

#[test]
fn a_store_that_fails_is_a_fatal_fault() {
    let (store, root) = world(1000, 5);
    let durable = store.len();
    let sealed = ReadOnly::new(store);
    let mut m = match DefaultMachine::new(&context(&root, MIN_SUPPORTED_VERSION), sealed, ()) {
        Ok(m) => m,
        Err(rej) => panic!("construction refused: {:?}", rej.error),
    };
    // Transfers are staged in the tree; no store is written.
    assert_eq!(m.transfer(ALICE, BOB, &TokenAmount::from_atto(1)), Ok(()));
    assert!(!m.poisoned());
    assert_eq!(m.flush().err(), Some(ExecutionError::Fatal(Fault::Store)));
    assert!(m.poisoned());
    assert_eq!(
        m.transfer(ALICE, BOB, &TokenAmount::from_atto(1)),
        Err(ExecutionError::Fatal(Fault::Poisoned))
    );
    assert_eq!(m.into_store().into_inner().into_inner().len(), durable);
}

#[test]
fn construction_fails_where_the_empty_array_cannot_be_put() {
    let mut store = MemoryStore::new();
    let record = ContentId::new(DAG_CBOR, 0xb220, vec![1u8; 32]).unwrap();
    let root = put_block(&mut store, DAG_CBOR, &encode_index(&vec![(5, record)]));
    match DefaultMachine::new(&context(&root, MIN_SUPPORTED_VERSION), ReadOnly::new(store), ()) {
        Ok(_) => panic!("a machine over a store that took no empty array"),
        Err(rej) => {
            assert_eq!(rej.error, MachineError::Store);
            assert_eq!(rej.blockstore.into_inner().len(), 1);
        },
    }
}

#[test]
fn flush_after_events_returns_what_it_would_have_returned() {
    let mut plain = machine(1000, 5);
    plain.transfer(ALICE, BOB, &TokenAmount::from_atto(3)).unwrap();
    let mut busy = machine(1000, 5);
    busy.transfer(ALICE, BOB, &TokenAmount::from_atto(3)).unwrap();
    assert_eq!(busy.commit_events(&[]).unwrap().map(|_| ()), None);
    let expected = plain.flush().unwrap();
    assert!(busy.flush().unwrap().same(&expected));
    // Calls that fail or change nothing leave the root as it is.
    assert!(busy.transfer(ALICE, NOBODY, &TokenAmount::from_atto(1)).is_err());
    assert_eq!(busy.transfer(ALICE, ALICE, &TokenAmount::from_atto(1)), Ok(()));
    assert!(busy.flush().unwrap().same(&expected));
}

#[test]
fn manifest_from_the_system_actor_has_the_first_version() {
    let m = machine(1, 1);
    assert_eq!(m.builtin_actors().version(), 1);
    let system = m.state_tree().get_actor(0).unwrap().unwrap();
    let state = m.blockstore().get(&system.state).unwrap().unwrap();
    let pointed = fvm_machine::manifest::decode_system_state(&state).unwrap();
    assert!(m.builtin_actors().source().same(&pointed));
}
