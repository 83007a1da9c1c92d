use fvm_ipld_blockstore::Blockstore as OutsideBlockstore;
use fvm_machine::actor::ActorState;
use fvm_machine::blockstore::{put, BlockSource, Blockstore, MemoryStore, ReadOnly};
use fvm_machine::error::{ExecutionError, Fault};
use fvm_machine::buffered::BufferedStore;
use fvm_machine::codec::{write_all, write_head, write_link};
use fvm_machine::content_id::{ContentId, HashKind, DAG_CBOR, IPLD_RAW};
use fvm_machine::events::EVENTS_AMT_BITWIDTH;
use fvm_machine::memory_store::IpldMemoryStore;
use fvm_machine::index::encode_index;
use fvm_machine::machine::{put_empty_blocks, DefaultMachine, MachineContext, NetworkVersion};
use fvm_machine::state_tree::StateTree;
use fvm_machine::token::TokenAmount;
use fvm_shared::event::{ActorEvent, Entry, Flags, StampedEvent};

fn store_with_tree() -> (MemoryStore, ContentId) {
    let mut store = MemoryStore::new();
    put_empty_blocks(&mut store).unwrap();
    let code = put(&mut store, HashKind::Blake2b256, IPLD_RAW, b"code").unwrap();
    let mut manifest = Vec::new();
    write_head(&mut manifest, 4, 1);
    write_head(&mut manifest, 4, 2);
    write_head(&mut manifest, 3, 6);
    write_all(&mut manifest, b"system");
    write_link(&mut manifest, &code);
    let manifest = put(&mut store, HashKind::Blake2b256, DAG_CBOR, &manifest).unwrap();
    let mut system = Vec::new();
    write_head(&mut system, 4, 1);
    write_link(&mut system, &manifest);
    let system = put(&mut store, HashKind::Blake2b256, DAG_CBOR, &system).unwrap();
    let empty = put(&mut store, HashKind::Blake2b256, DAG_CBOR, &encode_index(&Vec::new())).unwrap();
    let mut tree = match StateTree::new_from_root(BufferedStore::new(store), &empty) {
        Ok(tree) => tree,
        Err(_) => panic!("the empty index opens"),
    };
    tree.set_actor(0, ActorState::new(code, system, TokenAmount::zero(), 0));
    let root = tree.flush().unwrap();
    tree.flush_store(&root).unwrap();
    (tree.into_store().into_inner(), root)
}

fn machine() -> DefaultMachine<MemoryStore, ()> {
    let (store, root) = store_with_tree();
    let context = MachineContext {
        epoch: 7,
        base_fee: TokenAmount::zero(),
        network_version: NetworkVersion(18),
        initial_state_root: root,
        builtin_actors_override: None,
    };
    match DefaultMachine::new(&context, store, ()) {
        Ok(m) => m,
        Err(rej) => panic!("construction refused: {:?}", rej.error),
    }
}

fn event(emitter: u64, key: &str, value: &[u8]) -> StampedEvent {
    StampedEvent::new(
        emitter,
        ActorEvent::from(vec![Entry {
            flags: Flags::FLAG_INDEXED_ALL,
            key: key.to_string(),
            codec: IPLD_RAW,
            value: value.to_vec(),
        }]),
    )
}

fn outside_cid(id: &ContentId) -> cid::Cid {
    cid::Cid::new_v1(
        id.codec(),
        cid::multihash::Multihash::<64>::wrap(id.hash_code(), id.digest()).unwrap(),
    )
}

fn outside_copy(store: &MemoryStore) -> fvm_ipld_blockstore::MemoryBlockstore {
    let copy = fvm_ipld_blockstore::MemoryBlockstore::new();
    for i in 0..store.len() {
        let (id, data) = store.entry(i).unwrap();
        copy.put_keyed(&outside_cid(&id), &data).unwrap();
    }
    copy
}

fn read_back(store: &MemoryStore, root: &ContentId) -> Vec<StampedEvent> {
    let copy = outside_copy(store);
    let amt =
        fvm_ipld_amt::Amt::<StampedEvent, _>::load(&outside_cid(root), &copy).expect("the trie opens");
    let mut out = Vec::new();
    let mut next = 0u64;
    amt.for_each(|i, e| {
        assert_eq!(i, next);
        next += 1;
        out.push(e.clone());
        Ok(())
    })
    .unwrap();
    out
}

#[test]
fn commit_no_events_gives_no_identifier() {
    let mut m = machine();
    assert_eq!(m.commit_events(&[]).unwrap().map(|_| ()), None);
    let (untouched, _) = store_with_tree();
    assert_eq!(m.into_store().into_inner().len(), untouched.len());
}

#[test]
fn events_round_trip() {
    let events = vec![event(100, "first", b"one"), event(101, "second", b"two")];
    let mut m = machine();
    let root = m.commit_events(&events).unwrap().expect("a root for two events");
    assert_eq!(root.codec(), DAG_CBOR);
    assert_eq!(root.hash_code(), 0xb220);
    // The trie is durable at once, without a flush of the machine.
    let store = m.into_store().into_inner();
    assert!(store.has(&root).unwrap());
    assert_eq!(read_back(&store, &root), events);

    let mut fresh = machine();
    let again = fresh.commit_events(&events).unwrap().unwrap();
    assert!(again.same(&root));
}

#[test]
fn events_root_depends_on_order_and_content() {
    let a = event(100, "first", b"one");
    let b = event(101, "second", b"two");
    let mut m = machine();
    let ab = m.commit_events(&[a.clone(), b.clone()]).unwrap().unwrap();
    let ba = m.commit_events(&[b.clone(), a.clone()]).unwrap().unwrap();
    let only_a = m.commit_events(&[a.clone()]).unwrap().unwrap();
    assert!(!ab.same(&ba));
    assert!(!ab.same(&only_a));
    let store = m.into_store().into_inner();
    assert_eq!(read_back(&store, &ba), vec![b, a.clone()]);
    assert_eq!(read_back(&store, &only_a), vec![a]);
}

#[test]
fn events_trie_of_many_levels_is_committed_whole() {
    // More events than one node of width 2^5 holds: the root links to nodes below.
    let events: Vec<StampedEvent> =
        (0..100u64).map(|i| event(i, "k", &i.to_be_bytes())).collect();
    assert!(events.len() > 1 << EVENTS_AMT_BITWIDTH);
    let mut m = machine();
    let root = m.commit_events(&events).unwrap().unwrap();
    let store = m.into_store().into_inner();
    assert_eq!(read_back(&store, &root), events);
}

#[test]
fn events_do_not_disturb_the_state_tree() {
    let mut m = machine();
    let before = m.state_tree().root().clone();
    m.commit_events(&[event(1, "k", b"v")]).unwrap();
    assert!(m.state_tree().root().same(&before));
    assert!(m.flush().unwrap().same(&before));
    assert!(!m.poisoned());
}

#[test]
fn staging_holds_the_trie_it_built() {
    let mut staging = IpldMemoryStore::new();
    let missing = ContentId::new(DAG_CBOR, 0xb220, vec![1u8; 32]).unwrap();
    assert_eq!(staging.get(&missing), Ok(None));
    let root = staging.build_events_trie(&[event(1, "k", b"v")]).unwrap();
    let block = staging.get(&root).unwrap().expect("the root is staged");
    assert!(!block.is_empty());
    assert_eq!(staging.get(&missing), Ok(None));
    // An identifier with the same digest and another codec names no block.
    let other = ContentId::new(IPLD_RAW, root.hash_code(), root.digest().clone()).unwrap();
    assert_eq!(staging.get(&other), Ok(None));
}

#[test]
fn outside_memory_store_is_a_block_store() {
    let mut store = IpldMemoryStore::new();
    let id = ContentId::new(IPLD_RAW, 0xb220, vec![5u8; 32]).unwrap();
    assert_eq!(store.has(&id), Ok(false));
    assert_eq!(store.put_keyed(&id, b"first"), Ok(()));
    assert_eq!(store.get(&id), Ok(Some(b"first".to_vec())));
    assert_eq!(store.put_keyed(&id, b"second"), Ok(()));
    assert_eq!(store.get(&id), Ok(Some(b"second".to_vec())));
    assert_eq!(store.has(&id), Ok(true));
    let outside = store.into_inner();
    assert_eq!(outside.get(&outside_cid(&id)).unwrap(), Some(b"second".to_vec()));
    let fresh = put(&mut IpldMemoryStore::from_inner(outside), HashKind::Blake2b256, IPLD_RAW, b"x");
    assert_eq!(fresh.unwrap().digest().len(), 32);
}

#[test]
fn machine_runs_over_the_outside_memory_store() {
    let (plain, root) = store_with_tree();
    let mut store = IpldMemoryStore::new();
    for i in 0..plain.len() {
        let (id, data) = plain.entry(i).unwrap();
        store.put_keyed(&id, &data).unwrap();
    }
    let context = MachineContext {
        epoch: 7,
        base_fee: TokenAmount::zero(),
        network_version: NetworkVersion(18),
        initial_state_root: root.clone(),
        builtin_actors_override: None,
    };
    let mut m = match DefaultMachine::new(&context, store, ()) {
        Ok(m) => m,
        Err(rej) => panic!("construction refused: {:?}", rej.error),
    };
    let events = vec![event(1, "k", b"v")];
    let committed = m.commit_events(&events).unwrap().unwrap();
    let outside = m.into_store().into_inner().into_inner();
    assert!(outside.has(&outside_cid(&committed)).unwrap());
    let amt = fvm_ipld_amt::Amt::<StampedEvent, _>::load(&outside_cid(&committed), &outside).unwrap();
    assert_eq!(amt.get(0).unwrap(), Some(&events[0]));
    assert_eq!(amt.count(), 1);
}

#[test]
fn events_are_not_committed_to_a_store_that_fails() {
    let (store, root) = store_with_tree();
    let durable = store.len();
    let context = MachineContext {
        epoch: 7,
        base_fee: TokenAmount::zero(),
        network_version: NetworkVersion(18),
        initial_state_root: root,
        builtin_actors_override: None,
    };
    let mut m = match DefaultMachine::new(&context, ReadOnly::new(store), ()) {
        Ok(m) => m,
        Err(rej) => panic!("construction refused: {:?}", rej.error),
    };
    assert_eq!(
        m.commit_events(&[event(1, "k", b"v")]).err(),
        Some(ExecutionError::Fatal(Fault::Store))
    );
    assert!(m.poisoned());
    assert_eq!(m.into_store().into_inner().into_inner().len(), durable);
}
