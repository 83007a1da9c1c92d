use fvm_machine::actor::ActorState;
use fvm_machine::blockstore::{put, BlockSource, Blockstore, MemoryStore};
use fvm_machine::buffered::BufferedStore;
use fvm_machine::cbor::{read_head, Head};
use fvm_machine::codec::{write_head, write_uint};
use fvm_machine::content_id::{ContentId, HashKind, BLAKE2B_256, DAG_CBOR, IPLD_RAW};
use fvm_machine::error::{ExecutionError, Fault};
use fvm_machine::index::{decode_index, encode_index, upsert};
use fvm_machine::init_actor::{Address, InitState};
use fvm_machine::manifest::{decode_manifest, decode_pointer, decode_system_state};
use fvm_machine::state_tree::StateTree;
use fvm_machine::token::TokenAmount;

fn id(n: u8) -> ContentId {
    ContentId::new(DAG_CBOR, BLAKE2B_256, vec![n; 32]).unwrap()
}

fn link_bytes(target: &ContentId) -> Vec<u8> {
    let mut out = vec![0xd8, 0x2a, 0x58, 0x27, 0x00];
    out.extend_from_slice(&target.to_bytes());
    out
}

fn head(major: u8, arg: u64) -> Vec<u8> {
    let mut out = Vec::new();
    write_head(&mut out, major, arg);
    out
}

#[test]
fn heads_take_the_shortest_form() {
    assert_eq!(head(0, 0), vec![0x00]);
    assert_eq!(head(0, 23), vec![0x17]);
    assert_eq!(head(0, 24), vec![0x18, 0x18]);
    assert_eq!(head(0, 255), vec![0x18, 0xff]);
    assert_eq!(head(4, 256), vec![0x99, 0x01, 0x00]);
    assert_eq!(head(2, 65535), vec![0x59, 0xff, 0xff]);
    assert_eq!(head(0, 65536), vec![0x1a, 0x00, 0x01, 0x00, 0x00]);
    assert_eq!(head(6, 0xffff_ffff), vec![0xda, 0xff, 0xff, 0xff, 0xff]);
    assert_eq!(head(0, 0x1_0000_0000), vec![0x1b, 0, 0, 0, 1, 0, 0, 0, 0]);
    assert_eq!(head(3, u64::MAX), vec![0x7b, 0xff, 0xff, 0xff, 0xff, 0xff, 0xff, 0xff, 0xff]);
}

#[test]
fn heads_read_back_what_was_written() {
    for major in 0u8..7 {
        for arg in [0u64, 1, 23, 24, 255, 256, 65535, 65536, 0xffff_ffff, 0x1_0000_0000, u64::MAX] {
            let mut bytes = vec![0xee];
            write_head(&mut bytes, major, arg);
            let next = bytes.len();
            bytes.push(0xee);
            assert_eq!(read_head(&bytes, 1), Some(Head { major, arg, next }));
        }
    }
    assert_eq!(read_head(&[0x00], 1), None);
    assert_eq!(read_head(&[0x19, 0x01], 0), None);
    assert_eq!(read_head(&[0x1a, 0x00, 0x00, 0xff, 0xff], 0), None);
    assert_eq!(read_head(&[0x1b, 0, 0, 0, 0, 0xff, 0xff, 0xff, 0xff], 0), None);
    assert_eq!(read_head(&[0x1f], 0), None);
}

#[test]
fn actor_record_has_its_persisted_form() {
    let actor = ActorState::new(id(1), id(2), TokenAmount::from_atto(0x0102), 300);
    let mut expected = vec![0x84];
    expected.extend_from_slice(&link_bytes(&id(1)));
    expected.extend_from_slice(&link_bytes(&id(2)));
    expected.extend_from_slice(&[0x19, 0x01, 0x2c]);
    expected.extend_from_slice(&[0x43, 0x00, 0x01, 0x02]);
    assert_eq!(actor.encode(), expected);
    let back = ActorState::decode(&expected).unwrap();
    assert!(back.code.same(&id(1)) && back.state.same(&id(2)));
    assert_eq!(back.sequence, 300);
    assert!(back.balance.same_amount(&TokenAmount::from_atto(0x0102)));
    assert!(!back.balance.sign_is_minus());
    assert_eq!(back.balance.magnitude(), &vec![0x01, 0x02]);
}

#[test]
fn actor_record_is_read_strictly() {
    let actor = ActorState::new(id(1), id(2), TokenAmount::from_atto(-5), u64::MAX);
    let bytes = actor.encode();
    let back = ActorState::decode(&bytes).unwrap();
    assert!(back.balance.same_amount(&TokenAmount::from_atto(-5)));
    assert_eq!(back.sequence, u64::MAX);
    let mut longer = bytes.clone();
    longer.push(0x00);
    assert!(ActorState::decode(&longer).is_none());
    assert!(ActorState::decode(&bytes[..bytes.len() - 1]).is_none());
    let mut five = bytes.clone();
    five[0] = 0x85;
    assert!(ActorState::decode(&five).is_none());
    let mut sign = bytes.clone();
    let at = sign.len() - 2;
    sign[at] = 0x02;
    assert!(ActorState::decode(&sign).is_none());
    assert!(ActorState::decode(&[]).is_none());
}

#[test]
fn deduct_and_deposit() {
    let mut actor = ActorState::new(id(1), id(2), TokenAmount::from_atto(10), 0);
    assert_eq!(actor.deduct_funds(&TokenAmount::from_atto(4)), Ok(()));
    assert!(actor.balance.same_amount(&TokenAmount::from_atto(6)));
    assert_eq!(
        actor.deduct_funds(&TokenAmount::from_atto(7)),
        Err(ExecutionError::Fatal(Fault::Underflow))
    );
    assert!(actor.balance.same_amount(&TokenAmount::from_atto(6)));
    assert_eq!(actor.deduct_funds(&TokenAmount::from_atto(6)), Ok(()));
    assert!(actor.balance.same_amount(&TokenAmount::zero()));
    actor.deposit_funds(&TokenAmount::from_atto(9));
    assert!(actor.balance.same_amount(&TokenAmount::from_atto(9)));
}

#[test]
fn index_keeps_identifiers_in_ascending_order() {
    let mut index = Vec::new();
    for n in [5u64, 1, 9, 3] {
        upsert(&mut index, n, id(n as u8));
    }
    upsert(&mut index, 9, id(90));
    let ids: Vec<u64> = index.iter().map(|e| e.0).collect();
    assert_eq!(ids, vec![1, 3, 5, 9]);
    assert!(index[3].1.same(&id(90)));
    let bytes = encode_index(&index);
    assert_eq!(bytes[0], 0x84);
    assert_eq!(bytes[1..3], [0x82, 0x01]);
    let back = decode_index(&bytes).unwrap();
    assert_eq!(back.len(), 4);
    for (a, b) in back.iter().zip(index.iter()) {
        assert!(a.0 == b.0 && a.1.same(&b.1));
    }
    assert_eq!(encode_index(&Vec::new()), vec![0x80]);
    assert_eq!(decode_index(&[0x80]).unwrap().len(), 0);
}

#[test]
fn index_out_of_order_is_refused() {
    let good = encode_index(&vec![(1, id(1)), (2, id(2))]);
    assert!(decode_index(&good).is_some());
    let swapped = encode_index(&vec![(2, id(2)), (1, id(1))]);
    assert!(decode_index(&swapped).is_none());
    let twice = encode_index(&vec![(2, id(2)), (2, id(1))]);
    assert!(decode_index(&twice).is_none());
    let mut longer = good.clone();
    longer.push(0);
    assert!(decode_index(&longer).is_none());
    let mut more = good.clone();
    more[0] = 0x83;
    assert!(decode_index(&more).is_none());
}

#[test]
fn init_table_assigns_and_remembers() {
    let mut table = InitState::new(100);
    let a = Address::new(vec![1, 1]);
    let b = Address::new(vec![2]);
    assert_eq!(table.lookup(&a), None);
    assert_eq!(table.assign(&a), Some(100));
    assert_eq!(table.assign(&b), Some(101));
    assert_eq!(table.next_id(), 102);
    assert_eq!(table.lookup(&a), Some(100));
    assert_eq!(table.lookup(&b), Some(101));
    let bytes = table.encode();
    assert_eq!(
        bytes,
        vec![0x82, 0x18, 0x66, 0x82, 0x82, 0x42, 0x01, 0x01, 0x18, 0x64, 0x82, 0x41, 0x02, 0x18, 0x65]
    );
    let back = InitState::decode(&bytes).unwrap();
    assert_eq!(back.next_id(), 102);
    assert_eq!(back.lookup(&b), Some(101));
    assert!(InitState::decode(&bytes[..bytes.len() - 1]).is_none());
    let mut full = InitState::new(u64::MAX);
    assert_eq!(full.assign(&a), None);
    assert_eq!(full.next_id(), u64::MAX);
}

#[test]
fn manifest_parts_are_read_strictly() {
    let mut pointer = vec![0x82, 0x01];
    pointer.extend_from_slice(&link_bytes(&id(4)));
    let (version, target) = decode_pointer(&pointer).unwrap();
    assert_eq!(version, 1);
    assert!(target.same(&id(4)));
    let mut wide = vec![0x82];
    write_uint(&mut wide, 0x1_0000_0000);
    wide.extend_from_slice(&link_bytes(&id(4)));
    assert!(decode_pointer(&wide).is_none());
    let mut system = vec![0x81];
    system.extend_from_slice(&link_bytes(&id(5)));
    assert!(decode_system_state(&system).unwrap().same(&id(5)));
    assert!(decode_system_state(&pointer).is_none());
    let mut manifest = vec![0x81, 0x82, 0x62, b'h', b'i'];
    manifest.extend_from_slice(&link_bytes(&id(6)));
    let entries = decode_manifest(&manifest).unwrap();
    assert_eq!(entries.len(), 1);
    assert_eq!(entries[0].0, b"hi".to_vec());
    assert!(entries[0].1.same(&id(6)));
    manifest[2] = 0x42; // a byte string where a name is due
    assert!(decode_manifest(&manifest).is_none());
}

fn empty_tree() -> StateTree<MemoryStore> {
    let mut store = MemoryStore::new();
    let root = put(&mut store, HashKind::Blake2b256, DAG_CBOR, &encode_index(&Vec::new())).unwrap();
    match StateTree::new_from_root(BufferedStore::new(store), &root) {
        Ok(tree) => tree,
        Err(_) => panic!("the empty index opens"),
    }
}

fn account(n: i128) -> ActorState {
    ActorState::new(id(1), id(2), TokenAmount::from_atto(n), 0)
}

#[test]
fn state_tree_gets_what_was_set() {
    let mut tree = empty_tree();
    assert!(tree.get_actor(5).unwrap().is_none());
    tree.set_actor(5, account(10));
    tree.set_actor(6, account(20));
    tree.set_actor(5, account(30));
    assert!(tree.get_actor(5).unwrap().unwrap().balance.same_amount(&TokenAmount::from_atto(30)));
    assert!(tree.get_actor(6).unwrap().unwrap().balance.same_amount(&TokenAmount::from_atto(20)));
    assert!(tree.get_actor(7).unwrap().is_none());
}

#[test]
fn state_tree_root_is_a_function_of_its_records() {
    let mut one = empty_tree();
    one.set_actor(5, account(10));
    one.set_actor(6, account(20));
    one.set_actor(5, account(30));
    let mut other = empty_tree();
    other.set_actor(6, account(20));
    other.set_actor(5, account(30));
    let root = one.flush().unwrap();
    assert!(root.same(&other.flush().unwrap()));
    assert!(one.flush().unwrap().same(&root));
    let mut split = empty_tree();
    split.set_actor(5, account(30));
    let first = split.flush().unwrap();
    assert!(!first.same(&root));
    split.set_actor(6, account(20));
    assert!(split.flush().unwrap().same(&root));
}

#[test]
fn state_tree_reopens_at_its_root() {
    let mut tree = empty_tree();
    tree.set_actor(5, account(10));
    tree.set_actor(u64::MAX, account(11));
    let root = tree.flush().unwrap();
    // The records link to blocks that nobody holds, so the store cannot be flushed.
    assert!(tree.flush_store(&root).is_err());
    let buffered = tree.into_store();
    assert_eq!(buffered.has(&root), Ok(true));
    let again = match StateTree::new_from_root(buffered, &root) {
        Ok(tree) => tree,
        Err(_) => panic!("the flushed root opens"),
    };
    assert!(again.root().same(&root));
    assert!(again.get_actor(5).unwrap().unwrap().balance.same_amount(&TokenAmount::from_atto(10)));
    assert!(again.get_actor(u64::MAX).unwrap().is_some());
    assert!(again.get_actor(6).unwrap().is_none());
}

#[test]
fn state_tree_reports_records_that_cannot_be_read() {
    let mut store = MemoryStore::new();
    let junk = put(&mut store, HashKind::Blake2b256, DAG_CBOR, &[0x80]).unwrap();
    let index = encode_index(&vec![(3, junk), (4, id(9))]);
    let root = put(&mut store, HashKind::Blake2b256, DAG_CBOR, &index).unwrap();
    let mut tree = match StateTree::new_from_root(BufferedStore::new(store), &root) {
        Ok(tree) => tree,
        Err(_) => panic!("the index opens"),
    };
    assert_eq!(tree.get_actor(3).err(), Some(ExecutionError::Fatal(Fault::Corrupt)));
    assert_eq!(tree.get_actor(4).err(), Some(ExecutionError::Fatal(Fault::Corrupt)));
    assert!(tree.get_actor(5).unwrap().is_none());
    tree.set_actor(3, account(1));
    assert!(tree.get_actor(3).unwrap().is_some());
}

#[test]
fn state_tree_refuses_a_root_that_is_missing_or_no_index() {
    let mut store = MemoryStore::new();
    let raw = put(&mut store, HashKind::Blake2b256, IPLD_RAW, b"no index").unwrap();
    match StateTree::new_from_root(BufferedStore::new(store), &raw) {
        Ok(_) => panic!("a tree over a block that is no index"),
        Err((fault, store)) => {
            assert_eq!(fault, Fault::Corrupt);
            assert_eq!(store.has(&raw), Ok(true));
        },
    }
    match StateTree::new_from_root(BufferedStore::new(MemoryStore::new()), &id(1)) {
        Ok(_) => panic!("a tree without a root"),
        Err((fault, _)) => assert_eq!(fault, Fault::Corrupt),
    }
}
