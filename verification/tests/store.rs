use fvm_machine::blockstore::{put, BlockSource, Blockstore, MemoryStore, ReadOnly, StoreFault};
use fvm_machine::buffered::BufferedStore;
use fvm_machine::cbor::scan_links;
use fvm_machine::closure::{children_of, collect_closure, ClosureError};
use fvm_machine::codec::{write_bytes, write_head, write_link, write_uint};
use fvm_machine::content_id::{
    read_link_target, ContentId, HashKind, BLAKE2B_256, BLAKE2B_512, DAG_CBOR, IPLD_RAW,
};
use fvm_machine::machine::{empty_arr_cid, put_empty_blocks};

fn node(links: &[&ContentId], payload: u64) -> Vec<u8> {
    let mut out = Vec::new();
    write_head(&mut out, 4, links.len() as u64 + 1);
    write_uint(&mut out, payload);
    for link in links {
        write_link(&mut out, link);
    }
    out
}

fn stage<B: Blockstore>(store: &mut BufferedStore<B>, data: &[u8]) -> ContentId {
    store.stage(HashKind::Blake2b256, DAG_CBOR, data).unwrap()
}

#[test]
fn empty_array_has_its_well_known_identifier() {
    let mut store = MemoryStore::new();
    assert_eq!(put_empty_blocks(&mut store), Ok(()));
    assert_eq!(store.len(), 1);
    let (id, data) = store.entry(0).unwrap();
    assert!(store.entry(1).is_none());
    assert_eq!(data, vec![0x80]);
    assert!(id.same(&empty_arr_cid()));
    let id = put(&mut store, HashKind::Blake2b256, DAG_CBOR, &[0x80]).unwrap();
    assert!(id.same(&empty_arr_cid()));
    assert_eq!(store.len(), 1);
    let mut expected = vec![0x01, 0x71, 0xa0, 0xe4, 0x02, 0x20];
    expected.extend_from_slice(empty_arr_cid().digest());
    assert_eq!(id.to_bytes(), expected);
    assert_eq!(
        id.digest()[..4],
        [0x45, 0xb0, 0xcf, 0xc2]
    );
}

#[test]
fn identifiers_are_hashes_of_codec_and_content() {
    let mut store = MemoryStore::new();
    let a = put(&mut store, HashKind::Blake2b256, IPLD_RAW, b"abc").unwrap();
    let again = put(&mut store, HashKind::Blake2b256, IPLD_RAW, b"abc").unwrap();
    let other_codec = put(&mut store, HashKind::Blake2b256, DAG_CBOR, b"abc").unwrap();
    let other_data = put(&mut store, HashKind::Blake2b256, IPLD_RAW, b"abd").unwrap();
    let wide = put(&mut store, HashKind::Blake2b512, IPLD_RAW, b"abc").unwrap();
    assert!(a.same(&again));
    assert!(!a.same(&other_codec));
    assert_eq!(a.digest(), other_codec.digest());
    assert!(!a.same(&other_data));
    assert_ne!(a.digest(), other_data.digest());
    assert_eq!((a.codec(), a.hash_code(), a.digest().len()), (IPLD_RAW, BLAKE2B_256, 32));
    assert_eq!((wide.hash_code(), wide.digest().len()), (BLAKE2B_512, 64));
    // BLAKE2b-256 of "abc".
    assert_eq!(
        a.digest()[..8],
        [0xbd, 0xdd, 0x81, 0x3c, 0x63, 0x42, 0x39, 0x72]
    );
    assert_eq!(store.len(), 4);
    assert_eq!(store.get(&a), Ok(Some(b"abc".to_vec())));
}

#[test]
fn memory_store_reads_what_it_was_given() {
    let mut store = MemoryStore::new();
    let id = ContentId::new(IPLD_RAW, 0, vec![1, 2, 3]).unwrap();
    assert_eq!(store.has(&id), Ok(false));
    assert_eq!(store.get(&id), Ok(None));
    store.put_keyed(&id, b"first").unwrap();
    assert_eq!(store.has(&id), Ok(true));
    assert_eq!(store.get(&id), Ok(Some(b"first".to_vec())));
    store.put_keyed(&id, b"second").unwrap();
    assert_eq!(store.get(&id), Ok(Some(b"second".to_vec())));
    let other = ContentId::new(IPLD_RAW, 0, vec![1, 2, 4]).unwrap();
    assert_eq!(store.get(&other), Ok(None));
}

#[test]
fn content_id_rejects_a_digest_that_is_too_long() {
    assert!(ContentId::new(DAG_CBOR, 0, vec![0u8; 64]).is_some());
    assert!(ContentId::new(DAG_CBOR, 0, vec![0u8; 65]).is_none());
}

#[test]
fn link_bytes_round_trip_through_the_identifier() {
    let id = ContentId::new(0x71, 0xb220, vec![9u8; 32]).unwrap();
    let bytes = id.to_bytes();
    assert_eq!(bytes[..6], [0x01, 0x71, 0xa0, 0xe4, 0x02, 0x20]);
    assert!(read_link_target(&bytes).unwrap().same(&id));
    assert!(read_link_target(&[]).is_none());
    assert!(read_link_target(&[0x01, 0x71]).is_none());
    // A version-0 identifier is no link target.
    let mut v0 = vec![0x12, 0x20];
    v0.extend_from_slice(&[7u8; 32]);
    assert!(read_link_target(&v0).is_none());
}

#[test]
fn buffered_store_reads_the_overlay_first() {
    let mut backing = MemoryStore::new();
    let held = put(&mut backing, HashKind::Blake2b256, IPLD_RAW, b"held").unwrap();
    let mut store = BufferedStore::new(backing);
    assert_eq!(store.get(&held), Ok(Some(b"held".to_vec())));
    let staged = stage(&mut store, &node(&[], 1));
    assert_eq!(store.has(&staged), Ok(true));
    assert_eq!(store.inner().has(&staged), Ok(false));
    assert_eq!(store.get(&staged), Ok(Some(node(&[], 1))));
    // A block that the store shows is not staged again.
    let again = store.stage(HashKind::Blake2b256, IPLD_RAW, b"held").unwrap();
    assert!(again.same(&held));
    let backing = store.into_inner();
    assert_eq!(backing.len(), 1);
}

#[test]
fn flush_commits_the_closure_and_nothing_else() {
    let mut store = BufferedStore::new(MemoryStore::new());
    let leaf_a = stage(&mut store, &node(&[], 1));
    let leaf_b = stage(&mut store, &node(&[], 2));
    let mid = stage(&mut store, &node(&[&leaf_a], 3));
    let root = stage(&mut store, &node(&[&mid, &leaf_b, &leaf_a], 4));
    let stray = stage(&mut store, &node(&[&leaf_a], 5));
    assert_eq!(store.inner().len(), 0);
    assert_eq!(store.flush(&root), Ok(()));
    for id in [&leaf_a, &leaf_b, &mid, &root] {
        assert_eq!(store.inner().has(id), Ok(true));
    }
    assert_eq!(store.inner().get(&mid), Ok(Some(node(&[&leaf_a], 3))));
    assert_eq!(store.inner().has(&stray), Ok(false));
    assert_eq!(store.inner().len(), 4);
    // What was not reached stays in the buffer.
    assert_eq!(store.has(&stray), Ok(true));
    assert_eq!(store.flush(&stray), Ok(()));
    assert_eq!(store.inner().has(&stray), Ok(true));
}

#[test]
fn flush_follows_links_into_the_backing_store_no_further() {
    let mut backing = MemoryStore::new();
    let missing = ContentId::new(DAG_CBOR, BLAKE2B_256, vec![3u8; 32]).unwrap();
    // A durable block may link to what nobody holds: it is not followed.
    let durable = put(&mut backing, HashKind::Blake2b256, DAG_CBOR, &node(&[&missing], 1)).unwrap();
    let mut store = BufferedStore::new(backing);
    let root = stage(&mut store, &node(&[&durable], 2));
    assert_eq!(store.flush(&root), Ok(()));
    assert_eq!(store.inner().len(), 2);
}

#[test]
fn flush_fails_on_a_link_that_cannot_be_resolved() {
    let mut store = BufferedStore::new(MemoryStore::new());
    let missing = ContentId::new(DAG_CBOR, BLAKE2B_256, vec![3u8; 32]).unwrap();
    let leaf = stage(&mut store, &node(&[], 1));
    let root = stage(&mut store, &node(&[&leaf, &missing], 2));
    assert_eq!(store.flush(&root), Err(ClosureError::Unresolved));
    assert_eq!(store.flush(&missing), Err(ClosureError::Unresolved));
    // Nothing was written, not even the blocks that could be resolved.
    assert_eq!(store.inner().len(), 0);
    assert_eq!(store.flush(&leaf), Ok(()));
    assert_eq!(store.inner().len(), 1);
}

#[test]
fn flush_fails_on_a_block_that_is_not_well_formed() {
    let mut store = BufferedStore::new(MemoryStore::new());
    let broken = stage(&mut store, &[0x82, 0x01]);
    let root = stage(&mut store, &node(&[&broken], 2));
    assert_eq!(store.flush(&root), Err(ClosureError::Malformed));
    assert_eq!(store.inner().len(), 0);
    // Blocks of other codecs are not read for links.
    let raw = store.stage(HashKind::Blake2b256, IPLD_RAW, &[0x82, 0x01]).unwrap();
    let root = stage(&mut store, &node(&[&raw], 3));
    assert_eq!(store.flush(&root), Ok(()));
    assert_eq!(store.inner().len(), 2);
}

#[test]
fn closure_visits_each_block_once() {
    let mut src = MemoryStore::new();
    let leaf = put(&mut src, HashKind::Blake2b256, DAG_CBOR, &node(&[], 1)).unwrap();
    let left = put(&mut src, HashKind::Blake2b256, DAG_CBOR, &node(&[&leaf], 2)).unwrap();
    let right = put(&mut src, HashKind::Blake2b256, DAG_CBOR, &node(&[&leaf, &left], 3)).unwrap();
    let root = put(&mut src, HashKind::Blake2b256, DAG_CBOR, &node(&[&left, &right], 4)).unwrap();
    let outside = MemoryStore::new();
    let found = collect_closure(&src, &outside, &root).unwrap();
    assert_eq!(found.len(), 4);
    for id in [&leaf, &left, &right, &root] {
        assert_eq!(found.iter().filter(|e| e.0.same(id)).count(), 1);
    }
    let found = collect_closure(&src, &outside, &left).unwrap();
    assert_eq!(found.len(), 2);
}

#[test]
fn links_are_found_in_order_through_nesting() {
    let a = ContentId::new(DAG_CBOR, BLAKE2B_256, vec![1u8; 32]).unwrap();
    let b = ContentId::new(IPLD_RAW, BLAKE2B_256, vec![2u8; 32]).unwrap();
    let mut out = Vec::new();
    write_head(&mut out, 5, 2); // a map of two pairs
    write_head(&mut out, 3, 1);
    out.push(b'x');
    write_link(&mut out, &a);
    write_head(&mut out, 3, 1);
    out.push(b'y');
    write_head(&mut out, 4, 3);
    write_bytes(&mut out, &[0xd8, 0x2a, 0x00]); // link-like bytes inside a string are skipped
    write_head(&mut out, 6, 7); // another tag wraps one item
    write_link(&mut out, &b);
    write_head(&mut out, 7, 22); // null
    let links = scan_links(&out).unwrap();
    assert_eq!(links, vec![a.to_bytes(), b.to_bytes()]);
    let kids = children_of(&a, &out).unwrap();
    assert_eq!(kids.len(), 2);
    assert!(kids[0].same(&a) && kids[1].same(&b));
    // The same bytes under a raw codec link to nothing.
    assert_eq!(children_of(&b, &out).unwrap().len(), 0);
}

#[test]
fn malformed_blocks_have_no_links() {
    assert_eq!(scan_links(&[]), None);
    assert_eq!(scan_links(&[0x82, 0x01]), None); // an array of two with one item
    assert_eq!(scan_links(&[0x18, 0x05]), None); // 5 written in two bytes
    assert_eq!(scan_links(&[0x19, 0x00, 0xff]), None); // 255 written in three bytes
    assert_eq!(scan_links(&[0x42, 0x01]), None); // a string that runs past the end
    assert_eq!(scan_links(&[0xd8, 0x2a, 0x01]), None); // a link that is no byte string
    assert_eq!(scan_links(&[0xd8, 0x2a, 0x42, 0x01, 0x71]), None); // a link without its zero byte
    assert_eq!(scan_links(&[0x1c]), None); // a reserved form
    assert_eq!(scan_links(&[0x80]), Some(vec![]));
    assert_eq!(scan_links(&[0x18, 0x18]), Some(vec![]));
    assert_eq!(scan_links(&[0xfb, 0, 0, 0, 0, 0, 0, 0, 0]), Some(vec![])); // the float 0.0
    // Bytes after the one item are not read.
    assert_eq!(scan_links(&[0x01, 0xff]), Some(vec![]));
    // A link whose bytes are no identifier is found here and refused as a child.
    let bad = [0xd8, 0x2a, 0x42, 0x00, 0x09];
    assert_eq!(scan_links(&bad), Some(vec![vec![0x09]]));
    let id = ContentId::new(DAG_CBOR, BLAKE2B_256, vec![1u8; 32]).unwrap();
    assert!(children_of(&id, &bad).is_none());
}

#[test]
fn read_only_store_reads_and_takes_no_writes() {
    let mut inner = MemoryStore::new();
    let held = put(&mut inner, HashKind::Blake2b256, IPLD_RAW, b"held").unwrap();
    let mut sealed = ReadOnly::new(inner);
    assert_eq!(sealed.get(&held), Ok(Some(b"held".to_vec())));
    assert_eq!(sealed.has(&held), Ok(true));
    assert_eq!(sealed.put_keyed(&held, b"other"), Err(StoreFault));
    // A block that is held needs no write.
    assert!(put(&mut sealed, HashKind::Blake2b256, IPLD_RAW, b"held").unwrap().same(&held));
    assert_eq!(put(&mut sealed, HashKind::Blake2b256, IPLD_RAW, b"new").err(), Some(StoreFault));
    assert_eq!(sealed.get(&held), Ok(Some(b"held".to_vec())));

    let mut buffered = BufferedStore::new(sealed);
    let root = stage(&mut buffered, &node(&[&held], 1));
    assert_eq!(buffered.flush(&root), Err(ClosureError::Store(StoreFault)));
    assert_eq!(buffered.into_inner().into_inner().len(), 1);
}
