use hamt_rs::cid::Cid;
use hamt_rs::block::{BlockElement, MapBlock};
use hamt_rs::cidstore::{BlockLog, CidStore, MemStore};
use hamt_rs::query::RootMapBlock;
use hamt_rs::tree::IpldHashMap;
use hamt_rs::error::HashMapError;
use hamt_rs::hamt::HashMap;
use hamt_rs::key::{key_order, KeyOrder};
use hamt_rs::options::HashMapOptions;

#[test]
fn store_keeps_a_block_under_its_identifier() {
    let mut store = MemStore::new();
    let one = Cid::of_block(b"one");
    let two = Cid::of_block(b"two");
    assert_eq!(store.get(&one), None);
    assert_eq!(store.insert(&one, b"one".to_vec()), Ok(None));
    assert_eq!(store.insert(&two, b"two".to_vec()), Ok(None));
    assert_eq!(store.len(), 2);
    assert_eq!(store.get(&one), Some(&b"one".to_vec()));
    assert_eq!(store.get(&two), Some(&b"two".to_vec()));
}

#[test]
fn store_hands_back_what_a_block_replaces() {
    let mut store = MemStore::new();
    let one = Cid::of_block(b"one");
    assert_eq!(store.insert(&one, b"first".to_vec()), Ok(None));
    assert_eq!(
        store.insert(&one, b"second".to_vec()),
        Ok(Some(b"first".to_vec()))
    );
    assert_eq!(store.len(), 1);
    assert_eq!(store.get(&one), Some(&b"second".to_vec()));
}

#[test]
fn store_gives_up_a_block_that_is_removed() {
    let mut store = MemStore::new();
    let one = Cid::of_block(b"one");
    let two = Cid::of_block(b"two");
    let three = Cid::of_block(b"three");
    store.insert(&one, b"one".to_vec()).unwrap();
    store.insert(&two, b"two".to_vec()).unwrap();
    store.insert(&three, b"three".to_vec()).unwrap();
    assert_eq!(store.remove(&one), Some(b"one".to_vec()));
    assert_eq!(store.remove(&one), None);
    assert_eq!(store.get(&one), None);
    assert_eq!(store.get(&two), Some(&b"two".to_vec()));
    assert_eq!(store.get(&three), Some(&b"three".to_vec()));
    assert_eq!(store.len(), 2);
}

#[test]
fn bounded_store_refuses_the_block_that_is_one_too_many() {
    let mut store = MemStore::bounded(1);
    let one = Cid::of_block(b"one");
    let two = Cid::of_block(b"two");
    assert_eq!(store.insert(&one, b"one".to_vec()), Ok(None));
    assert_eq!(store.insert(&two, b"two".to_vec()), Err(HashMapError::SinkIO));
    assert_eq!(store.get(&two), None);
    assert_eq!(
        store.insert(&one, b"again".to_vec()),
        Ok(Some(b"one".to_vec()))
    );
    assert_eq!(store.len(), 1);
}

#[test]
fn tree_over_a_store_writes_its_blocks_there() {
    let mut map = HashMap::new(MemStore::new());
    assert_eq!(map.parameters().bit_width, 5);
    assert_eq!(map.parameters().bucket_size, 3);
    assert_eq!(map.parameters().hash_alg, 0x12);
    for key in 0..1000 {
        map.insert(key.to_string().into_bytes(), Cid::of_block(&[0x64, b't', b'r', b'u', b'e']))
            .unwrap();
    }
    assert_eq!(
        map.get(b"999".to_vec()).unwrap(),
        Some(&Cid::of_block(&[0x64, b't', b'r', b'u', b'e']))
    );
    assert_eq!(map.get(b"1000".to_vec()).unwrap(), None);
    assert_eq!(map.store().len(), 0);
    map.collapse().unwrap();
    assert_eq!(map.store().len(), 53);
    let cid = map.cid().unwrap();
    assert_eq!(
        cid.to_string(),
        "bafyreidblbnue7ls4gzmwgcujrz3iukjnhqgncgguxuz5nxjp2kpoexhyy"
    );
    let map = map.edit();
    let store = map.into_store();
    assert!(store.get(&cid).is_some());
    assert_eq!(store.len(), 53);
}

#[test]
fn parameters_have_their_ranges() {
    assert!(HashMapOptions::new(0, 3).is_none());
    assert!(HashMapOptions::new(9, 3).is_none());
    assert!(HashMapOptions::new(5, 0).is_none());
    let options = HashMapOptions::new(8, 1).unwrap();
    assert_eq!(options.bit_width, 8);
    assert_eq!(options.bucket_size, 1);
    assert_eq!(options.hash_alg, 0x12);
}

#[test]
fn keys_are_ordered_byte_by_byte() {
    assert_eq!(key_order(b"", b""), KeyOrder::Same);
    assert_eq!(key_order(b"", b"a"), KeyOrder::Before);
    assert_eq!(key_order(b"a", b""), KeyOrder::After);
    assert_eq!(key_order(b"149", b"51"), KeyOrder::Before);
    assert_eq!(key_order(b"51", b"55"), KeyOrder::Before);
    assert_eq!(key_order(b"55", b"51"), KeyOrder::After);
    assert_eq!(key_order(b"5", b"51"), KeyOrder::Before);
    assert_eq!(key_order(b"51", b"51"), KeyOrder::Same);
    assert_eq!(key_order(&[0xff], &[0x00, 0xff]), KeyOrder::After);
}

#[test]
fn log_keeps_every_block_in_the_order_of_writing() {
    let mut log = BlockLog::new();
    let one = Cid::of_block(b"one");
    let two = Cid::of_block(b"two");
    assert_eq!(log.insert(&one, b"first".to_vec()), Ok(None));
    assert_eq!(log.insert(&two, b"two".to_vec()), Ok(None));
    assert_eq!(log.insert(&one, b"second".to_vec()), Ok(None));
    assert_eq!(log.len(), 3);
    assert_eq!(log.get(&one), Some(&b"second".to_vec()));
    assert_eq!(log.get(&two), Some(&b"two".to_vec()));
    assert_eq!(log.get(&Cid::of_block(b"three")), None);
    let blocks = log.into_blocks();
    assert_eq!(blocks.len(), 3);
    assert_eq!(blocks[0].cid, one);
    assert_eq!(blocks[0].bytes, b"first".to_vec());
    assert_eq!(blocks[1].cid, two);
    assert_eq!(blocks[2].cid, one);
    assert_eq!(blocks[2].bytes, b"second".to_vec());
}

#[test]
fn log_forgets_every_block_of_an_identifier_that_is_removed() {
    let mut log = BlockLog::new();
    let one = Cid::of_block(b"one");
    let two = Cid::of_block(b"two");
    log.insert(&one, b"first".to_vec()).unwrap();
    log.insert(&two, b"two".to_vec()).unwrap();
    log.insert(&one, b"second".to_vec()).unwrap();
    assert_eq!(log.remove(&one), Some(b"second".to_vec()));
    assert_eq!(log.remove(&one), None);
    assert_eq!(log.get(&one), None);
    assert_eq!(log.len(), 1);
    assert_eq!(log.get(&two), Some(&b"two".to_vec()));
}

#[test]
fn collapse_writes_every_child_before_its_parent_and_the_root_last() {
    let mut tree = IpldHashMap::new(4, 2);
    for key in 0..400 {
        tree.set(
            key.to_string().into_bytes().into_boxed_slice(),
            Cid::of_block(&[key as u8]),
        )
        .unwrap();
    }
    let mut log = BlockLog::new();
    let root = tree.collapse(&mut log).unwrap();
    let blocks = log.into_blocks();
    assert_eq!(blocks.last().unwrap().cid, root);
    for (place, block) in blocks.iter().enumerate() {
        assert_eq!(Cid::of_block(&block.bytes), block.cid);
        let node = if place + 1 == blocks.len() {
            let top = RootMapBlock::decode(&block.bytes).unwrap();
            top.root().encode()
        } else {
            block.bytes.clone()
        };
        let node = MapBlock::decode(&node).unwrap();
        for element in &node.elements {
            if let Some(BlockElement::Node(child)) = element {
                let written = blocks.iter().position(|b| b.cid == *child).unwrap();
                assert!(written < place);
            }
        }
    }

    let mut store = MemStore::new();
    assert_eq!(tree.collapse(&mut store), Ok(root));
    assert_eq!(store.len(), blocks.len());
}
