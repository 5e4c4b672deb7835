use hamt_rs::block::BlockElement;
use hamt_rs::cid::Cid;
use hamt_rs::cidstore::{BlockLog, CidStore, MemStore};
use hamt_rs::error::HashMapError;
use hamt_rs::hamt::HashMap;
use hamt_rs::query::RootMapBlock;
use hamt_rs::tree::IpldHashMap;

fn hex(text: &str) -> Vec<u8> {
    let digits: Vec<u8> = text
        .bytes()
        .map(|c| if c <= b'9' { c - b'0' } else { c - b'a' + 10 })
        .collect();
    digits.chunks(2).map(|pair| pair[0] * 16 + pair[1]).collect()
}

/// The identifier of the block that holds the text `true`.
fn value() -> Cid {
    Cid::of_block(&[0x64, b't', b'r', b'u', b'e'])
}

fn root_of(tree: &IpldHashMap) -> (Cid, MemStore) {
    let mut store = MemStore::new();
    let cid = tree.collapse(&mut store).unwrap();
    (cid, store)
}

#[test]
fn forwards_backwards_insert() {
    let store = MemStore::new();
    let mut map = HashMap::new(store);

    let store = MemStore::new();
    let mut map2 = HashMap::new(store);

    for key in 0..1000 {
        let key = key.to_string().into_bytes();
        map.insert(key, value()).unwrap();
    }
    for key in (0..1000).rev() {
        let key = key.to_string().into_bytes();
        map2.insert(key, value()).unwrap();
    }

    assert_eq!(map.cid().unwrap(), map2.cid().unwrap());
}

#[test]
fn thousand_keys_have_the_known_root() {
    let mut tree = IpldHashMap::new(5, 3);
    for key in 0..1000 {
        tree.set(key.to_string().into_bytes().into_boxed_slice(), value()).unwrap();
    }
    let (cid, store) = root_of(&tree);
    assert_eq!(
        cid.to_string(),
        "bafyreidblbnue7ls4gzmwgcujrz3iukjnhqgncgguxuz5nxjp2kpoexhyy"
    );
    assert_eq!(store.len(), 53);
}

#[test]
fn empty_tree_has_the_known_root_block() {
    let tree = IpldHashMap::new(5, 3);
    let (cid, store) = root_of(&tree);
    let block = store.get(&cid).unwrap().clone();
    assert_eq!(
        block,
        hex("a36468616d74824400000000806768617368416c67126a6275636b657453697a651820")
    );
    assert_eq!(
        cid.to_string(),
        "bafyreigoyakbxhu6544z6g4j2dfeoiejsmoommvj7r4m6sfarcvpk7bufm"
    );
    assert_eq!(store.len(), 1);
    let root = RootMapBlock::decode(&block).unwrap();
    assert_eq!(root.root().bitmap(), vec![0u8; 4]);
    assert_eq!(root.root().occupied(), 0);
}

#[test]
fn single_key_is_found_and_another_is_not() {
    let mut tree = IpldHashMap::new(5, 3);
    tree.set(b"hello".to_vec().into_boxed_slice(), value()).unwrap();
    assert_eq!(tree.get(b"hello"), Some(&value()));
    assert_eq!(tree.get(b"world"), None);
    let (cid, store) = root_of(&tree);
    assert_eq!(
        *store.get(&cid).unwrap(),
        hex("a36468616d748244040000008181824568656c6c6fd82a58250001711220fd47f6d2cb0c83328df7137afd0a6ec9e710f07343ce40e3433bf796a79b60106768617368416c67126a6275636b657453697a651820")
    );
    assert_eq!(
        cid.to_string(),
        "bafyreiau7zdrcj45hvvkndenhl2cj4jrk63t5yhqy4blq4mskvv6kbswpy"
    );
}

#[test]
fn three_keys_of_one_slot_fill_a_bucket() {
    let mut tree = IpldHashMap::new(5, 3);
    for key in ["51", "55", "149"] {
        tree.set(key.as_bytes().to_vec().into_boxed_slice(), value()).unwrap();
    }
    let (cid, store) = root_of(&tree);
    assert_eq!(store.len(), 1);
    let root = RootMapBlock::decode(&store.get(&cid).unwrap()).unwrap();
    assert_eq!(root.root().elements.len(), 32);
    assert_eq!(root.root().occupied(), 1);
    match &root.root().elements[0] {
        Some(BlockElement::Bucket(pairs)) => {
            assert_eq!(pairs.len(), 3);
            assert_eq!(pairs[0].key, b"149".to_vec());
            assert_eq!(pairs[1].key, b"51".to_vec());
            assert_eq!(pairs[2].key, b"55".to_vec());
            assert_eq!(pairs[0].value, value());
        }
        other => panic!("slot 0 holds {:?}", other),
    }
    for slot in 1..32 {
        assert!(root.root().elements[slot].is_none());
    }
    assert_eq!(
        cid.to_string(),
        "bafyreibyzxa3yboqtvilqmsc326zgjzi5ewkvmzegaxh333pa7g4qofzzm"
    );
}

#[test]
fn fourth_key_of_one_slot_splits_the_bucket() {
    let mut tree = IpldHashMap::new(5, 3);
    for key in ["51", "55", "149", "152"] {
        tree.set(key.as_bytes().to_vec().into_boxed_slice(), value()).unwrap();
    }
    let (cid, store) = root_of(&tree);
    assert_eq!(store.len(), 2);
    let root = RootMapBlock::decode(&store.get(&cid).unwrap()).unwrap();
    assert_eq!(root.root().occupied(), 1);
    match &root.root().elements[0] {
        Some(BlockElement::Node(child)) => {
            assert_eq!(
                child.to_string(),
                "bafyreibfnuaduw6doum352y25ajoep67fjnefgt7ditqwyfetzqpywh3li"
            );
            assert_eq!(
                *store.get(child).unwrap(),
                hex("824400188200848182423535d82a58250001711220fd47f6d2cb0c83328df7137afd0a6ec9e710f07343ce40e3433bf796a79b60108182423531d82a58250001711220fd47f6d2cb0c83328df7137afd0a6ec9e710f07343ce40e3433bf796a79b6010818243313532d82a58250001711220fd47f6d2cb0c83328df7137afd0a6ec9e710f07343ce40e3433bf796a79b6010818243313439d82a58250001711220fd47f6d2cb0c83328df7137afd0a6ec9e710f07343ce40e3433bf796a79b6010")
            );
        }
        other => panic!("slot 0 holds {:?}", other),
    }
    assert_eq!(
        cid.to_string(),
        "bafyreifp23xnsazpxrif45hsobkiqw3stid63fdpofepnwwhtihbwnljby"
    );
    for key in ["51", "55", "149", "152"] {
        assert_eq!(tree.get(key.as_bytes()), Some(&value()));
    }
}

#[test]
fn storing_a_pair_twice_changes_nothing() {
    let mut once = IpldHashMap::new(5, 3);
    let mut twice = IpldHashMap::new(5, 3);
    for key in 0..50 {
        once.set(key.to_string().into_bytes().into_boxed_slice(), value()).unwrap();
        twice.set(key.to_string().into_bytes().into_boxed_slice(), value()).unwrap();
    }
    once.set(b"7".to_vec().into_boxed_slice(), Cid::of_block(b"seven")).unwrap();
    twice.set(b"7".to_vec().into_boxed_slice(), Cid::of_block(b"seven")).unwrap();
    twice.set(b"7".to_vec().into_boxed_slice(), Cid::of_block(b"seven")).unwrap();
    assert_eq!(root_of(&once).0, root_of(&twice).0);
}

#[test]
fn overwriting_a_key_of_a_full_bucket_does_not_split_it() {
    let mut tree = IpldHashMap::new(5, 3);
    for key in ["51", "55", "149"] {
        tree.set(key.as_bytes().to_vec().into_boxed_slice(), Cid::of_block(b"old")).unwrap();
    }
    for key in ["51", "55", "149"] {
        tree.set(key.as_bytes().to_vec().into_boxed_slice(), value()).unwrap();
    }
    let (cid, store) = root_of(&tree);
    assert_eq!(store.len(), 1);
    assert_eq!(
        cid.to_string(),
        "bafyreibyzxa3yboqtvilqmsc326zgjzi5ewkvmzegaxh333pa7g4qofzzm"
    );
}

#[test]
fn the_last_value_stored_under_a_key_wins() {
    let mut once = IpldHashMap::new(5, 3);
    let mut twice = IpldHashMap::new(5, 3);
    for key in 0..50 {
        once.set(key.to_string().into_bytes().into_boxed_slice(), value()).unwrap();
        twice.set(key.to_string().into_bytes().into_boxed_slice(), value()).unwrap();
    }
    once.set(b"7".to_vec().into_boxed_slice(), Cid::of_block(b"later")).unwrap();
    twice.set(b"7".to_vec().into_boxed_slice(), Cid::of_block(b"earlier")).unwrap();
    twice.set(b"7".to_vec().into_boxed_slice(), Cid::of_block(b"later")).unwrap();
    assert_eq!(twice.get(b"7"), Some(&Cid::of_block(b"later")));
    assert_eq!(root_of(&once).0, root_of(&twice).0);
}

#[test]
fn every_key_stored_is_found_and_no_other() {
    let mut tree = IpldHashMap::new(3, 2);
    for key in 0..300 {
        let key = key.to_string().into_bytes();
        let cid = Cid::of_block(&key);
        tree.set(key.into_boxed_slice(), cid).unwrap();
    }
    for key in 0..300 {
        let key = key.to_string().into_bytes();
        assert_eq!(tree.get(&key), Some(&Cid::of_block(&key)));
    }
    for key in 300..400 {
        assert_eq!(tree.get(key.to_string().as_bytes()), None);
    }
}

#[test]
fn every_width_keeps_what_is_stored() {
    for width in 1..=8 {
        let mut tree = IpldHashMap::new(width, 1);
        for key in 0..200 {
            let key = key.to_string().into_bytes();
            let cid = Cid::of_block(&key);
            tree.set(key.into_boxed_slice(), cid).unwrap();
        }
        for key in 0..200 {
            let key = key.to_string().into_bytes();
            assert_eq!(tree.get(&key), Some(&Cid::of_block(&key)));
        }
        assert_eq!(tree.get(b"never"), None);
    }
}

#[test]
fn blocks_are_written_children_first() {
    let mut tree = IpldHashMap::new(5, 3);
    for key in 0..1000 {
        tree.set(key.to_string().into_bytes().into_boxed_slice(), value()).unwrap();
    }
    let (cid, store) = root_of(&tree);
    let root = RootMapBlock::decode(&store.get(&cid).unwrap()).unwrap();
    for element in &root.root().elements {
        if let Some(BlockElement::Node(child)) = element {
            assert!(store.get(child).is_some());
        }
    }
}

#[test]
fn shards_stitch_to_the_root_of_the_whole() {
    let keys: Vec<Vec<u8>> = (0..100).map(|key: u32| key.to_string().into_bytes()).collect();
    let mut whole = IpldHashMap::new(2, 1);
    for key in &keys {
        whole.set(key.clone().into_boxed_slice(), Cid::of_block(key)).unwrap();
    }
    let (whole_cid, whole_store) = root_of(&whole);
    assert_eq!(
        whole_cid.to_string(),
        "bafyreiaqcl2ne6w5xcqqhbneax2i6hgluke3jxxrracb2ryngiqcm4tydm"
    );

    let mut store = MemStore::new();
    let mut shards = Vec::new();
    for prefix in 0..4usize {
        let mut shard = IpldHashMap::new(2, 1);
        for key in &keys {
            let digest = hamt_rs::hash::sha2_256(key);
            if hamt_rs::bits::slot_index(&digest, 0, 2) == prefix {
                shard.set(key.clone().into_boxed_slice(), Cid::of_block(key)).unwrap();
            }
        }
        shards.push(shard.collapse_partial(&mut store).unwrap());
    }
    let stitched = whole
        .serialize_root_of_subtrees(&mut store, shards)
        .unwrap();
    assert_eq!(stitched, whole_cid);
    assert_eq!(store.len(), whole_store.len());
    assert_eq!(store.get(&stitched), whole_store.get(&whole_cid));
}

#[test]
fn a_shard_must_be_a_single_subtree() {
    let mut store = MemStore::new();
    let empty = IpldHashMap::new(5, 3);
    assert_eq!(
        empty.collapse_partial(&mut store),
        Err(HashMapError::ShardShape)
    );

    let mut bucket = IpldHashMap::new(5, 3);
    bucket.set(b"51".to_vec().into_boxed_slice(), value()).unwrap();
    assert_eq!(
        bucket.collapse_partial(&mut store),
        Err(HashMapError::ShardShape)
    );

    let mut two = IpldHashMap::new(5, 3);
    for key in 0..100 {
        two.set(key.to_string().into_bytes().into_boxed_slice(), value()).unwrap();
    }
    assert_eq!(
        two.collapse_partial(&mut store),
        Err(HashMapError::ShardShape)
    );
    assert_eq!(store.len(), 0);

    let mut shard = IpldHashMap::new(5, 3);
    for key in ["51", "55", "149", "152"] {
        shard.set(key.as_bytes().to_vec().into_boxed_slice(), value()).unwrap();
    }
    assert_eq!(
        shard.collapse_partial(&mut store).unwrap().to_string(),
        "bafyreibfnuaduw6doum352y25ajoep67fjnefgt7ditqwyfetzqpywh3li"
    );
    assert_eq!(store.len(), 1);
}

#[test]
fn stitching_wants_one_subtree_for_each_slot() {
    let tree = IpldHashMap::new(5, 3);
    let mut store = MemStore::new();
    let few: Vec<Cid> = (0..31u8).map(|i| Cid::of_block(&[i])).collect();
    assert_eq!(
        tree.serialize_root_of_subtrees(&mut store, few),
        Err(HashMapError::StitchArity)
    );
    let many: Vec<Cid> = (0..33u8).map(|i| Cid::of_block(&[i])).collect();
    assert_eq!(
        tree.serialize_root_of_subtrees(&mut store, many),
        Err(HashMapError::StitchArity)
    );
    assert_eq!(store.len(), 0);
    let right: Vec<Cid> = (0..32u8).map(|i| Cid::of_block(&[i])).collect();
    let cid = tree.serialize_root_of_subtrees(&mut store, right).unwrap();
    let root = RootMapBlock::decode(&store.get(&cid).unwrap()).unwrap();
    assert_eq!(root.root().bitmap(), vec![0xffu8; 4]);
    assert_eq!(root.root().occupied(), 32);
    assert_eq!(root.width(), 5);
}

#[test]
fn a_store_that_is_full_stops_the_collapse() {
    let mut tree = IpldHashMap::new(5, 3);
    for key in 0..1000 {
        tree.set(key.to_string().into_bytes().into_boxed_slice(), value()).unwrap();
    }
    let mut store = MemStore::bounded(10);
    assert_eq!(tree.collapse(&mut store), Err(HashMapError::SinkIO));
    assert_eq!(store.len(), 10);

    let mut store = MemStore::bounded(0);
    let subtrees: Vec<Cid> = (0..32u8).map(|i| Cid::of_block(&[i])).collect();
    assert_eq!(
        tree.serialize_root_of_subtrees(&mut store, subtrees),
        Err(HashMapError::SinkIO)
    );
    assert_eq!(store.len(), 0);

    let mut store = MemStore::bounded(53);
    assert!(tree.collapse(&mut store).is_ok());
    assert_eq!(store.len(), 53);
}

#[test]
fn shards_write_the_blocks_of_the_whole_block_for_block() {
    let keys: Vec<Vec<u8>> = (0..300).map(|key: u32| key.to_string().into_bytes()).collect();
    let mut whole = IpldHashMap::new(3, 2);
    for key in &keys {
        whole.set(key.clone().into_boxed_slice(), Cid::of_block(key)).unwrap();
    }
    let mut sequential = BlockLog::new();
    let whole_cid = whole.collapse(&mut sequential).unwrap();

    let mut sharded = BlockLog::new();
    let mut shards = Vec::new();
    for prefix in 0..8usize {
        let mut shard = IpldHashMap::new(3, 2);
        for key in &keys {
            let digest = hamt_rs::hash::sha2_256(key);
            if hamt_rs::bits::slot_index(&digest, 0, 3) == prefix {
                shard.set(key.clone().into_boxed_slice(), Cid::of_block(key)).unwrap();
            }
        }
        shards.push(shard.collapse_partial(&mut sharded).unwrap());
    }
    let stitched = whole.serialize_root_of_subtrees(&mut sharded, shards).unwrap();
    assert_eq!(stitched, whole_cid);

    let sequential = sequential.into_blocks();
    let sharded = sharded.into_blocks();
    assert!(sequential.len() > 9);
    assert_eq!(sharded.len(), sequential.len());
    for (one, other) in sharded.iter().zip(sequential.iter()) {
        assert_eq!(one.cid, other.cid);
        assert_eq!(one.bytes, other.bytes);
    }
}
