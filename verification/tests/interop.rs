use hamt_rs::block::{BlockElement, MapBlock};
use hamt_rs::cid::Cid;
use hamt_rs::cidstore::{BlockLog, CidStore};
use hamt_rs::key::{key_order, KeyOrder};
use hamt_rs::query::RootMapBlock;
use hamt_rs::tree::IpldHashMap;
use std::convert::TryFrom;

fn tree_of(width: usize, bucket_size: usize, keys: u32) -> IpldHashMap {
    let mut tree = IpldHashMap::new(width, bucket_size);
    for key in 0..keys {
        let key = key.to_string().into_bytes();
        let cid = Cid::of_block(&key);
        tree.set(key.into_boxed_slice(), cid).unwrap();
    }
    tree
}

#[test]
fn identifier_is_one_that_the_cid_crate_reads() {
    let ours = Cid::of_block(b"hello");
    let theirs = cid::Cid::try_from(ours.to_bytes()).unwrap();
    assert_eq!(theirs.version(), cid::Version::V1);
    assert_eq!(theirs.codec(), 0x71);
    assert_eq!(theirs.hash().code(), 0x12);
    assert_eq!(theirs.hash().digest(), &ours.digest()[..]);
    assert_eq!(theirs.to_string(), ours.to_string());
    let parsed = cid::Cid::try_from(ours.to_string().as_str()).unwrap();
    assert_eq!(parsed, theirs);
}

#[test]
fn root_block_is_cbor_that_a_decoder_reads() {
    let mut tree = IpldHashMap::new(5, 3);
    let value = Cid::of_block(b"value");
    tree.set(b"hello".to_vec().into_boxed_slice(), value.clone())
        .unwrap();
    let mut log = BlockLog::new();
    let root = tree.collapse(&mut log).unwrap();
    let bytes = log.get(&root).unwrap();

    let mut d = minicbor::Decoder::new(&bytes);
    assert_eq!(d.map().unwrap(), Some(3));
    assert_eq!(d.str().unwrap(), "hamt");
    assert_eq!(d.array().unwrap(), Some(2));
    assert_eq!(d.bytes().unwrap(), &[0x04, 0x00, 0x00, 0x00]);
    assert_eq!(d.array().unwrap(), Some(1));
    assert_eq!(d.array().unwrap(), Some(1));
    assert_eq!(d.array().unwrap(), Some(2));
    assert_eq!(d.bytes().unwrap(), b"hello");
    assert_eq!(d.tag().unwrap(), minicbor::data::Tag::Unassigned(42));
    let link = d.bytes().unwrap();
    assert_eq!(link[0], 0);
    assert_eq!(&link[1..], &value.to_bytes()[..]);
    assert_eq!(d.str().unwrap(), "hashAlg");
    assert_eq!(d.u64().unwrap(), 0x12);
    assert_eq!(d.str().unwrap(), "bucketSize");
    assert_eq!(d.u64().unwrap(), 32);
    assert_eq!(d.position(), bytes.len());
}

#[test]
fn every_bucket_keeps_the_bucket_invariant() {
    for (width, bucket_size) in [(3, 1), (4, 2), (5, 3), (8, 3), (5, 7)] {
        let tree = tree_of(width, bucket_size, 2000);
        let mut log = BlockLog::new();
        let root = tree.collapse(&mut log).unwrap();
        let blocks = log.into_blocks();
        let mut buckets = 0;
        for block in &blocks {
            let node = if block.cid == root {
                MapBlock::decode(&RootMapBlock::decode(&block.bytes).unwrap().root().encode())
                    .unwrap()
            } else {
                MapBlock::decode(&block.bytes).unwrap()
            };
            assert_eq!(node.elements.len(), 1 << width);
            let bits: u32 = node.bitmap().iter().map(|byte| byte.count_ones()).sum();
            let items = node.elements.iter().filter(|e| e.is_some()).count();
            assert_eq!(bits as usize, items);
            assert_eq!(node.occupied(), items);
            for element in &node.elements {
                if let Some(BlockElement::Bucket(pairs)) = element {
                    buckets += 1;
                    assert!(!pairs.is_empty());
                    assert!(pairs.len() <= bucket_size);
                    for pair in pairs.windows(2) {
                        assert_eq!(key_order(&pair[0].key, &pair[1].key), KeyOrder::Before);
                    }
                    for pair in pairs {
                        assert_eq!(pair.value, Cid::of_block(&pair.key));
                    }
                }
            }
        }
        assert!(buckets > 0);
    }
}

#[test]
fn every_key_is_in_the_bucket_that_its_digest_leads_to() {
    let tree = tree_of(5, 3, 300);
    let mut log = BlockLog::new();
    let root = tree.collapse(&mut log).unwrap();
    let top = RootMapBlock::decode(&log.get(&root).unwrap()).unwrap();
    let mut waiting: Vec<(Vec<usize>, MapBlock)> =
        vec![(Vec::new(), MapBlock::decode(&top.root().encode()).unwrap())];
    let mut seen = 0;
    while let Some((path, node)) = waiting.pop() {
        for (slot, element) in node.elements.iter().enumerate() {
            let mut here = path.clone();
            here.push(slot);
            match element {
                None => {}
                Some(BlockElement::Node(child)) => {
                    let block = MapBlock::decode(&log.get(child).unwrap()).unwrap();
                    waiting.push((here, block));
                }
                Some(BlockElement::Bucket(pairs)) => {
                    for pair in pairs {
                        let digest = hamt_rs::hash::sha2_256(&pair.key);
                        for (depth, slot) in here.iter().enumerate() {
                            assert_eq!(hamt_rs::bits::slot_index(&digest, depth, 5), *slot);
                        }
                        seen += 1;
                    }
                }
            }
        }
    }
    assert_eq!(seen, 300);
}
