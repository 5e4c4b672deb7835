use hamt_rs::block::{BlockElement, MapBlock};
use hamt_rs::cid::Cid;
use hamt_rs::cidstore::{BlockLog, CidStore};
use hamt_rs::error::HashMapError;
use hamt_rs::node::Node;
use hamt_rs::options::HashMapOptions;

fn options(width: usize, bucket_size: usize) -> HashMapOptions {
    HashMapOptions::new(width, bucket_size).unwrap()
}

/// The block of a node and the blocks below it.
fn blocks_of(node: &Node) -> (Cid, BlockLog) {
    let mut log = BlockLog::new();
    let cid = node.collapse(&mut log).unwrap();
    (cid, log)
}

fn block_of(log: &BlockLog, cid: &Cid) -> MapBlock {
    MapBlock::decode(log.get(cid).unwrap()).unwrap()
}

/// A digest that starts with the given bytes and goes on with zeros.
fn digest(start: &[u8]) -> Vec<u8> {
    let mut digest = start.to_vec();
    digest.resize(32, 0);
    digest
}

#[test]
fn lookup_with_a_width_that_the_node_does_not_have_is_out_of_bounds() {
    let node = Node::new(5);
    let ones = vec![0xffu8; 32];
    assert_eq!(
        node.get(b"a", &ones, 0, &options(6, 3)),
        Err(HashMapError::OutOfBounds)
    );
    // the same digest selects slot 31 where five bits are read
    assert_eq!(node.get(b"a", &ones, 0, &options(5, 3)), Ok(None));
    // a slot that the node has is looked at, whatever the width
    assert_eq!(node.get(b"a", &digest(&[]), 0, &options(6, 3)), Ok(None));
}

#[test]
fn insert_with_a_width_that_the_node_does_not_have_changes_nothing() {
    let mut node = Node::new(5);
    let empty = blocks_of(&node).0;
    let ones = vec![0xffu8; 32];
    assert_eq!(
        node.set(b"a".to_vec(), Cid::of_block(b"x"), ones.clone(), 0, &options(6, 3)),
        Err(HashMapError::OutOfBounds)
    );
    assert_eq!(blocks_of(&node).0, empty);
    assert_eq!(node.get(b"a", &ones, 0, &options(5, 3)), Ok(None));
}

#[test]
fn insert_that_fails_below_changes_nothing() {
    // four keys of one slot make a child of 32 slots; with six bits a level the second
    // group of bits of the digest selects slot 63 in it
    let five = options(5, 3);
    let mut node = Node::new(5);
    for (i, key) in ["a", "b", "c", "d"].iter().enumerate() {
        node.set(
            key.as_bytes().to_vec(),
            Cid::of_block(key.as_bytes()),
            digest(&[0, i as u8]),
            0,
            &five,
        )
        .unwrap();
    }
    let before = blocks_of(&node).0;
    let far = digest(&[0b0000_0011, 0b1111_0000]);
    assert_eq!(
        node.set(b"e".to_vec(), Cid::of_block(b"e"), far.clone(), 0, &options(6, 3)),
        Err(HashMapError::OutOfBounds)
    );
    assert_eq!(node.get(b"e", &far, 0, &options(6, 3)), Err(HashMapError::OutOfBounds));
    assert_eq!(blocks_of(&node).0, before);
}

#[test]
fn lookup_past_the_end_of_the_digest_finds_no_value() {
    let node = Node::new(5);
    let five = options(5, 3);
    let zeros = digest(&[]);
    assert_eq!(node.get(b"a", &zeros, 50, &five), Ok(None));
    assert_eq!(node.get(b"a", &zeros, 51, &five), Err(HashMapError::BadDigest));
    assert_eq!(node.get(b"a", &zeros, 52, &five), Err(HashMapError::BadDigest));
    assert_eq!(
        node.get(b"a", &zeros, usize::MAX, &five),
        Err(HashMapError::BadDigest)
    );
    let byte = Node::new(8);
    let eight = options(8, 3);
    assert_eq!(byte.get(b"a", &zeros, 31, &eight), Ok(None));
    assert_eq!(byte.get(b"a", &zeros, 32, &eight), Err(HashMapError::BadDigest));
}

#[test]
fn digest_of_another_length_is_a_bad_digest() {
    let mut node = Node::new(5);
    let five = options(5, 3);
    for len in [0usize, 31, 33, 64] {
        let digest = vec![0u8; len];
        assert_eq!(node.get(b"a", &digest, 0, &five), Err(HashMapError::BadDigest));
        assert_eq!(
            node.set(b"a".to_vec(), Cid::of_block(b"x"), digest, 0, &five),
            Err(HashMapError::BadDigest)
        );
    }
    assert_eq!(blocks_of(&node).0, blocks_of(&Node::new(5)).0);
}

#[test]
fn pairs_stand_where_the_digest_handed_in_leads() {
    let five = options(5, 3);
    let mut node = Node::new(5);
    // the first five bits are 00001, 00001 and 11111
    node.set(b"x".to_vec(), Cid::of_block(b"1"), digest(&[0b0000_1000]), 0, &five)
        .unwrap();
    node.set(b"w".to_vec(), Cid::of_block(b"2"), digest(&[0b0000_1111]), 0, &five)
        .unwrap();
    node.set(b"y".to_vec(), Cid::of_block(b"3"), digest(&[0b1111_1000]), 0, &five)
        .unwrap();
    let (cid, log) = blocks_of(&node);
    assert_eq!(log.len(), 1);
    let block = block_of(&log, &cid);
    assert_eq!(block.bitmap(), vec![0b0100_0000, 0, 0, 0b0000_0001]);
    match &block.elements[1] {
        Some(BlockElement::Bucket(pairs)) => {
            assert_eq!(pairs.len(), 2);
            assert_eq!(pairs[0].key, b"w".to_vec());
            assert_eq!(pairs[1].key, b"x".to_vec());
        }
        other => panic!("{:?}", other),
    }
    match &block.elements[31] {
        Some(BlockElement::Bucket(pairs)) => assert_eq!(pairs.len(), 1),
        other => panic!("{:?}", other),
    }
    assert_eq!(
        node.get(b"x", &digest(&[0b0000_1000]), 0, &five),
        Ok(Some(&Cid::of_block(b"1")))
    );
    // the key is looked for where the digest leads, and nowhere else
    assert_eq!(node.get(b"x", &digest(&[0b1111_1000]), 0, &five), Ok(None));
    assert_eq!(node.get(b"x", &digest(&[0b0001_0000]), 0, &five), Ok(None));
}

#[test]
fn full_bucket_becomes_a_child_that_holds_its_pairs() {
    let five = options(5, 3);
    let mut node = Node::new(5);
    // all in slot 0 of the root; in the child in the slots 1, 2, 2 and 3
    let digests = [
        digest(&[0b0000_0000, 0b0100_0000]),
        digest(&[0b0000_0000, 0b1000_0000]),
        digest(&[0b0000_0000, 0b1000_0001]),
        digest(&[0b0000_0000, 0b1100_0000]),
    ];
    let keys = ["a", "b", "c", "d"];
    for i in 0..3 {
        node.set(keys[i].as_bytes().to_vec(), Cid::of_block(&[i as u8]), digests[i].clone(), 0, &five)
            .unwrap();
    }
    let (cid, log) = blocks_of(&node);
    assert_eq!(log.len(), 1);
    assert!(matches!(
        &block_of(&log, &cid).elements[0],
        Some(BlockElement::Bucket(pairs)) if pairs.len() == 3
    ));
    // the same key again is no new pair
    node.set(b"b".to_vec(), Cid::of_block(&[1]), digests[1].clone(), 0, &five)
        .unwrap();
    assert_eq!(blocks_of(&node).1.len(), 1);
    node.set(b"d".to_vec(), Cid::of_block(&[3]), digests[3].clone(), 0, &five)
        .unwrap();
    let (cid, log) = blocks_of(&node);
    assert_eq!(log.len(), 2);
    let root = block_of(&log, &cid);
    assert_eq!(root.occupied(), 1);
    let child = match &root.elements[0] {
        Some(BlockElement::Node(child)) => block_of(&log, child),
        other => panic!("{:?}", other),
    };
    assert_eq!(child.occupied(), 3);
    assert!(matches!(&child.elements[1], Some(BlockElement::Bucket(p)) if p.len() == 1));
    assert!(matches!(&child.elements[2], Some(BlockElement::Bucket(p)) if p.len() == 2));
    assert!(matches!(&child.elements[3], Some(BlockElement::Bucket(p)) if p.len() == 1));
    for i in 0..4 {
        assert_eq!(
            node.get(keys[i].as_bytes(), &digests[i], 0, &five),
            Ok(Some(&Cid::of_block(&[i as u8])))
        );
    }
}

#[test]
fn keys_with_one_digest_gather_in_a_bucket_at_the_last_level() {
    let eight = options(8, 1);
    let mut node = Node::new(8);
    let same = vec![7u8; 32];
    for key in 0..5u8 {
        node.set(vec![key], Cid::of_block(&[key]), same.clone(), 0, &eight)
            .unwrap();
    }
    for key in 0..5u8 {
        assert_eq!(
            node.get(&[key], &same, 0, &eight),
            Ok(Some(&Cid::of_block(&[key])))
        );
    }
    assert_eq!(node.get(&[5], &same, 0, &eight), Ok(None));
    // 32 nodes, one for each byte of the digest, and the bucket in the last of them
    let (cid, log) = blocks_of(&node);
    assert_eq!(log.len(), 32);
    let mut block = block_of(&log, &cid);
    for _ in 0..31 {
        assert_eq!(block.occupied(), 1);
        block = match &block.elements[7] {
            Some(BlockElement::Node(child)) => block_of(&log, child),
            other => panic!("{:?}", other),
        };
    }
    match &block.elements[7] {
        Some(BlockElement::Bucket(pairs)) => {
            assert_eq!(pairs.len(), 5);
            for (i, pair) in pairs.iter().enumerate() {
                assert_eq!(pair.key, vec![i as u8]);
            }
        }
        other => panic!("{:?}", other),
    }
}

/// The number of pairs in the block `cid` and below it, after a look at each node on the
/// way: it has a slot for each value of `width` bits, and each of its buckets holds at most
/// `bucket_size` pairs, in strictly ascending order of their keys.
fn pairs_below(log: &BlockLog, cid: &Cid, width: usize, bucket_size: usize) -> usize {
    let block = block_of(log, cid);
    assert_eq!(block.elements.len(), 1 << width);
    let mut pairs = 0;
    for element in &block.elements {
        match element {
            None => {}
            Some(BlockElement::Bucket(bucket)) => {
                assert!(1 <= bucket.len() && bucket.len() <= bucket_size);
                for j in 1..bucket.len() {
                    assert!(bucket[j - 1].key < bucket[j].key);
                }
                pairs += bucket.len();
            }
            Some(BlockElement::Node(child)) => {
                pairs += pairs_below(log, child, width, bucket_size);
            }
        }
    }
    pairs
}

#[test]
fn insert_adds_one_pair_for_a_new_key_and_none_for_a_key_that_is_there() {
    let four = options(4, 2);
    let mut node = Node::new(4);
    let mut state: u32 = 12345;
    let mut stored: Vec<(Vec<u8>, Vec<u8>)> = Vec::new();
    for round in 0..200u32 {
        // digests made up for the purpose, with few values in their first bytes
        let mut way = vec![0u8; 32];
        for byte in way.iter_mut().take(6) {
            state = state.wrapping_mul(1664525).wrapping_add(1013904223);
            *byte = ((state >> 24) as u8) & 0x33;
        }
        let key = vec![(round % 50) as u8, (round % 7) as u8];
        // a key keeps the digest that it was first stored with
        let known = stored.iter().find(|pair| pair.0 == key).map(|pair| pair.1.clone());
        let way = known.clone().unwrap_or(way);
        let before = {
            let (cid, log) = blocks_of(&node);
            pairs_below(&log, &cid, 4, 2)
        };
        assert_eq!(before, stored.len());
        let present = node.get(&key, &way, 0, &four).unwrap().is_some();
        assert_eq!(present, known.is_some());
        node.set(key.clone(), Cid::of_block(&round.to_be_bytes()), way.clone(), 0, &four)
            .unwrap();
        let after = {
            let (cid, log) = blocks_of(&node);
            pairs_below(&log, &cid, 4, 2)
        };
        assert_eq!(after, before + if present { 0 } else { 1 });
        assert_eq!(
            node.get(&key, &way, 0, &four),
            Ok(Some(&Cid::of_block(&round.to_be_bytes())))
        );
        if !present {
            stored.push((key, way));
        }
    }
    assert!(stored.len() > 50);
    for (key, way) in &stored {
        assert!(node.get(key, way, 0, &four).unwrap().is_some());
    }
}

#[test]
fn insert_under_another_digest_adds_a_pair_where_that_digest_leads() {
    // the node follows the digest it is handed: the same key under a digest that leads
    // elsewhere is not found there, and is stored there as a pair of its own
    let five = options(5, 3);
    let mut node = Node::new(5);
    let here = digest(&[0b0000_1000]);
    let there = digest(&[0b0001_0000]);
    node.set(b"k".to_vec(), Cid::of_block(b"1"), here.clone(), 0, &five).unwrap();
    assert_eq!(node.get(b"k", &there, 0, &five), Ok(None));
    node.set(b"k".to_vec(), Cid::of_block(b"2"), there.clone(), 0, &five).unwrap();
    let (cid, log) = blocks_of(&node);
    assert_eq!(pairs_below(&log, &cid, 5, 3), 2);
    assert_eq!(node.get(b"k", &here, 0, &five), Ok(Some(&Cid::of_block(b"1"))));
    assert_eq!(node.get(b"k", &there, 0, &five), Ok(Some(&Cid::of_block(b"2"))));
}
