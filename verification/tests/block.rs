use hamt_rs::block::{BlockElement, MapBlock, Pair};
use hamt_rs::cid::Cid;
use hamt_rs::cidstore::{CidStore, MemStore};
use hamt_rs::error::HashMapError;
use hamt_rs::hash::sha2_256;
use hamt_rs::query::{lookup, Lookup, RootMapBlock};
use hamt_rs::tree::IpldHashMap;

fn hex(text: &str) -> Vec<u8> {
    let digits: Vec<u8> = text
        .bytes()
        .map(|c| if c <= b'9' { c - b'0' } else { c - b'a' + 10 })
        .collect();
    digits.chunks(2).map(|pair| pair[0] * 16 + pair[1]).collect()
}

fn value() -> Cid {
    Cid::of_block(&[0x64, b't', b'r', b'u', b'e'])
}

fn link_bytes(cid: &Cid) -> Vec<u8> {
    let mut bytes = vec![0xd8, 0x2a, 0x58, 0x25, 0x00];
    bytes.extend(cid.to_bytes());
    bytes
}

fn empty_block(slots: usize) -> MapBlock {
    MapBlock {
        elements: (0..slots).map(|_| None).collect(),
    }
}

#[test]
fn empty_node_block_is_a_bitmap_and_an_empty_array() {
    assert_eq!(empty_block(32).encode(), hex("82440000000080"));
    assert_eq!(empty_block(8).encode(), hex("82410080"));
    assert_eq!(empty_block(256).encode().len(), 1 + 2 + 32 + 1);
}

#[test]
fn bitmap_is_packed_most_significant_bit_first() {
    let mut block = empty_block(16);
    block.elements[0] = Some(BlockElement::Node(value()));
    block.elements[9] = Some(BlockElement::Node(value()));
    block.elements[15] = Some(BlockElement::Node(value()));
    assert_eq!(block.bitmap(), vec![0b1000_0000, 0b0100_0001]);
    assert_eq!(block.occupied(), 3);
    let mut want = hex("8242804183");
    for _ in 0..3 {
        want.extend(link_bytes(&value()));
    }
    assert_eq!(block.encode(), want);
}

#[test]
fn bitmap_of_a_narrow_node_is_padded_with_zero_bits() {
    let mut block = empty_block(2);
    block.elements[1] = Some(BlockElement::Node(value()));
    assert_eq!(block.bitmap(), vec![0b0100_0000]);
    let mut block = empty_block(4);
    block.elements[3] = Some(BlockElement::Node(value()));
    assert_eq!(block.bitmap(), vec![0b0001_0000]);
}

#[test]
fn bucket_is_an_array_of_key_and_link_pairs() {
    let mut block = empty_block(8);
    block.elements[2] = Some(BlockElement::Bucket(vec![
        Pair {
            key: b"a".to_vec(),
            value: value(),
        },
        Pair {
            key: vec![7u8; 24],
            value: Cid::of_block(b"x"),
        },
    ]));
    let mut want = hex("824120818282");
    want.extend(hex("4161"));
    want.extend(link_bytes(&value()));
    want.push(0x82);
    want.extend(hex("5818"));
    want.extend(vec![7u8; 24]);
    want.extend(link_bytes(&Cid::of_block(b"x")));
    assert_eq!(block.encode(), want);
}

#[test]
fn long_keys_have_long_heads() {
    for (len, head) in [
        (23usize, hex("57")),
        (24, hex("5818")),
        (255, hex("58ff")),
        (256, hex("590100")),
        (65535, hex("59ffff")),
        (65536, hex("5a00010000")),
    ] {
        let mut block = empty_block(8);
        block.elements[0] = Some(BlockElement::Bucket(vec![Pair {
            key: vec![1u8; len],
            value: value(),
        }]));
        let mut want = hex("82418081");
        want.extend(hex("8182"));
        want.extend(head);
        want.extend(vec![1u8; len]);
        want.extend(link_bytes(&value()));
        let bytes = block.encode();
        assert_eq!(bytes, want);
        let back = MapBlock::decode(&bytes).unwrap();
        assert_eq!(back.encode(), bytes);
    }
}

#[test]
fn decoded_block_encodes_to_the_same_bytes() {
    let mut tree = IpldHashMap::new(5, 3);
    for key in 0..1000 {
        tree.set(key.to_string().into_bytes().into_boxed_slice(), value()).unwrap();
    }
    let mut store = MemStore::new();
    let root = tree.collapse(&mut store).unwrap();
    let root_bytes = store.get(&root).unwrap().clone();
    let decoded = RootMapBlock::decode(&root_bytes).unwrap();
    assert_eq!(decoded.root().encode_root(0x12, 32), root_bytes);
    let mut seen = 0;
    for element in &decoded.root().elements {
        if let Some(BlockElement::Node(child)) = element {
            let bytes = store.get(child).unwrap();
            let block = MapBlock::decode(bytes).unwrap();
            assert_eq!(block.encode(), *bytes);
            assert_eq!(Cid::of_block(bytes), *child);
            seen += 1;
        }
    }
    assert!(seen > 0);
}

#[test]
fn decode_refuses_what_is_not_a_node_block() {
    let good = hex("82440000000080");
    assert!(MapBlock::decode(&good).is_ok());
    // nothing, and a block cut short
    assert_eq!(MapBlock::decode(&[]).err(), Some(HashMapError::BadBlock));
    assert_eq!(
        MapBlock::decode(&good[..6]).err(),
        Some(HashMapError::BadBlock)
    );
    // bytes behind the block
    let mut long = good.clone();
    long.push(0);
    assert_eq!(MapBlock::decode(&long).err(), Some(HashMapError::BadBlock));
    // an array of three
    assert_eq!(
        MapBlock::decode(&hex("8344000000008080")).err(),
        Some(HashMapError::BadBlock)
    );
    // the bitmap as a text
    assert_eq!(
        MapBlock::decode(&hex("82640000000080")).err(),
        Some(HashMapError::BadBlock)
    );
    // one bit set and no item
    assert_eq!(
        MapBlock::decode(&hex("82448000000080")).err(),
        Some(HashMapError::BadBlock)
    );
    // a head that is longer than it has to be
    assert_eq!(
        MapBlock::decode(&hex("8258040000000080")).err(),
        Some(HashMapError::BadBlock)
    );
    // an array of indefinite length
    assert_eq!(
        MapBlock::decode(&hex("9f4400000000ff")).err(),
        Some(HashMapError::BadBlock)
    );
}

#[test]
fn decode_refuses_a_wrong_tag_and_a_wrong_identifier() {
    let mut block = empty_block(8);
    block.elements[0] = Some(BlockElement::Node(value()));
    let good = block.encode();
    assert!(MapBlock::decode(&good).is_ok());
    // tag 43 in place of tag 42
    let mut bad = good.clone();
    assert_eq!(bad[5], 0x2a);
    bad[5] = 0x2b;
    assert_eq!(MapBlock::decode(&bad).err(), Some(HashMapError::BadBlock));
    // no zero byte before the identifier
    let mut bad = good.clone();
    assert_eq!(bad[8], 0x00);
    bad[8] = 0x01;
    assert_eq!(MapBlock::decode(&bad).err(), Some(HashMapError::BadBlock));
    // another codec
    let mut bad = good.clone();
    assert_eq!(bad[10], 0x71);
    bad[10] = 0x55;
    assert_eq!(MapBlock::decode(&bad).err(), Some(HashMapError::BadBlock));
    // more items than bits
    let mut bad = good.clone();
    assert_eq!(bad[3], 0x81);
    bad[3] = 0x82;
    assert_eq!(MapBlock::decode(&bad).err(), Some(HashMapError::BadBlock));
}

#[test]
fn root_block_is_read_in_any_order_of_its_entries() {
    let written = hex("a36468616d74824400000000806768617368416c67126a6275636b657453697a651820");
    let root = RootMapBlock::decode(&written).unwrap();
    assert_eq!(root.width(), 5);
    assert_eq!(root.hash_alg(), 0x12);
    assert_eq!(root.root().elements.len(), 32);
    let other = hex("a36768617368416c67126a6275636b657453697a6518206468616d7482440000000080");
    let root = RootMapBlock::decode(&other).unwrap();
    assert_eq!(root.width(), 5);
    assert_eq!(root.root().elements.len(), 32);
}

#[test]
fn root_block_with_another_hash_is_refused() {
    let sha512 = hex("a36468616d74824400000000806768617368416c67136a6275636b657453697a651820");
    assert_eq!(
        RootMapBlock::decode(&sha512).err(),
        Some(HashMapError::BadBlock)
    );
}

#[test]
fn root_block_of_another_shape_is_refused() {
    // two entries
    assert_eq!(
        RootMapBlock::decode(&hex("a26468616d74824400000000806768617368416c6712")).err(),
        Some(HashMapError::BadBlock)
    );
    // an entry twice
    assert_eq!(
        RootMapBlock::decode(&hex(
            "a36468616d74824400000000806768617368416c67126768617368416c6712"
        ))
        .err(),
        Some(HashMapError::BadBlock)
    );
    // an entry that a root does not have
    assert_eq!(
        RootMapBlock::decode(&hex(
            "a36468616d74824400000000806768617368416c6712616101"
        ))
        .err(),
        Some(HashMapError::BadBlock)
    );
    // a bitmap of three bytes
    assert_eq!(
        RootMapBlock::decode(&hex(
            "a36468616d748243000000806768617368416c67126a6275636b657453697a651818"
        ))
        .err(),
        Some(HashMapError::BadBlock)
    );
    // a node block is no root block
    assert_eq!(
        RootMapBlock::decode(&hex("82440000000080")).err(),
        Some(HashMapError::BadBlock)
    );
}

fn walk(store: &MemStore, root: &Cid, key: &[u8]) -> Result<Option<Cid>, HashMapError> {
    let bytes = store.get(root).ok_or(HashMapError::BadBlock)?;
    let top = RootMapBlock::decode(&bytes)?;
    let digest = sha2_256(key);
    let mut step = top.get_key(key)?;
    let mut depth = 0;
    loop {
        match step {
            Lookup::Found(cid) => return Ok(Some(cid)),
            Lookup::Missing => return Ok(None),
            Lookup::Descend(child) => {
                let bytes = store.get(&child).ok_or(HashMapError::BadBlock)?;
                let block = MapBlock::decode(&bytes)?;
                depth += 1;
                step = block.get_key(key, &digest, depth, top.width())?;
            }
        }
    }
}

#[test]
fn walking_the_blocks_finds_what_the_tree_holds() {
    for width in 3..=8 {
        let mut tree = IpldHashMap::new(width, 2);
        for key in 0..500 {
            let key = key.to_string().into_bytes();
            let cid = Cid::of_block(&key);
            tree.set(key.into_boxed_slice(), cid).unwrap();
        }
        let mut store = MemStore::new();
        let root = tree.collapse(&mut store).unwrap();
        for key in 0..500 {
            let key = key.to_string().into_bytes();
            assert_eq!(walk(&store, &root, &key), Ok(Some(Cid::of_block(&key))));
            assert_eq!(lookup(&store, &root, &key), Ok(Some(Cid::of_block(&key))));
        }
        for key in 500..600 {
            let key = key.to_string().into_bytes();
            assert_eq!(walk(&store, &root, &key), Ok(None));
            assert_eq!(lookup(&store, &root, &key), Ok(None));
        }
    }
}

#[test]
fn one_step_tells_found_missing_or_descend() {
    let mut block = empty_block(32);
    // the digest of "hello" starts with the bits 00101, which select slot 5
    block.elements[5] = Some(BlockElement::Bucket(vec![
        Pair {
            key: b"goodbye".to_vec(),
            value: Cid::of_block(b"1"),
        },
        Pair {
            key: b"hello".to_vec(),
            value: Cid::of_block(b"2"),
        },
    ]));
    let digest = sha2_256(b"hello");
    match block.get_key(b"hello", &digest, 0, 5) {
        Ok(Lookup::Found(cid)) => assert_eq!(cid, Cid::of_block(b"2")),
        other => panic!("{:?}", other),
    }
    match block.get_key(b"hellp", &digest, 0, 5) {
        Ok(Lookup::Missing) => {}
        other => panic!("{:?}", other),
    }
    block.elements[5] = Some(BlockElement::Node(Cid::of_block(b"3")));
    match block.get_key(b"hello", &digest, 0, 5) {
        Ok(Lookup::Descend(cid)) => assert_eq!(cid, Cid::of_block(b"3")),
        other => panic!("{:?}", other),
    }
    block.elements[5] = None;
    match block.get_key(b"hello", &digest, 0, 5) {
        Ok(Lookup::Missing) => {}
        other => panic!("{:?}", other),
    }
}

#[test]
fn one_step_fails_where_the_digest_or_the_node_is_too_short() {
    let block = empty_block(8);
    let digest = sha2_256(b"hello");
    // slot 5 of a node of 8 slots exists, slot of 5 bits may not
    assert!(block.get_key(b"hello", &digest, 0, 3).is_ok());
    match block.get_key(b"hello", &digest, 0, 5) {
        Ok(Lookup::Missing) => {}
        other => panic!("{:?}", other),
    }
    // the second group of five bits of the digest is 10011, slot 19
    match block.get_key(b"hello", &digest, 1, 5) {
        Err(HashMapError::OutOfBounds) => {}
        other => panic!("{:?}", other),
    }
    // 51 groups of five bits fit into 256 bits, a 52nd does not
    let wide = empty_block(32);
    assert!(wide.get_key(b"hello", &digest, 50, 5).is_ok());
    match wide.get_key(b"hello", &digest, 51, 5) {
        Err(HashMapError::BadDigest) => {}
        other => panic!("{:?}", other),
    }
    match wide.get_key(b"hello", &digest[..31], 0, 5) {
        Err(HashMapError::BadDigest) => {}
        other => panic!("{:?}", other),
    }
}

#[test]
fn errors_say_what_went_wrong() {
    assert_eq!(
        HashMapError::StitchArity.message(),
        "subtree count does not match width of tree"
    );
    assert_ne!(
        HashMapError::BadBlock.message(),
        HashMapError::BadDigest.message()
    );
}

#[test]
fn lookup_fails_where_a_block_is_missing_or_broken() {
    let mut tree = IpldHashMap::new(5, 3);
    for key in ["51", "55", "149", "152"] {
        tree.set(key.as_bytes().to_vec().into_boxed_slice(), value()).unwrap();
    }
    let mut store = MemStore::new();
    let root = tree.collapse(&mut store).unwrap();
    assert_eq!(lookup(&store, &root, b"51"), Ok(Some(value())));
    assert_eq!(lookup(&store, &root, b"52"), Ok(None));

    // a root that the store does not keep
    assert_eq!(
        lookup(&store, &Cid::of_block(b"nothing"), b"51"),
        Err(HashMapError::BadBlock)
    );

    // a child that the store does not keep
    let top = RootMapBlock::decode(&store.get(&root).unwrap()).unwrap();
    let child = match &top.root().elements[0] {
        Some(BlockElement::Node(child)) => child.clone(),
        other => panic!("{:?}", other),
    };
    let kept = store.remove(&child).unwrap();
    assert_eq!(lookup(&store, &root, b"51"), Err(HashMapError::BadBlock));
    // a key that leads elsewhere does not need the child
    assert_eq!(lookup(&store, &root, b"hello"), Ok(None));

    // a child whose block is not the block of a node
    store.insert(&child, b"garbage".to_vec()).unwrap();
    assert_eq!(lookup(&store, &root, b"51"), Err(HashMapError::BadBlock));

    store.insert(&child, kept).unwrap();
    assert_eq!(lookup(&store, &root, b"51"), Ok(Some(value())));

    // a node block in the place of the root block
    assert_eq!(lookup(&store, &child, b"51"), Err(HashMapError::BadBlock));
}

#[test]
fn lookup_ends_where_the_digest_has_no_more_bits() {
    // a node of width eight whose every slot leads back to itself cannot be written, but a
    // chain of 33 nodes that all hold a link in the slot of the key can
    let key = b"hello";
    let digest = sha2_256(key);
    let mut store = MemStore::new();
    let mut below = Cid::of_block(b"end");
    for depth in (1..33).rev() {
        let mut block = empty_block(256);
        let slot = if depth < 32 { digest[depth] as usize } else { 0 };
        block.elements[slot] = Some(BlockElement::Node(below.clone()));
        let bytes = block.encode();
        below = Cid::of_block(&bytes);
        store.insert(&below, bytes).unwrap();
    }
    let mut top = empty_block(256);
    top.elements[digest[0] as usize] = Some(BlockElement::Node(below));
    let bytes = top.encode_root(0x12, 256);
    let root = Cid::of_block(&bytes);
    store.insert(&root, bytes).unwrap();
    assert_eq!(lookup(&store, &root, key), Err(HashMapError::BadDigest));
}
