use hamt_rs::cid::Cid;
use hamt_rs::hash::sha2_256;

fn hex(text: &str) -> Vec<u8> {
    let digits: Vec<u8> = text
        .bytes()
        .map(|c| if c <= b'9' { c - b'0' } else { c - b'a' + 10 })
        .collect();
    digits.chunks(2).map(|pair| pair[0] * 16 + pair[1]).collect()
}

#[test]
fn sha2_256_of_nothing() {
    assert_eq!(
        sha2_256(&[]),
        hex("e3b0c44298fc1c149afbf4c8996fb92427ae41e4649b934ca495991b7852b855")
    );
}

#[test]
fn sha2_256_of_hello() {
    assert_eq!(
        sha2_256(b"hello"),
        hex("2cf24dba5fb0a30e26e83b2ac5b9e29e1b161e5c1fa7425e73043362938b9824")
    );
}

#[test]
fn cid_of_block_is_the_digest_of_the_block() {
    let cid = Cid::of_block(b"hello");
    assert_eq!(cid.digest(), &sha2_256(b"hello"));
}

#[test]
fn cid_binary_form_has_the_fixed_prefix() {
    let cid = Cid::of_block(&[]);
    let bytes = cid.to_bytes();
    assert_eq!(bytes.len(), 36);
    assert_eq!(&bytes[..4], &[0x01, 0x71, 0x12, 0x20]);
    assert_eq!(&bytes[4..], &sha2_256(&[])[..]);
}

#[test]
fn cid_text_form_is_base32() {
    let cid = Cid::of_block(&[]);
    assert_eq!(
        cid.to_string(),
        "bafyreihdwdcefgh4dqkjv67uzcmw7ojee6xedzdetojuzjevtenxquvyku"
    );
}

#[test]
fn cid_from_digest_wants_32_bytes() {
    assert!(Cid::from_digest(vec![0u8; 32]).is_some());
    assert!(Cid::from_digest(vec![0u8; 31]).is_none());
    assert!(Cid::from_digest(vec![0u8; 33]).is_none());
    assert!(Cid::from_digest(Vec::new()).is_none());
}

#[test]
fn cid_from_bytes_reads_the_binary_form_back() {
    let cid = Cid::of_block(b"hello");
    let back = Cid::from_bytes(&cid.to_bytes()).unwrap();
    assert_eq!(back, cid);
}

#[test]
fn cid_from_bytes_refuses_other_codecs_and_lengths() {
    let mut bytes = Cid::of_block(b"hello").to_bytes();
    bytes[1] = 0x55;
    assert!(Cid::from_bytes(&bytes).is_none());
    let mut bytes = Cid::of_block(b"hello").to_bytes();
    bytes[0] = 0x00;
    assert!(Cid::from_bytes(&bytes).is_none());
    let mut bytes = Cid::of_block(b"hello").to_bytes();
    bytes[2] = 0x13;
    assert!(Cid::from_bytes(&bytes).is_none());
    let mut bytes = Cid::of_block(b"hello").to_bytes();
    bytes.push(0);
    assert!(Cid::from_bytes(&bytes).is_none());
    bytes.truncate(35);
    assert!(Cid::from_bytes(&bytes).is_none());
}

#[test]
fn cid_equality_and_order_follow_the_digest() {
    let low = Cid::from_digest(vec![0u8; 32]).unwrap();
    let mut digest = vec![0u8; 32];
    digest[31] = 1;
    let mid = Cid::from_digest(digest).unwrap();
    let mut digest = vec![0u8; 32];
    digest[0] = 1;
    let high = Cid::from_digest(digest).unwrap();
    assert!(low == low.clone());
    assert!(low != mid);
    assert!(low < mid);
    assert!(mid < high);
    assert!(high > low);
    assert!(low <= low.clone());
    assert_eq!(low.partial_cmp(&high), Some(std::cmp::Ordering::Less));
    assert_eq!(high.partial_cmp(&low), Some(std::cmp::Ordering::Greater));
    assert_eq!(mid.partial_cmp(&mid.clone()), Some(std::cmp::Ordering::Equal));
    assert_eq!(low.clone().max(high.clone()), high);
    assert_eq!(low.clone().min(high.clone()), low);
}
