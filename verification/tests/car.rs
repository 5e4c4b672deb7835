use hamt_rs::car::Car;
use hamt_rs::cid::Cid;

fn hex(text: &str) -> Vec<u8> {
    let digits: Vec<u8> = text
        .bytes()
        .map(|c| if c <= b'9' { c - b'0' } else { c - b'a' + 10 })
        .collect();
    digits.chunks(2).map(|pair| pair[0] * 16 + pair[1]).collect()
}

#[test]
fn header_has_59_bytes() {
    let mut car = Car::new();
    car.encode_header();
    let bytes = car.take();
    assert_eq!(bytes.len(), 59);
    assert_eq!(
        bytes,
        hex("3aa265726f6f747381d82a58250001711220e3b0c44298fc1c149afbf4c8996fb92427ae41e4649b934ca495991b7852b8556776657273696f6e01")
    );
}

#[test]
fn block_stands_behind_the_length_of_identifier_and_block() {
    let mut car = Car::new();
    car.write_block(&[1, 2, 3], &[4, 5]);
    assert_eq!(car.take(), vec![5, 1, 2, 3, 4, 5]);
}

#[test]
fn block_of_nothing_is_a_single_zero() {
    let mut car = Car::new();
    car.write_block(&[], &[]);
    assert_eq!(car.take(), vec![0]);
}

#[test]
fn long_block_has_a_length_of_several_bytes() {
    let cid = Cid::of_block(b"hello");
    let block = vec![9u8; 200];
    let mut car = Car::new();
    car.write_block_cid(&cid, &block);
    let mut want = hex("ec01");
    want.extend(cid.to_bytes());
    want.extend(&block);
    assert_eq!(car.take(), want);

    let mut car = Car::new();
    car.write_block(&[], &vec![0u8; 300]);
    assert_eq!(&car.take()[..2], &hex("ac02")[..]);

    let mut car = Car::new();
    car.write_block(&[], &vec![0u8; 16384]);
    assert_eq!(&car.take()[..3], &hex("808001")[..]);

    let mut car = Car::new();
    car.write_block(&vec![0u8; 127], &[]);
    assert_eq!(car.take()[0], 0x7f);

    let mut car = Car::new();
    car.write_block(&vec![0u8; 100], &vec![0u8; 28]);
    assert_eq!(&car.take()[..2], &hex("8001")[..]);
}

#[test]
fn take_hands_out_what_was_written_and_starts_anew() {
    let mut car = Car::new();
    car.encode_header();
    car.write_block(&[1], &[2]);
    let first = car.take();
    assert_eq!(first.len(), 59 + 3);
    assert_eq!(car.take(), Vec::<u8>::new());
    car.write_block(&[3], &[4]);
    assert_eq!(car.take(), vec![2, 3, 4]);
}
