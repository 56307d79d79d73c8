use merkle_tree::utils::hash_adder;

#[test]
fn add() {
    let left = 120500u64;
    let right = 200500360u64;

    let expected = left + right;

    let result = hash_adder(left.to_be_bytes().to_vec(), right.to_be_bytes().to_vec());

    assert_eq!(expected.to_be_bytes().to_vec(), result);
}

#[test]
fn add_different_sizes() {
    let left = 120500u128;
    let right = 200500360u32;

    let expected = left + right as u128;

    let result = hash_adder(left.to_be_bytes().to_vec(), right.to_be_bytes().to_vec());

    assert_eq!(expected.to_be_bytes().to_vec(), result);
}

#[test]
fn add_different_sizes_invert() {
    let left = 120500u32;
    let right = 200500360u128;

    let expected = left as u128 + right;

    let result = hash_adder(left.to_be_bytes().to_vec(), right.to_be_bytes().to_vec());

    assert_eq!(expected.to_be_bytes().to_vec(), result);
}

#[test]
fn add_commutes() {
    let pairs: [(Vec<u8>, Vec<u8>); 4] = [
        (vec![0xff, 0x01, 0x02], vec![0x05, 0xff]),
        (vec![], vec![0x2a]),
        (vec![0x00], vec![0x00, 0x00, 0x01]),
        (vec![0x80, 0x80], vec![0x80, 0x80]),
    ];
    for (a, b) in pairs {
        assert_eq!(hash_adder(a.clone(), b.clone()), hash_adder(b, a));
    }
}

#[test]
fn add_empty_operands() {
    assert_eq!(hash_adder(vec![], vec![]), Vec::<u8>::new());
    assert_eq!(hash_adder(vec![], vec![0x05]), vec![0x05]);
    assert_eq!(hash_adder(vec![0x01, 0x02], vec![]), vec![0x01, 0x02]);
}

#[test]
fn add_overflow_grows_one_byte() {
    let result = hash_adder(vec![0xff, 0xff], vec![0x01]);
    assert_eq!(result, vec![0x01, 0x00, 0x00]);

    let carries = hash_adder(vec![0xff], vec![0xff]);
    assert_eq!(carries, vec![0x01, 0xfe]);
}
