use merkle_tree::merkle::ErrorKind;
use merkle_tree::merkle::Merkle;
use merkle_tree::tree::Node;

fn blocks_of(n: usize) -> Vec<Vec<u8>> {
    let mut v: Vec<Vec<u8>> = Vec::new();
    for i in 0..n {
        v.push(format!("block-{}", i).into_bytes());
    }
    v
}

#[test]
fn it_works() {
    let merkle = Merkle::new(blocks_of(8)).unwrap();

    assert_eq!(merkle.height(), 4);
}

#[test]
fn rejects_bad_counts() {
    for n in [0usize, 1, 3, 5, 6, 7] {
        assert!(matches!(
            Merkle::new(blocks_of(n)),
            Err(ErrorKind::InvalidBlockCount)
        ));
    }
    for n in [2usize, 4, 8, 16] {
        assert!(Merkle::new(blocks_of(n)).is_ok());
    }
}

#[test]
fn heights_follow_block_count() {
    for (n, h) in [(2usize, 2usize), (4, 3), (8, 4), (16, 5)] {
        assert_eq!(Merkle::new(blocks_of(n)).unwrap().height(), h);
    }
}

#[test]
fn builds_deterministically() {
    let m1 = Merkle::new(blocks_of(4)).unwrap();
    let m2 = Merkle::new(blocks_of(4)).unwrap();
    assert_eq!(m1.head().hash(), m2.head().hash());
    assert_eq!(m1.height(), m2.height());
}

#[test]
fn root_independent_of_block_order() {
    let blocks = vec![
        b"A".to_vec(),
        b"B".to_vec(),
        b"C".to_vec(),
        b"D".to_vec(),
    ];
    let mut reversed = blocks.clone();
    reversed.reverse();
    let m1 = Merkle::new(blocks).unwrap();
    let m2 = Merkle::new(reversed).unwrap();
    assert_eq!(m1.head().hash(), m2.head().hash());
}

#[test]
fn distinct_blocks_get_distinct_leaf_digests() {
    let corpus: [Vec<u8>; 6] = [
        b"".to_vec(),
        b"a".to_vec(),
        b"b".to_vec(),
        b"ab".to_vec(),
        b"ba".to_vec(),
        b"block".to_vec(),
    ];
    for i in 0..corpus.len() {
        for j in 0..corpus.len() {
            if i != j {
                let di = Node::new_leaf(corpus[i].clone()).hash();
                let dj = Node::new_leaf(corpus[j].clone()).hash();
                assert_ne!(di, dj);
            }
        }
    }
}

#[test]
fn leaf_digest_is_a_real_hash() {
    let leaf = Node::new_leaf(b"x".to_vec());
    let digest = leaf.hash();
    assert_eq!(digest.len(), 64);
    assert_ne!(digest, b"x".to_vec());
}

#[test]
fn join_places_by_order_not_by_argument_position() {
    let j1 = Node::new_leaf(b"p".to_vec()).join(Node::new_leaf(b"q".to_vec()));
    let j2 = Node::new_leaf(b"q".to_vec()).join(Node::new_leaf(b"p".to_vec()));
    assert_eq!(j1.hash(), j2.hash());
    match (&j1, &j2) {
        (
            Node::Internal { left: l1, right: r1, .. },
            Node::Internal { left: l2, right: r2, .. },
        ) => {
            assert_eq!(l1.hash(), l2.hash());
            assert_eq!(r1.hash(), r2.hash());
        }
        _ => panic!("join must produce an internal node"),
    }
}
