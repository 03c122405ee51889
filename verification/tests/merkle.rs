use zk_circuit::error::ZkError;
use zk_circuit::field::FieldElement;
use zk_circuit::integer::Integer;
use zk_circuit::merkle::MerkleTree;

fn num(x: i64) -> Integer {
    Integer::from_signed_bytes_le(x.to_le_bytes().to_vec())
}

fn nums(xs: &[i64]) -> Vec<Integer> {
    xs.iter().map(|x| num(*x)).collect()
}

#[test]
fn hash_adds_and_reduces() {
    assert_eq!(MerkleTree::hash(&num(3), &num(4)), num(7));
    assert_eq!(MerkleTree::hash(&num(1_000_000_006), &num(5)), num(4));
    assert_eq!(MerkleTree::hash(&num(1_000_000_000_000), &num(3)), num(999_993_010));
}

#[test]
fn hash_keeps_the_sign_of_the_sum() {
    assert_eq!(MerkleTree::hash(&num(-3), &num(1)), num(-2));
    assert_eq!(MerkleTree::hash(&num(-1_000_000_010), &num(0)), num(-3));
}

#[test]
fn root_of_one_leaf_is_the_leaf() {
    let tree = MerkleTree::new(nums(&[42]));
    assert_eq!(tree.root, num(42));
    assert!(tree.merkle_path(0).is_empty());
}

#[test]
fn root_of_an_even_level() {
    let tree = MerkleTree::new(nums(&[1, 2, 3, 4]));
    assert_eq!(tree.root, num(10));
    assert_eq!(tree.leaves, nums(&[1, 2, 3, 4]));
}

#[test]
fn odd_node_is_carried_up_unchanged() {
    assert_eq!(MerkleTree::compute_root(&nums(&[1, 2, 3, 4, 5])), num(15));
    assert_eq!(MerkleTree::compute_root(&nums(&[1_000_000_006, 5, 7])), num(11));
}

#[test]
fn path_records_sibling_and_side() {
    let tree = MerkleTree::new(nums(&[1, 2, 3, 4]));
    assert_eq!(tree.merkle_path(0), vec![(num(2), true), (num(7), true)]);
    assert_eq!(tree.merkle_path(3), vec![(num(3), false), (num(3), false)]);
}

#[test]
fn path_skips_a_level_without_sibling() {
    let tree = MerkleTree::new(nums(&[1, 2, 3, 4, 5]));
    assert_eq!(tree.merkle_path(4), vec![(num(10), false)]);
    assert_eq!(tree.merkle_path(2), vec![(num(4), true), (num(3), false), (num(5), true)]);
}

#[test]
fn path_of_an_index_past_the_leaves() {
    let tree = MerkleTree::new(nums(&[1, 2, 3]));
    assert_eq!(tree.merkle_path(3), vec![(num(3), false), (num(3), false)]);
    assert!(tree.merkle_path(7).is_empty());
}

#[test]
fn every_path_replays_to_the_root() {
    for n in 1..12usize {
        let leaves: Vec<i64> = (0..n).map(|i| (i as i64) * 999_999_937 + 13).collect();
        let tree = MerkleTree::new(nums(&leaves));
        for i in 0..n {
            let path = tree.merkle_path(i);
            assert_eq!(MerkleTree::replay_path(&tree.leaves[i], &path), tree.root);
        }
    }
}

#[test]
fn replay_from_another_leaf_misses_the_root() {
    let tree = MerkleTree::new(nums(&[1, 2, 3, 4]));
    let path = tree.merkle_path(1);
    assert_ne!(MerkleTree::replay_path(&num(5), &path), tree.root);
}

#[test]
fn apply_hash_adds_in_the_field() {
    let tree = MerkleTree::new(nums(&[1]));
    let a = FieldElement::new(num(1_000_000_000));
    let b = FieldElement::new(num(10));
    assert_eq!(tree.apply_hash(&a, &b), Ok(FieldElement::new(num(3))));
}

#[test]
fn apply_hash_rejects_two_fields() {
    let tree = MerkleTree::new(nums(&[1]));
    let a = FieldElement::new(num(1));
    let b = FieldElement::with_modulus(num(1), num(13)).unwrap();
    assert_eq!(tree.apply_hash(&a, &b), Err(ZkError::ModulusMismatch));
}
