use ark_ed_on_bls12_381::Fq;
use ark_ff::{BigInteger, PrimeField, UniformRand};
use ark_std::test_rng;
use arkworks_native_gadgets::poseidon::FieldHasher;
use divtokens::field::fp::Fp;
use divtokens::merkle_tree::position::{
    convert_index_to_last_level, is_left_child, is_root, left_child, parent, right_child, sibling,
    tree_height,
};
use divtokens::merkle_tree::{Error, MerkleError, Path, SparseMerkleTree};
use divtokens::poseidon::{setup_params, Curve, Poseidon};
use std::collections::BTreeMap;

fn to_fp(f: &Fq) -> Fp {
    Fp::from_le_bytes_mod_order(&f.into_repr().to_bytes_le())
}

fn to_ark(f: &Fp) -> Fq {
    Fq::from_le_bytes_mod_order(&f.to_bytes())
}

fn random_leaves(count: usize) -> Vec<Fp> {
    let rng = &mut test_rng();
    (0..count).map(|_| to_fp(&Fq::rand(rng))).collect()
}

//helper to change leaves array to BTreeMap and then create SMT
fn create_merkle_tree(hasher: Poseidon, leaves: &[Fp]) -> SparseMerkleTree {
    let pairs: BTreeMap<u32, Fp> = leaves
        .iter()
        .enumerate()
        .map(|(i, l)| (i as u32, *l))
        .collect();
    let smt = SparseMerkleTree::new(&pairs, &hasher).unwrap();

    smt
}

#[test]
fn should_create_tree_poseidon() {
    let curve = Curve::Bls381;

    let params = setup_params(curve, 5, 3).unwrap();
    let poseidon = Poseidon::new(params);
    let leaves = random_leaves(4);
    let smt = create_merkle_tree(poseidon.clone(), &leaves);

    let root = smt.root();

    let hash1 = leaves[0];
    let hash2 = leaves[1];
    let hash3 = leaves[2];
    let hash4 = leaves[3];

    let hash12 = poseidon.hash_two(&hash1, &hash2).unwrap();
    let hash34 = poseidon.hash_two(&hash3, &hash4).unwrap();

    let hash1234 = poseidon.hash_two(&hash12, &hash34).unwrap();

    assert_eq!(root, hash1234);
}

#[test]
fn should_generate_and_validate_proof_poseidon() {
    let curve = Curve::Bls381;

    let params = setup_params(curve, 5, 3).unwrap();
    let poseidon = Poseidon::new(params);
    let leaves = random_leaves(4);
    let smt = create_merkle_tree(poseidon.clone(), &leaves);

    let proof = smt.generate_membership_proof(0);

    let res = proof
        .check_membership(&smt.root(), &leaves[0], &poseidon)
        .unwrap();
    assert!(res);
}

#[test]
fn should_find_the_index_poseidon() {
    let curve = Curve::Bls381;

    let params = setup_params(curve, 5, 3).unwrap();
    let poseidon = Poseidon::new(params);
    let leaves = random_leaves(4);
    let smt = create_merkle_tree(poseidon.clone(), &leaves);

    let index = 2;

    let proof = smt.generate_membership_proof(index);

    let res = proof
        .get_index(&smt.root(), &leaves[index as usize], &poseidon)
        .unwrap();
    let desired_res = to_fp(&Fq::from(index));

    assert_eq!(res, desired_res);
}

#[test]
fn tree_agrees_with_the_hasher_it_wraps() {
    let params = setup_params(Curve::Bls381, 3, 3).unwrap();
    let poseidon = Poseidon::new(params.clone());
    let outside = arkworks_native_gadgets::poseidon::Poseidon::<Fq>::new(
        arkworks_native_gadgets::poseidon::PoseidonParameters::new(
            params.round_keys.iter().map(to_ark).collect(),
            params
                .mds_matrix
                .iter()
                .map(|r| r.iter().map(to_ark).collect())
                .collect(),
            params.full_rounds,
            params.partial_rounds,
            params.width,
            arkworks_native_gadgets::poseidon::sbox::PoseidonSbox(params.sbox),
        ),
    );
    let leaves = random_leaves(8);
    let smt = SparseMerkleTree::new_sequential(&leaves, &poseidon).unwrap();
    assert_eq!(smt.height, 3);
    assert_eq!(smt.tree.len(), 15);

    let mut level: Vec<Fq> = leaves.iter().map(to_ark).collect();
    while level.len() > 1 {
        level = level
            .chunks(2)
            .map(|pair| outside.hash_two(&pair[0], &pair[1]).unwrap())
            .collect();
    }
    assert_eq!(to_ark(&smt.root()), level[0]);
    assert_ne!(smt.root(), leaves[0]);
}

#[test]
fn every_leaf_has_a_path_to_the_root() {
    let poseidon = Poseidon::new(setup_params(Curve::Bls381, 3, 3).unwrap());
    let leaves = random_leaves(16);
    let smt = SparseMerkleTree::new_sequential(&leaves, &poseidon).unwrap();
    let root = smt.root();
    for i in 0..16u64 {
        let path = smt.generate_membership_proof(i);
        assert_eq!(path.path.len(), 4);
        assert_eq!(
            path.check_membership(&root, &leaves[i as usize], &poseidon),
            Ok(true)
        );
        assert_eq!(path.calculate_root(&leaves[i as usize], &poseidon), Ok(root));
        let index = path
            .get_index(&root, &leaves[i as usize], &poseidon)
            .unwrap();
        assert_eq!(index, to_fp(&Fq::from(i)));
    }
}

#[test]
fn path_refuses_other_leaves_but_the_sibling() {
    let poseidon = Poseidon::new(setup_params(Curve::Bls381, 3, 3).unwrap());
    let leaves = random_leaves(8);
    let smt = SparseMerkleTree::new_sequential(&leaves, &poseidon).unwrap();
    let root = smt.root();
    let path = smt.generate_membership_proof(4);
    assert_eq!(
        path.check_membership(&root, &leaves[5], &poseidon),
        Ok(true)
    );
    for j in [0usize, 1, 2, 3, 6, 7] {
        assert_eq!(
            path.check_membership(&root, &leaves[j], &poseidon),
            Err(Error::Merkle(MerkleError::InvalidLeaf))
        );
        assert_eq!(
            path.get_index(&root, &leaves[j], &poseidon),
            Err(Error::Merkle(MerkleError::InvalidLeaf))
        );
    }
    assert_eq!(
        path.check_membership(&leaves[0], &leaves[4], &poseidon),
        Ok(false)
    );
    assert_eq!(
        path.get_index(&leaves[0], &leaves[4], &poseidon),
        Err(Error::Merkle(MerkleError::InvalidLeaf))
    );
}

#[test]
fn path_with_a_broken_level_is_refused() {
    let poseidon = Poseidon::new(setup_params(Curve::Bls381, 3, 3).unwrap());
    let leaves = random_leaves(8);
    let smt = SparseMerkleTree::new_sequential(&leaves, &poseidon).unwrap();
    let good = smt.generate_membership_proof(3);
    let mut pairs = good.path.clone();
    pairs[1] = (leaves[0], leaves[1]);
    let broken = Path { path: pairs };
    assert_eq!(
        broken.calculate_root(&leaves[3], &poseidon),
        Err(Error::Merkle(MerkleError::InvalidPathNodes))
    );
}

#[test]
fn tree_of_one_leaf_is_its_own_root() {
    let poseidon = Poseidon::new(setup_params(Curve::Bls381, 3, 3).unwrap());
    let leaves = random_leaves(1);
    let smt = SparseMerkleTree::new_sequential(&leaves, &poseidon).unwrap();
    assert_eq!(smt.height, 0);
    assert_eq!(smt.root(), leaves[0]);
    let path = smt.generate_membership_proof(0);
    assert_eq!(path.path.len(), 0);
    assert_eq!(
        path.check_membership(&leaves[0], &leaves[0], &poseidon),
        Ok(true)
    );
}

#[test]
fn hasher_failure_fails_the_tree() {
    let mut params = setup_params(Curve::Bls381, 3, 3).unwrap();
    params.sbox = 4;
    let poseidon = Poseidon::new(params);
    let leaves = random_leaves(2);
    assert!(matches!(
        SparseMerkleTree::new_sequential(&leaves, &poseidon),
        Err(Error::Hasher)
    ));
    let path = Path {
        path: vec![(leaves[0], leaves[1])],
    };
    assert_eq!(
        path.calculate_root(&leaves[0], &poseidon),
        Err(Error::Hasher)
    );
}

#[test]
fn error_messages() {
    assert_eq!(MerkleError::InvalidLeaf.message(), "Invalid leaf");
    assert_eq!(
        MerkleError::InvalidPathNodes.message(),
        "Path nodes are not consistent"
    );
}

#[test]
fn positions() {
    assert!(is_root(0));
    assert!(!is_root(1));
    assert_eq!(left_child(0), 1);
    assert_eq!(right_child(0), 2);
    assert_eq!(left_child(5), 11);
    assert_eq!(right_child(5), 12);
    assert_eq!(parent(0), None);
    assert_eq!(parent(1), Some(0));
    assert_eq!(parent(2), Some(0));
    assert_eq!(parent(12), Some(5));
    assert_eq!(sibling(0), None);
    assert_eq!(sibling(1), Some(2));
    assert_eq!(sibling(2), Some(1));
    assert!(is_left_child(1));
    assert!(!is_left_child(2));
    assert_eq!(convert_index_to_last_level(0, 2), 3);
    assert_eq!(convert_index_to_last_level(3, 2), 6);
    assert_eq!(convert_index_to_last_level(0, 0), 0);
    assert_eq!(tree_height(0), 0);
    assert_eq!(tree_height(1), 0);
    assert_eq!(tree_height(7), 3);
    assert_eq!(tree_height(8), 3);
    assert_eq!(tree_height(9), 4);
}
