use merkle_tree::blockchain;
use merkle_tree::hash::{concat_hashes, Hashable, HashPointer};
use merkle_tree::merkle;
use merkle_tree::merkle_proof::MerkleProofStep;

fn names() -> Vec<String> {
    vec![
        String::from("sally"),
        String::from("alice"),
        String::from("ronnie"),
        String::from("mj"),
        String::from("john john"),
    ]
}

#[test]
fn sha256_known_vectors() {
    // the digest capability must compute real SHA-256, hex encoded
    assert_eq!(
        String::from("abc").get_hash(),
        "ba7816bf8f01cfea414140de5dae2223b00361a396177a9cb410ff61f20015ad"
    );
    assert_eq!(
        String::from("").get_hash(),
        "e3b0c44298fc1c149afbf4c8996fb92427ae41e4649b934ca495991b7852b855"
    );
    // deterministic, and never the identity on its input
    assert_eq!(String::from("abc").get_hash(), String::from("abc").get_hash());
    assert_ne!(String::from("abc").get_hash(), "abc");
}

#[test]
fn concat_hashes_is_hash_of_concatenation() {
    let joined = concat_hashes("ab", "c");
    assert_eq!(joined, String::from("abc").get_hash());
    // argument order matters
    assert_ne!(concat_hashes("ab", "c"), concat_hashes("c", "ab"));
}

#[test]
fn hash_pointer_verifies_and_detects_change() {
    let ptr = HashPointer::to(String::from("riley"));
    assert_eq!(ptr.hash, String::from("riley").get_hash());
    assert!(ptr.verify_hash());
    let mut bad = ptr;
    bad.hash = String::from("riley").get_hash().to_uppercase();
    assert!(!bad.verify_hash());
}

#[test]
fn round_trip_validity() {
    // every non-empty item sequence builds a strictly valid tree
    for n in 1..20u32 {
        let data: Vec<String> = (0..n).map(|i| i.to_string()).collect();
        let tree = blockchain::MerkleTree::construct(data.clone()).unwrap();
        assert!(matches!(tree.validate(), blockchain::MrklVR::Valid));
        let digest_tree = merkle::MerkleTree::construct(data).unwrap();
        assert!(matches!(digest_tree.validate(), merkle::MrklVR::Valid));
    }
    assert!(blockchain::MerkleTree::construct(Vec::new()).is_err());
    assert!(merkle::MerkleTree::construct(Vec::<String>::new()).is_err());
}

#[test]
fn tree_heights_follow_item_count() {
    // height is one less than the ceiling of log2 of the item count, and
    // zero for a single item
    let expected = [
        (1, 0usize),
        (2, 0),
        (3, 1),
        (4, 1),
        (5, 2),
        (6, 2),
        (8, 2),
        (9, 3),
        (16, 3),
        (17, 4),
    ];
    for (n, h) in expected {
        let data: Vec<String> = (0..n).map(|i| format!("{:05}", i)).collect();
        let tree = blockchain::MerkleTree::construct(data).unwrap();
        assert_eq!(tree.height, h, "item count {}", n);
    }
    // the digest-only variant reports its level count, items included
    let digest_tree =
        merkle::MerkleTree::construct(vec![String::from("a"), String::from("b"), String::from("c")])
            .unwrap();
    assert_eq!(digest_tree.height, 1);
    assert_eq!(digest_tree.get_height(), 3);
}

#[test]
fn tampered_leaf_digest_is_invalid_hash() {
    let mut tree = blockchain::MerkleTree::construct(vec![
        String::from("a"),
        String::from("b"),
        String::from("c"),
        String::from("d"),
    ])
    .unwrap();
    assert!(matches!(tree.validate(), blockchain::MrklVR::Valid));
    // overwrite one leaf's stored digest without updating any ancestor
    if let blockchain::MerkleBranch::Branch(fringe) = &mut tree.left {
        if let blockchain::MerkleBranch::Leaf(_, digest) = &mut fringe.left {
            *digest = String::from("deadbeef").repeat(8);
        } else {
            panic!("expected a leaf");
        }
    } else {
        panic!("expected a branch");
    }
    assert!(matches!(tree.validate(), blockchain::MrklVR::InvalidHash(_)));
}

#[test]
fn membership_is_exact_on_valid_trees() {
    let tree = blockchain::MerkleTree::construct(names()).unwrap();
    for name in names() {
        assert_eq!(tree.contains(&name).unwrap(), true);
    }
    // absent values on every side and between stored items
    assert_eq!(tree.contains(&String::from("aaa")).unwrap(), false);
    assert_eq!(tree.contains(&String::from("monica")).unwrap(), false);
    assert_eq!(tree.contains(&String::from("zz")).unwrap(), false);
}

#[test]
fn duplicate_items_are_found() {
    let tree = blockchain::MerkleTree::construct(vec![
        String::from("b"),
        String::from("a"),
        String::from("a"),
    ])
    .unwrap();
    assert!(matches!(tree.validate(), blockchain::MrklVR::Valid));
    assert_eq!(tree.contains(&String::from("a")).unwrap(), true);
    assert_eq!(tree.contains(&String::from("b")).unwrap(), true);
}

#[test]
fn pruning_preserves_root_digest() {
    let mut tree = blockchain::MerkleTree::construct(names()).unwrap();
    let root_before = tree.mrkl_root.clone();
    let height_before = tree.height;
    let keep = vec![String::from("alice")];
    assert!(tree.prune(&keep));
    assert!(matches!(tree.validate_pruned(), blockchain::MrklVR::Valid));
    assert_eq!(tree.mrkl_root, root_before);
    assert_eq!(tree.height, height_before);
    // the kept item is still found after pruning
    assert_eq!(tree.contains(&String::from("alice")).unwrap(), true);
    // a pruned tree no longer passes strict validation
    assert!(!matches!(tree.validate(), blockchain::MrklVR::Valid));
    // keeping the least and the greatest item leaves no branch whose whole
    // range is droppable, so pruning is a permitted no-op
    let mut wide = blockchain::MerkleTree::construct(names()).unwrap();
    assert!(wide.prune(&vec![String::from("alice"), String::from("sally")]));
    assert!(matches!(wide.validate(), blockchain::MrklVR::Valid));
}

#[test]
fn pruned_search_reports_error_not_false() {
    let mut tree = blockchain::MerkleTree::construct(names()).unwrap();
    let keep = vec![String::from("alice")];
    assert!(tree.prune(&keep));
    assert!(matches!(tree.validate_pruned(), blockchain::MrklVR::Valid));
    // "sally" was in the tree and its region was pruned away: the search
    // must refuse to answer rather than say "absent"
    assert!(tree.contains(&String::from("sally")).is_err());
}

#[test]
fn prune_precondition_failures_return_false() {
    let mut tree = blockchain::MerkleTree::construct(names()).unwrap();
    // nothing to keep
    assert!(!tree.prune(&Vec::new()));
    assert!(matches!(tree.validate(), blockchain::MrklVR::Valid));
    // a tree that fails strict validation is not pruned
    let mut small = blockchain::MerkleTree::construct(vec![
        String::from("a"),
        String::from("b"),
        String::from("c"),
        String::from("d"),
    ])
    .unwrap();
    if let blockchain::MerkleBranch::Branch(fringe) = &mut small.left {
        if let blockchain::MerkleBranch::Leaf(_, digest) = &mut fringe.left {
            *digest = String::from("deadbeef").repeat(8);
        } else {
            panic!("expected a leaf");
        }
    } else {
        panic!("expected a branch");
    }
    assert!(!small.prune(&vec![String::from("a")]));
}

#[test]
fn pruning_against_unknown_key_is_detected() {
    // the concrete scenario: "mje" never was in the tree, so pruning with
    // it either refuses or leaves a tree that pruned validation rejects
    let mut tree = blockchain::MerkleTree::construct(names()).unwrap();
    assert_eq!(tree.contains(&String::from("alice")).unwrap(), true);
    assert_eq!(tree.contains(&String::from("mje")).unwrap(), false);
    let pruned = tree.prune(&vec![String::from("mje")]);
    assert!(
        !pruned || matches!(tree.validate_pruned(), blockchain::MrklVR::InvalidTree(_)),
        "pruning against an unknown key must refuse or invalidate the tree"
    );
}

#[test]
fn proof_round_trip_and_shape() {
    let data: Vec<String> = (0..13u32).map(|i| format!("{:03}", i)).collect();
    let tree = merkle::MerkleTree::construct(data).unwrap();
    for i in 0..13u32 {
        let item = format!("{:03}", i);
        let proof = tree.gen_proof(&item).expect("item is in the tree");
        assert!(proof.verify(&item));
        assert!(proof.check_proof_form(tree.get_mrkl_root(), tree.get_height()));
        // a proof does not verify for a different item
        assert!(!proof.verify(&String::from("absent")));
    }
    assert!(tree.gen_proof(&String::from("013")).is_none());
}

#[test]
fn flipped_proof_step_fails_verification() {
    let data: Vec<String> = (0..13u32).map(|i| format!("{:03}", i)).collect();
    let tree = merkle::MerkleTree::construct(data).unwrap();
    let item = String::from("007");
    let proof = tree.gen_proof(&item).expect("item is in the tree");
    assert!(proof.verify(&item));
    for i in 0..proof.steps.len() {
        let mut forged = merkle_tree::merkle_proof::MerkleProof {
            steps: proof.steps.clone(),
            root_hash: proof.root_hash.clone(),
            start_hash: proof.start_hash.clone(),
        };
        forged.steps[i] = match &proof.steps[i] {
            MerkleProofStep::Left(d) => MerkleProofStep::Left(flip(d)),
            MerkleProofStep::Right(d) => MerkleProofStep::Right(flip(d)),
            MerkleProofStep::End => MerkleProofStep::End,
        };
        assert!(!forged.verify(&item), "flipped step {} still verified", i);
    }
}

// replaces a digest by a different string of the same length
fn flip(d: &String) -> String {
    let mut bytes = d.clone().into_bytes();
    if bytes.is_empty() {
        return String::from("0");
    }
    bytes[0] = if bytes[0] == b'0' { b'1' } else { b'0' };
    String::from_utf8(bytes).unwrap()
}
