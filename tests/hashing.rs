use nix_du::hashing::hash;

#[test]
fn test_hash() {
    // the hash is the same on all calls
    assert_eq!(hash(1, 2), hash(1, 2));
    // the hash does not look 100% broken
    assert!(hash(1, 2) != hash(1, 3));
    assert!(hash(2, 2) != hash(1, 2));
    assert!(hash(1, 1) != hash(1, 2));
}

#[test]
fn test_hash_larger() {
    const N: usize = 500;
    let mut values = std::collections::BTreeSet::new();
    for i in 0..N {
        for j in 0..N {
            values.insert(hash(i as u128, j as u64));
        }
    }
    // test the absence of collision
    assert_eq!(values.len(), N * N);
}
