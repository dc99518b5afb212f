use process_hits::hash::HashError;

#[test]
fn hash_create() {
    let hash = process_hits::hash::Hash::new(10);
    assert_eq!(hash.capacity(), 10);
    assert_eq!(hash.keys().len(), 10);
    assert_eq!(hash.values().len(), 10);

    for i in 0..10 {
        assert_eq!(hash.keys()[i], 0);
        assert_eq!(f32::from_bits(hash.values()[i]), 0.);
    }
}

#[test]
fn hash_add() {
    let mut hash = process_hits::hash::Hash::new(10);
    let res = hash.add(10);
    assert!(res.is_ok());

    assert_eq!(hash.keys()[0], 10);
    assert_eq!(res.unwrap(), 0);

    let res = hash.add(11);
    assert!(res.is_ok());

    assert_eq!(hash.keys()[1], 11);
    assert_eq!(res.unwrap(), 1);

    // 1 will collide with 10 and should
    // be pushed over 2 places after 11
    let res = hash.add(1);
    assert!(res.is_ok());
    assert_eq!(res.unwrap(), 2);
    assert_eq!(hash.keys()[2], 1);

    //// 19 should be placed at the end
    let res = hash.add(19);
    assert!(res.is_ok());
    assert_eq!(res.unwrap(), 9);
    assert_eq!(hash.keys()[9], 19);

    //// 9 will conflict with 19 and will wrap around
    let res = hash.add(9);
    assert!(res.is_ok());
    assert_eq!(res.unwrap(), 3);
    assert_eq!(hash.keys()[3], 9);

    //// 20 will conflict with 10 and will wrap around
    let res = hash.add(20);
    assert!(res.is_ok());
    assert_eq!(res.unwrap(), 4);
    assert_eq!(hash.keys()[4], 20);
}

#[test]
fn hash_add_finds_a_key_at_its_own_slot() {
    let mut hash = process_hits::hash::Hash::new(4);
    assert_eq!(hash.add(6), Ok(2));
    assert_eq!(hash.add(6), Ok(2));
    assert_eq!(hash.keys(), &vec![0, 0, 6, 0]);
}

#[test]
fn hash_add_does_not_look_for_a_displaced_key() {
    let mut hash = process_hits::hash::Hash::new(4);
    assert_eq!(hash.add(2), Ok(2));
    assert_eq!(hash.add(6), Ok(3));
    assert_eq!(hash.add(6), Ok(0));
    assert_eq!(hash.keys(), &vec![6, 0, 2, 6]);
}

#[test]
fn hash_full() {
    let mut hash = process_hits::hash::Hash::new(3);
    assert_eq!(hash.add(3), Ok(0));
    assert_eq!(hash.add(4), Ok(1));
    assert_eq!(hash.add(7), Ok(2));
    assert_eq!(hash.add(5), Err(HashError::Full));
    assert_eq!(hash.add(9), Err(HashError::Full));
    assert_eq!(hash.keys(), &vec![3, 4, 7]);
    assert_eq!(hash.add(4), Ok(1));
    assert_eq!(HashError::Full.message(), "hash full");
}

#[test]
fn hash_of_one_slot() {
    let mut hash = process_hits::hash::Hash::new(1);
    assert_eq!(hash.add(5), Ok(0));
    assert_eq!(hash.add(5), Ok(0));
    assert_eq!(hash.add(6), Err(HashError::Full));
    assert_eq!(hash.keys()[0], 5);
    assert_eq!(hash.values()[0], 0);
}

#[test]
fn hash_add_leaves_the_values_alone() {
    let mut hash = process_hits::hash::Hash::new(5);
    hash.add(7).unwrap();
    hash.add(12).unwrap();
    assert_eq!(hash.values(), &vec![0u32; 5]);
    assert_eq!(hash.capacity(), 5);
}

#[test]
fn hash_clone_is_independent() {
    let mut hash = process_hits::hash::Hash::new(3);
    hash.add(4).unwrap();
    let copy = hash.clone();
    hash.add(5).unwrap();
    assert_eq!(copy.keys(), &vec![0, 4, 0]);
    assert_eq!(hash.keys(), &vec![0, 4, 5]);
}

#[test]
fn hash_without_slots_can_be_made() {
    let hash = process_hits::hash::Hash::new(0);
    assert_eq!(hash.capacity(), 0);
    assert!(hash.keys().is_empty());
}
