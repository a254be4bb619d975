use timeseries::DbObject;

#[test]
fn vec() {
    let d = DbObject::new(vec![1i64, 2, 3, 4]);
    assert_ne!(d.hash, 0);
}

#[test]
fn string() {
    let d = DbObject::new(String::from("testing"));
    assert_ne!(d.hash, 0);
}

#[test]
fn int_record() {
    let d = DbObject::new(15i64);
    assert_ne!(d.hash, 0);
}

#[test]
fn rehash_follows_item() {
    let mut d = DbObject::new(10i64);
    let h10 = d.hash;
    d.item = 11i64;
    d.rehash();
    let h11 = d.hash;
    let again = DbObject::new(11i64);
    assert_eq!(h11, again.hash);
    assert_ne!(h10, h11);
}

#[test]
fn equality_is_hash_equality() {
    let a = DbObject::new(String::from("same"));
    let b = DbObject::new(String::from("same"));
    let c = DbObject::new(String::from("other"));
    assert!(a == b);
    assert!(a != c);
}
