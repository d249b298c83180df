use testkit::vars::VariableTable;

#[test]
fn a_new_table_binds_nothing() {
    let t = VariableTable::new();
    assert_eq!(t.len(), 0);
    assert_eq!(t.get(b"token"), None);
    assert!(!t.contains(b"token"));
}

#[test]
fn a_later_binding_replaces_an_earlier_one() {
    let mut t = VariableTable::new();
    t.set(b"token".to_vec(), b"one".to_vec());
    t.set(b"user".to_vec(), b"kay".to_vec());
    t.set(b"token".to_vec(), b"two".to_vec());
    assert_eq!(t.len(), 2);
    assert_eq!(t.get(b"token"), Some(&b"two".to_vec()));
    assert_eq!(t.get(b"user"), Some(&b"kay".to_vec()));
    assert!(t.contains(b"user"));
    assert!(!t.contains(b"User"));
}

#[test]
fn a_duplicate_is_independent_of_its_source() {
    let mut t = VariableTable::new();
    t.set(b"a".to_vec(), b"1".to_vec());
    let mut d = t.duplicate();
    d.set(b"a".to_vec(), b"2".to_vec());
    d.set(b"b".to_vec(), b"3".to_vec());
    assert_eq!(t.get(b"a"), Some(&b"1".to_vec()));
    assert_eq!(t.get(b"b"), None);
    assert_eq!(d.get(b"a"), Some(&b"2".to_vec()));
    assert_eq!(d.get(b"b"), Some(&b"3".to_vec()));
}
