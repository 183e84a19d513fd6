use hg_store::extra::ChangesetExtra;

#[test]
fn test_changeset_extra() {
    let mut extra = ChangesetExtra::new();
    extra.set(b"foo", b"bar");
    extra.set(b"bar", b"qux");
    let mut result = Vec::new();
    extra.dump_into(&mut result);
    assert_eq!(result, b"bar:qux\0foo:bar".to_vec());

    let mut extra = ChangesetExtra::from(&result);
    let mut result2 = Vec::new();
    extra.dump_into(&mut result2);
    assert_eq!(result, result2);

    extra.set(b"aaaa", b"bbbb");
    result2.truncate(0);
    extra.dump_into(&mut result2);
    assert_eq!(result2, b"aaaa:bbbb\0bar:qux\0foo:bar".to_vec());
}

#[test]
fn extra_get_set_unset() {
    let mut extra = ChangesetExtra::new();
    assert!(extra.is_empty());
    extra.set(b"branch", b"stable");
    assert_eq!(extra.get(b"branch").map(|v| v.clone()), Some(b"stable".to_vec()));
    // overwriting a key leaves a single binding
    extra.set(b"branch", b"default");
    let mut dumped = Vec::new();
    extra.dump_into(&mut dumped);
    assert_eq!(dumped, b"branch:default".to_vec());
    extra.unset(b"branch");
    assert!(extra.is_empty());
    assert_eq!(extra.get(b"branch"), None);
}

#[test]
fn extra_empty_roundtrip() {
    let extra = ChangesetExtra::from(b"");
    assert!(extra.is_empty());
    let mut dumped = Vec::new();
    extra.dump_into(&mut dumped);
    assert_eq!(dumped, b"".to_vec());
}

#[test]
fn extra_value_may_hold_colon() {
    let extra = ChangesetExtra::from(b"close:1:2");
    assert_eq!(extra.get(b"close").map(|v| v.clone()), Some(b"1:2".to_vec()));
}
