use liveness_registry::order::compare_names;
use liveness_registry::order::NameCmp;

#[test]
fn compare_names_three_way() {
    assert_eq!(compare_names("svc-a", "svc-b"), NameCmp::Less);
    assert_eq!(compare_names("svc-b", "svc-a"), NameCmp::Greater);
    assert_eq!(compare_names("svc-a", "svc-a"), NameCmp::Equal);
    assert_eq!(compare_names("", ""), NameCmp::Equal);
}

#[test]
fn compare_names_prefix_comes_first() {
    assert_eq!(compare_names("svc", "svc-a"), NameCmp::Less);
    assert_eq!(compare_names("svc-a", "svc"), NameCmp::Greater);
    assert_eq!(compare_names("", "a"), NameCmp::Less);
}

#[test]
fn compare_names_by_scalar_value() {
    assert_eq!(compare_names("A", "a"), NameCmp::Less);
    assert_eq!(compare_names("az", "ba"), NameCmp::Less);
    assert_eq!(compare_names("ab", "a\u{00e9}"), NameCmp::Less);
}
