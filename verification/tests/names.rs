use dcg::Name;
use dcg::QualifiedName;

#[test]
fn camel_input_splits_into_tokens() {
    let n = Name::from("FooBar");
    assert_eq!(n.to_fixed_case(), "FooBar");
    assert_eq!(n.to_snake_case(&[]), "foo_bar");
    assert_eq!(n.to_screaming_snake_case(&[]), "FOO_BAR");
}

#[test]
fn lower_to_upper_boundary_only() {
    let n = Name::from("myStruct");
    assert_eq!(n.to_fixed_case(), "myStruct");
    assert_eq!(n.to_snake_case(&[]), "my_struct");
    let all_caps = Name::from("ABc");
    assert_eq!(all_caps.to_snake_case(&[]), "abc");
    let all_lower = Name::from("abc");
    assert_eq!(all_lower.to_snake_case(&[]), "abc");
}

#[test]
fn forbidden_characters_are_sanitized() {
    let n = Name::from("a/b+c");
    assert_eq!(n.to_fixed_case(), "a_b_plusc");
}

#[test]
fn camel_renderings() {
    let n = Name::from("fooBar");
    assert_eq!(n.to_upper_camel_case(&[]), "FooBar");
    assert_eq!(n.to_lower_camel_case(&[]), "fooBar");
    assert_eq!(Name::from("").to_lower_camel_case(&[]), "");
}

#[test]
fn reserved_words_get_marked() {
    let n = Name::from("match");
    assert_eq!(n.to_snake_case(&["match"]), "match_");
    assert_eq!(n.to_snake_case(&["other"]), "match");
}

#[test]
fn prepended_token_goes_first() {
    let n = Name::from("bar").with_prepended("get");
    assert_eq!(n.to_upper_camel_case(&[]), "GetBar");
    assert_eq!(n.to_fixed_case(), "getbar");
}

#[test]
fn qualified_name_structure() {
    let q = QualifiedName::empty()
        .with_appended(&Name::from("aa"))
        .with_appended(&Name::from("bb"));
    assert_eq!(q.to_string(), "aa.bb");
    assert_eq!(QualifiedName::empty().to_string(), "");

    let with_front = q.with_prepended(&Name::from("root"));
    assert_eq!(with_front.to_string(), "root.aa.bb");

    assert_eq!(with_front.head().unwrap().to_fixed_case(), "root");
    assert_eq!(with_front.last().unwrap().to_fixed_case(), "bb");
    assert_eq!(with_front.tail().to_string(), "aa.bb");
    assert_eq!(with_front.parent().to_string(), "root.aa");
    assert_eq!(QualifiedName::empty().parent().to_string(), "");
    assert!(QualifiedName::empty().head().is_none());
    assert!(QualifiedName::empty().last().is_none());
}

#[test]
fn prefix_test_is_token_wise() {
    let q = QualifiedName::empty()
        .with_appended(&Name::from("aa"))
        .with_appended(&Name::from("bb"))
        .with_appended(&Name::from("cc"));
    let p = QualifiedName::empty().with_appended(&Name::from("aa")).with_appended(
        &Name::from("bb"),
    );
    let other = QualifiedName::empty().with_appended(&Name::from("aa")).with_appended(
        &Name::from("zz"),
    );
    assert!(q.is_prefixed_by(&p));
    assert!(q.is_prefixed_by(&QualifiedName::empty()));
    assert!(!q.is_prefixed_by(&other));
    assert!(!p.is_prefixed_by(&q));
}
