use dcg::Context;
use dcg::Field;
use dcg::File;
use dcg::Name;
use dcg::QualifiedName;
use dcg::Root;
use dcg::Struct;
use dcg::Type;
use dcg::TypeDef;
use dcg::TypeRef;
use dcg::TypeRefByName;

fn single(token: &str) -> QualifiedName {
    QualifiedName::empty().with_appended(&Name::from(token))
}

fn pair(first: &str, second: &str) -> QualifiedName {
    QualifiedName::empty()
        .with_appended(&Name::from(first))
        .with_appended(&Name::from(second))
}

fn by_name(name: QualifiedName) -> TypeRef {
    TypeRef::ByName(TypeRefByName::new(name, vec![]))
}

fn struct_of(fields: Vec<Field>) -> Type {
    Type::Struct(Struct::new(fields))
}

#[test]
fn references_resolve_across_files() {
    // File one, namespace a, references b.Thing before file two defines it.
    let ast = Root::new(vec![
        File::new(
            single("a"),
            vec![TypeDef::new(
                Name::from("User"),
                struct_of(vec![Field::new(Name::from("t"), by_name(pair("b", "Thing")))]),
            )]),
        File::new(single("b"), vec![TypeDef::new(Name::from("Thing"), struct_of(vec![]))]),
    ]);
    let ctx = Context::from_root(&ast);

    assert!(ctx.unresolved_ids().is_empty());
    let thing = ctx.resolve_name(&single("b"), &single("Thing"));
    assert!(thing.is_defined());

    let user = ctx.resolve_name(&single("a"), &single("User"));
    match user.def().as_ref().unwrap().type_() {
        Type::Struct(s) => match &s.fields()[0].type_() {
            TypeRef::ById(r) => assert_eq!(r.id, thing.id().unwrap()),
            TypeRef::ByName(_) => panic!("field survived resolution by name"),
        },
        _ => panic!("shape changed"),
    }
}

#[test]
fn redefinition_keeps_the_handle_and_takes_the_later_shape() {
    let ast = Root::new(vec![File::new(
        single("a"),
        vec![
            TypeDef::new(
                Name::from("Foo"),
                struct_of(vec![Field::new(Name::from("x"), by_name(pair("a", "Foo")))]),
            ),
            TypeDef::new(Name::from("Foo"), struct_of(vec![])),
        ],
    )]);
    let ctx = Context::from_root(&ast);

    let foo = ctx.resolve_name(&single("a"), &single("Foo"));
    assert!(foo.is_defined());
    match foo.def().as_ref().unwrap().type_() {
        Type::Struct(s) => assert!(s.fields().is_empty()),
        _ => panic!("shape changed"),
    }
    // Only one handle was ever bound to the name.
    assert!(ctx.unresolved_ids().is_empty());
    let again = ctx.resolve_name(&single("a"), &single("Foo"));
    assert_eq!(foo.id(), again.id());
}

#[test]
fn empty_namespace_scopes_single_token_names() {
    let ast = Root::new(vec![File::new(
        QualifiedName::empty(),
        vec![TypeDef::new(Name::from("Top"), struct_of(vec![]))],
    )]);
    let ctx = Context::from_root(&ast);

    let top = ctx.resolve_name(&QualifiedName::empty(), &single("Top"));
    assert!(top.is_defined());
    assert_eq!(top.name().to_string(), "Top");
}

#[test]
fn enum_fields_are_resolved_like_struct_fields() {
    let ast = Root::new(vec![File::new(
        single("a"),
        vec![
            TypeDef::new(
                Name::from("Choice"),
                Type::Enum(dcg::Enum::new(vec![Field::new(
                    Name::from("left"),
                    by_name(pair("a", "Leaf")),
                )])),
            ),
            TypeDef::new(Name::from("Leaf"), struct_of(vec![])),
        ],
    )]);
    let ctx = Context::from_root(&ast);

    assert!(ctx.unresolved_ids().is_empty());
    let leaf_id = ctx.resolve_name(&single("a"), &single("Leaf")).id().unwrap();
    let choice = ctx.resolve_name(&single("a"), &single("Choice"));
    match choice.def().as_ref().unwrap().type_() {
        Type::Enum(e) => match &e.fields()[0].type_() {
            TypeRef::ById(r) => assert_eq!(r.id, leaf_id),
            TypeRef::ByName(_) => panic!("field survived resolution by name"),
        },
        _ => panic!("an enum's shape must stay an enum"),
    }
}
