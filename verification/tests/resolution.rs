use dcg::Context;
use dcg::Field;
use dcg::File;
use dcg::Name;
use dcg::Primitive;
use dcg::QualifiedName;
use dcg::Root;
use dcg::Struct;
use dcg::Type;
use dcg::TypeDef;
use dcg::TypeRef;
use dcg::TypeRefByName;

fn single(token: &str) -> QualifiedName {
    QualifiedName::empty().with_appended(&Name::from(token))
}

fn pair(first: &str, second: &str) -> QualifiedName {
    QualifiedName::empty()
        .with_appended(&Name::from(first))
        .with_appended(&Name::from(second))
}

fn by_name(name: QualifiedName) -> TypeRef {
    TypeRef::ByName(TypeRefByName::new(name, vec![]))
}

fn struct_of(fields: Vec<Field>) -> Type {
    Type::Struct(Struct::new(fields))
}

#[test]
fn scenario_forward_reference_resolves() {
    // Namespace `a` declares Foo { x: a.Bar }, then Bar { y: Int32 }, with
    // Int32 itself declared as the primitive so every reference lands.
    let ast = Root::new(vec![File::new(
        single("a"),
        vec![
            TypeDef::new(
                Name::from("Foo"),
                struct_of(vec![Field::new(Name::from("x"), by_name(pair("a", "Bar")))]),
            ),
            TypeDef::new(
                Name::from("Bar"),
                struct_of(vec![Field::new(Name::from("y"), by_name(single("Int32")))]),
            ),
            TypeDef::new(Name::from("Int32"), Type::Primitive(Primitive::Int32)),
        ],
    )]);
    let ctx = Context::from_root(&ast);

    assert!(ctx.unresolved_ids().is_empty());

    let foo = ctx.resolve_name(&single("a"), &single("Foo"));
    let bar = ctx.resolve_name(&single("a"), &single("Bar"));
    assert!(foo.def().is_some());
    assert!(bar.def().is_some());

    // Foo's field x points, by handle, at Bar's handle.
    let bar_id = bar.id().unwrap();
    let foo_def = foo.def().as_ref().unwrap();
    match foo_def.type_() {
        Type::Struct(s) => match &s.fields()[0].type_() {
            TypeRef::ById(r) => assert_eq!(r.id, bar_id),
            TypeRef::ByName(_) => panic!("field survived resolution by name"),
        },
        _ => panic!("Foo lost its struct shape"),
    }
}

#[test]
fn scenario_missing_type_stays_undefined() {
    // Namespace `a` declares Foo { x: a.Missing }; Missing never appears.
    let ast = Root::new(vec![File::new(
        single("a"),
        vec![TypeDef::new(
            Name::from("Foo"),
            struct_of(vec![Field::new(Name::from("x"), by_name(pair("a", "Missing")))]),
        )]),
    ]);
    let ctx = Context::from_root(&ast);

    assert_eq!(ctx.unresolved_ids().len(), 1);

    let missing = ctx.resolve_name(&single("a"), &single("Missing"));
    assert!(missing.is_referenced());
    assert!(!missing.is_defined());
    assert!(missing.id().is_some());
    assert!(missing.def().is_none());
    assert_eq!(ctx.unresolved_ids()[0], missing.id().unwrap());
}

#[test]
fn forward_and_backward_references_share_one_handle() {
    // early references a.Late before its definition; late_user after it.
    let ast = Root::new(vec![File::new(
        single("a"),
        vec![
            TypeDef::new(
                Name::from("early"),
                struct_of(vec![Field::new(Name::from("r"), by_name(pair("a", "Late")))]),
            ),
            TypeDef::new(Name::from("Late"), struct_of(vec![])),
            TypeDef::new(
                Name::from("lateuser"),
                struct_of(vec![Field::new(Name::from("r"), by_name(pair("a", "Late")))]),
            ),
        ],
    )]);
    let ctx = Context::from_root(&ast);

    let late_id = ctx.resolve_name(&single("a"), &single("Late")).id().unwrap();
    for name in ["early", "lateuser"] {
        let r = ctx.resolve_name(&single("a"), &single(name));
        let def = r.def().as_ref().unwrap();
        match def.type_() {
            Type::Struct(s) => match &s.fields()[0].type_() {
                TypeRef::ById(r) => assert_eq!(r.id, late_id),
                TypeRef::ByName(_) => panic!("field survived resolution by name"),
            },
            _ => panic!("shape changed"),
        }
    }
}

#[test]
fn resolving_twice_gives_identical_results() {
    let ast = Root::new(vec![File::new(
        single("a"),
        vec![TypeDef::new(Name::from("Foo"), struct_of(vec![]))],
    )]);
    let ctx = Context::from_root(&ast);

    let first = ctx.resolve_name(&single("a"), &single("Foo"));
    let second = ctx.resolve_name(&single("a"), &single("Foo"));
    assert_eq!(first.id(), second.id());
    assert_eq!(first.name().to_string(), second.name().to_string());
    assert_eq!(first.def().is_some(), second.def().is_some());

    let by_id_first = ctx.resolve_id(&first.id().unwrap()).unwrap();
    let by_id_second = ctx.resolve_id(&first.id().unwrap()).unwrap();
    assert_eq!(by_id_first.id(), by_id_second.id());
    assert_eq!(by_id_first.name().to_string(), by_id_second.name().to_string());
}

#[test]
fn self_referential_struct_resolves_to_own_handle() {
    let ast = Root::new(vec![File::new(
        single("a"),
        vec![TypeDef::new(
            Name::from("Node"),
            struct_of(vec![Field::new(Name::from("next"), by_name(pair("a", "Node")))]),
        )]),
    ]);
    let ctx = Context::from_root(&ast);

    assert!(ctx.unresolved_ids().is_empty());
    let node = ctx.resolve_name(&single("a"), &single("Node"));
    let own_id = node.id().unwrap();
    match node.def().as_ref().unwrap().type_() {
        Type::Struct(s) => match &s.fields()[0].type_() {
            TypeRef::ById(r) => assert_eq!(r.id, own_id),
            TypeRef::ByName(_) => panic!("field survived resolution by name"),
        },
        _ => panic!("shape changed"),
    }
}

#[test]
fn self_reference_through_list_shape_resolves() {
    let ast = Root::new(vec![File::new(
        single("a"),
        vec![TypeDef::new(
            Name::from("Tree"),
            Type::List(Box::new(struct_of(vec![Field::new(
                Name::from("kids"),
                by_name(pair("a", "Tree")),
            )]))),
        )]),
    ]);
    let ctx = Context::from_root(&ast);

    assert!(ctx.unresolved_ids().is_empty());
    let tree = ctx.resolve_name(&single("a"), &single("Tree"));
    let own_id = tree.id().unwrap();
    match tree.def().as_ref().unwrap().type_() {
        Type::List(inner) => match inner.as_ref() {
            Type::Struct(s) => match &s.fields()[0].type_() {
                TypeRef::ById(r) => assert_eq!(r.id, own_id),
                TypeRef::ByName(_) => panic!("field survived resolution by name"),
            },
            _ => panic!("list element shape changed"),
        },
        _ => panic!("list shape changed"),
    }
}

#[test]
fn nested_type_parameters_are_resolved_depth_first() {
    // The field's type is wrapper<a.Item>: the wrapper name stays
    // undefined, while the nested parameter resolves to Item's handle.
    let ast = Root::new(vec![File::new(
        single("a"),
        vec![
            TypeDef::new(
                Name::from("Holder"),
                struct_of(vec![Field::new(
                    Name::from("items"),
                    TypeRef::ByName(TypeRefByName::new(
                        single("wrapper"),
                        vec![by_name(pair("a", "Item"))],
                    )),
                )]),
            ),
            TypeDef::new(Name::from("Item"), struct_of(vec![])),
        ],
    )]);
    let ctx = Context::from_root(&ast);

    // Only the wrapper itself stays undefined.
    assert_eq!(ctx.unresolved_ids().len(), 1);
    let wrapper = ctx.resolve_name(&single("a"), &single("wrapper"));
    assert!(wrapper.is_referenced());
    assert!(!wrapper.is_defined());

    let item_id = ctx.resolve_name(&single("a"), &single("Item")).id().unwrap();
    let holder = ctx.resolve_name(&single("a"), &single("Holder"));
    match holder.def().as_ref().unwrap().type_() {
        Type::Struct(s) => match &s.fields()[0].type_() {
            TypeRef::ById(r) => {
                assert_eq!(r.id, wrapper.id().unwrap());
                match &r.params[0] {
                    TypeRef::ById(p) => assert_eq!(p.id, item_id),
                    TypeRef::ByName(_) => panic!("parameter survived resolution by name"),
                }
            },
            TypeRef::ByName(_) => panic!("field survived resolution by name"),
        },
        _ => panic!("shape changed"),
    }
}

#[test]
fn resolve_id_answers_only_defined_handles() {
    let ast = Root::new(vec![File::new(
        single("a"),
        vec![TypeDef::new(
            Name::from("Foo"),
            struct_of(vec![Field::new(Name::from("x"), by_name(pair("a", "Missing")))]),
        )]),
    ]);
    let ctx = Context::from_root(&ast);

    let foo = ctx.resolve_name(&single("a"), &single("Foo"));
    let resolved = ctx.resolve_id(&foo.id().unwrap()).unwrap();
    assert_eq!(resolved.name().to_string(), "a.Foo");
    assert!(resolved.def().is_some());

    let missing = ctx.resolve_name(&single("a"), &single("Missing"));
    assert!(ctx.resolve_id(&missing.id().unwrap()).is_none());
}
