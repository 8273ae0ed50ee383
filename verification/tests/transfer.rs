use dcg::Context;
use dcg::Field;
use dcg::File;
use dcg::Name;
use dcg::QualifiedName;
use dcg::Root;
use dcg::SerializableContext;
use dcg::Struct;
use dcg::Type;
use dcg::TypeDef;
use dcg::TypeRef;
use dcg::TypeRefByName;

fn single(token: &str) -> QualifiedName {
    QualifiedName::empty().with_appended(&Name::from(token))
}

fn pair(first: &str, second: &str) -> QualifiedName {
    QualifiedName::empty()
        .with_appended(&Name::from(first))
        .with_appended(&Name::from(second))
}

fn sample_context() -> Context {
    let ast = Root::new(vec![File::new(
        single("a"),
        vec![
            TypeDef::new(
                Name::from("foo"),
                Type::Struct(Struct::new(vec![Field::new(
                    Name::from("x"),
                    TypeRef::ByName(TypeRefByName::new(pair("a", "bar"), vec![])),
                )])),
            ),
            TypeDef::new(Name::from("bar"), Type::Struct(Struct::new(vec![]))),
            TypeDef::new(
                Name::from("open"),
                Type::Struct(Struct::new(vec![Field::new(
                    Name::from("y"),
                    TypeRef::ByName(TypeRefByName::new(pair("a", "missing"), vec![])),
                )])),
            ),
        ],
    )]);
    Context::from_root(&ast)
}

#[test]
fn transfer_form_uses_dotted_string_keys() {
    let ctx = sample_context();
    let ser = SerializableContext::from(&ctx);

    let foo_id = ctx.resolve_name(&single("a"), &single("foo")).id().unwrap().id();
    let found = ser
        .named_types
        .iter()
        .find(|entry| entry.0 == "a.foo")
        .expect("the dotted key is present");
    assert_eq!(found.1, foo_id);

    // Every defined entry carries its canonical dotted name.
    let info = ser
        .defined_types
        .iter()
        .find(|entry| entry.0 == foo_id)
        .expect("the integer key is present");
    assert_eq!(info.1.name, "a.foo");

    // The undefined list carries exactly the missing handle.
    let missing_id = ctx.resolve_name(&single("a"), &single("missing")).id().unwrap().id();
    assert_eq!(ser.undefined_ids, vec![missing_id]);
}

#[test]
fn round_trip_reproduces_every_resolution() {
    let ctx = sample_context();
    let ser = SerializableContext::from(&ctx);
    let back = Context::from_serializable(&ser);

    for name in ["foo", "bar", "open", "missing"] {
        let before = ctx.resolve_name(&single("a"), &single(name));
        let after = back.resolve_name(&single("a"), &single(name));
        assert_eq!(before.id(), after.id());
        assert_eq!(before.name().to_string(), after.name().to_string());
        assert_eq!(before.def().is_some(), after.def().is_some());

        if let Some(id) = before.id() {
            let before_by_id = ctx.resolve_id(id);
            let after_by_id = back.resolve_id(id);
            assert_eq!(before_by_id.is_some(), after_by_id.is_some());
            if let (Some(b), Some(a)) = (before_by_id, after_by_id) {
                assert_eq!(b.name().to_string(), a.name().to_string());
            }
        }
    }
    assert_eq!(ctx.unresolved_ids(), back.unresolved_ids());
}

#[test]
fn reseeded_allocator_sits_past_every_handle() {
    let ctx = sample_context();
    let ser = SerializableContext::from(&ctx);
    let back = Context::from_serializable(&ser);

    let mut max_seen: usize = 0;
    for entry in &ser.defined_types {
        max_seen = max_seen.max(entry.0);
    }
    for entry in &ser.named_types {
        max_seen = max_seen.max(entry.1);
    }
    for id in &ser.undefined_ids {
        max_seen = max_seen.max(*id);
    }
    assert_eq!(back.type_id_generator.next_type_id, max_seen + 1);
}

#[test]
fn empty_transfer_reconstructs_an_empty_context() {
    let ser = SerializableContext {
        defined_types: vec![],
        named_types: vec![],
        undefined_ids: vec![],
    };
    let back = Context::from_serializable(&ser);
    assert!(back.unresolved_ids().is_empty());
    assert_eq!(back.type_id_generator.next_type_id, 0);
    assert!(back.resolve_name(&single("a"), &single("foo")).id().is_none());
}
