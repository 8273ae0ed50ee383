use dcg::Context;
use dcg::Enum;
use dcg::Field;
use dcg::File;
use dcg::Name;
use dcg::QualifiedName;
use dcg::Root;
use dcg::Struct;
use dcg::Type;
use dcg::TypeDef;
use dcg::TypeRef;
use dcg::TypeRefByName;

#[test]
fn test() {
    let ast = Root::new(vec![File::new(
        QualifiedName::empty().with_appended(&Name::from("myns")),
        vec![
            TypeDef::new(
                Name::from("mystruct"),
                Type::Struct(Struct::new(vec![Field::new(
                    Name::from("myfield"),
                    TypeRef::ByName(TypeRefByName::new(
                        QualifiedName::empty()
                            .with_appended(&Name::from("myns"))
                            .with_appended(&Name::from("myenum")),
                        vec![],
                    )),
                )])),
            ),
            TypeDef::new(
                Name::from("myenum"),
                Type::Enum(Enum::new(vec![Field::new(
                    Name::from("myfield"),
                    TypeRef::ByName(TypeRefByName::new(
                        QualifiedName::empty()
                            .with_appended(&Name::from("myns"))
                            .with_appended(&Name::from("unknowntype")),
                        vec![],
                    )),
                )])),
            ),
        ],
    )]);

    let mut ctx = Context::new();
    ctx.add_root(&ast);

    let struct_resolution = ctx.resolve_name(
        &QualifiedName::empty().with_appended(&Name::from("myns")),
        &QualifiedName::empty().with_appended(&Name::from("mystruct")),
    );

    let unknown_resolution = ctx.resolve_name(
        &QualifiedName::empty().with_appended(&Name::from("myns")),
        &QualifiedName::empty().with_appended(&Name::from("unknowntype")),
    );

    assert!(struct_resolution.def().is_some());
    assert!(unknown_resolution.def().is_none());

    println!("{:#?}", struct_resolution);
    println!("{:#?}", unknown_resolution);
}
