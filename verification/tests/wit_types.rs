use pumpkin_logic::wit_types::{map_type, needs_rewrite, RustType, WitType};

fn path(ident: &str) -> RustType {
    RustType::Path { ident: ident.to_string(), first_type_arg: None }
}

fn generic(ident: &str, arg: RustType) -> RustType {
    RustType::Path { ident: ident.to_string(), first_type_arg: Some(Box::new(arg)) }
}

#[test]
fn scalar_types_map_to_wit_scalars() {
    assert_eq!(map_type(&path("String")), WitType::String);
    assert_eq!(map_type(&path("Uuid")), WitType::String);
    assert_eq!(map_type(&path("TextComponent")), WitType::String);
    for id in ["i32", "VarInt", "u32", "VarUInt", "usize", "u16", "i16"] {
        assert_eq!(map_type(&path(id)), WitType::S32);
    }
    assert_eq!(map_type(&path("i64")), WitType::S64);
    assert_eq!(map_type(&path("u64")), WitType::S64);
    assert_eq!(map_type(&path("bool")), WitType::Bool);
    assert_eq!(map_type(&path("f32")), WitType::F32);
    assert_eq!(map_type(&path("f64")), WitType::F64);
    assert_eq!(map_type(&path("u8")), WitType::U8);
    assert_eq!(map_type(&path("i8")), WitType::U8);
}

#[test]
fn containers_map_their_first_type_argument() {
    assert_eq!(
        map_type(&generic("Option", generic("Vec", path("u8")))),
        WitType::Option(Box::new(WitType::List(Box::new(WitType::U8))))
    );
    assert_eq!(
        map_type(&generic("Box", path("i64"))),
        WitType::List(Box::new(WitType::S64))
    );
    assert_eq!(map_type(&path("Option")), WitType::String);
    assert_eq!(map_type(&path("Vec")), WitType::String);
}

#[test]
fn positions_map_to_tuples() {
    assert_eq!(
        map_type(&path("Vector3")),
        WitType::Tuple(vec![WitType::F64, WitType::F64, WitType::F64])
    );
    assert_eq!(
        map_type(&path("BlockPos")),
        WitType::Tuple(vec![WitType::S32, WitType::S32, WitType::S32])
    );
}

#[test]
fn unknown_types_fall_back_to_string() {
    assert_eq!(map_type(&path("HashMap")), WitType::String);
    assert_eq!(map_type(&RustType::Other), WitType::String);
    assert_eq!(map_type(&generic("Option", RustType::Other)), WitType::Option(Box::new(WitType::String)));
}

#[test]
fn generated_files_are_rewritten_only_when_they_differ() {
    let code = "package pumpkin:plugin;".to_string();
    assert!(needs_rewrite(&None, &code));
    assert!(needs_rewrite(&Some("package other;".to_string()), &code));
    assert!(!needs_rewrite(&Some(code.clone()), &code));
}
