//! Mapping of Rust types to WIT types for the generated plugin interface, and
//! the rule that decides when a generated WIT file is written again.
use vstd::prelude::*;

use crate::text::str_equal;

verus! {

/// What the WIT mapping reads of a Rust type.
#[derive(Debug)]
pub enum RustType {
    /// A type written as a path: the identifier of its last segment, and the
    /// first generic argument of that segment when it is written in angle
    /// brackets and is a type.
    Path { ident: String, first_type_arg: Option<Box<RustType>> },
    /// Any type that is not written as a path (a reference, a tuple, an array, ...).
    Other,
}

/// A WIT type.
#[derive(Debug, PartialEq)]
pub enum WitType {
    Bool,
    U8,
    S32,
    S64,
    F32,
    F64,
    String,
    Option(Box<WitType>),
    List(Box<WitType>),
    Tuple(Vec<WitType>),
}

/// Whether `r` is the WIT type that the Rust type `ty` maps to.
pub open spec fn is_mapped_type(ty: RustType, r: WitType) -> bool
    decreases ty,
{
    match ty {
        RustType::Other => r == WitType::String,
        RustType::Path { ident, first_type_arg } => {
            let id = ident@;
            if id == "String"@ || id == "Uuid"@ || id == "TextComponent"@ {
                r == WitType::String
            } else if id == "i32"@ || id == "VarInt"@ || id == "u32"@ || id == "VarUInt"@ || id
                == "usize"@ {
                r == WitType::S32
            } else if id == "i64"@ || id == "u64"@ {
                r == WitType::S64
            } else if id == "bool"@ {
                r == WitType::Bool
            } else if id == "f32"@ {
                r == WitType::F32
            } else if id == "f64"@ {
                r == WitType::F64
            } else if id == "u8"@ || id == "i8"@ {
                r == WitType::U8
            } else if id == "u16"@ || id == "i16"@ {
                r == WitType::S32
            } else if id == "Option"@ {
                match first_type_arg {
                    Some(inner) => r matches WitType::Option(b) && is_mapped_type(*inner, *b),
                    None => r == WitType::String,
                }
            } else if id == "Vec"@ || id == "Box"@ {
                match first_type_arg {
                    Some(inner) => r matches WitType::List(b) && is_mapped_type(*inner, *b),
                    None => r == WitType::String,
                }
            } else if id == "Vector3"@ {
                r matches WitType::Tuple(v) && v@ == seq![WitType::F64, WitType::F64, WitType::F64]
            } else if id == "BlockPos"@ {
                r matches WitType::Tuple(v) && v@ == seq![WitType::S32, WitType::S32, WitType::S32]
            } else {
                r == WitType::String
            }
        },
    }
}

/// Maps a Rust type of the server's API to the WIT type that plugins see.
/// Unknown types fall back to `string`.
pub fn map_type(ty: &RustType) -> (r: WitType)
    ensures
        is_mapped_type(*ty, r),
    decreases ty,
{
    match ty {
        RustType::Other => {
            WitType::String
        },
        RustType::Path { ident, first_type_arg } => {
            let id = ident.as_str();
            if str_equal(id, "String") || str_equal(id, "Uuid") || str_equal(id, "TextComponent") {
                WitType::String
            } else if str_equal(id, "i32") || str_equal(id, "VarInt") || str_equal(id, "u32")
                || str_equal(id, "VarUInt") || str_equal(id, "usize") {
                WitType::S32
            } else if str_equal(id, "i64") || str_equal(id, "u64") {
                WitType::S64
            } else if str_equal(id, "bool") {
                WitType::Bool
            } else if str_equal(id, "f32") {
                WitType::F32
            } else if str_equal(id, "f64") {
                WitType::F64
            } else if str_equal(id, "u8") || str_equal(id, "i8") {
                WitType::U8
            } else if str_equal(id, "u16") || str_equal(id, "i16") {
                WitType::S32
            } else if str_equal(id, "Option") {
                match first_type_arg {
                    Some(inner) => WitType::Option(Box::new(map_type(inner))),
                    None => WitType::String,
                }
            } else if str_equal(id, "Vec") || str_equal(id, "Box") {
                match first_type_arg {
                    Some(inner) => WitType::List(Box::new(map_type(inner))),
                    None => WitType::String,
                }
            } else if str_equal(id, "Vector3") {
                let mut v: Vec<WitType> = Vec::new();
                v.push(WitType::F64);
                v.push(WitType::F64);
                v.push(WitType::F64);
                assert(v@ =~= seq![WitType::F64, WitType::F64, WitType::F64]);
                WitType::Tuple(v)
            } else if str_equal(id, "BlockPos") {
                let mut v: Vec<WitType> = Vec::new();
                v.push(WitType::S32);
                v.push(WitType::S32);
                v.push(WitType::S32);
                assert(v@ =~= seq![WitType::S32, WitType::S32, WitType::S32]);
                WitType::Tuple(v)
            } else {
                WitType::String
            }
        },
    }
}

/// Whether a generated file must be written: unless a file is already there,
/// could be read, and holds exactly the generated text.
pub fn needs_rewrite(existing: &Option<String>, generated: &String) -> (r: bool)
    ensures
        r == !(existing matches Some(text) && text@ == generated@),
{
    match existing {
        Some(text) => !String::eq(text, generated),
        None => true,
    }
}


/// An `Option` of a type maps to the WIT option of what the type maps to, and
/// a `Vec` or a `Box` of a type to the WIT list of it, whatever the type.
pub proof fn lemma_container_types(ident: String, inner: RustType, r: WitType)
    requires
        is_mapped_type(RustType::Path { ident, first_type_arg: Some(Box::new(inner)) }, r),
    ensures
        ident@ == "Option"@ ==> (r matches WitType::Option(b) && is_mapped_type(inner, *b)),
        ident@ == "Vec"@ || ident@ == "Box"@ ==> (r matches WitType::List(b) && is_mapped_type(
            inner,
            *b,
        )),
{
    lemma_literal_shapes();
}

/// The WIT type of each named Rust type: `String`, `Uuid` and `TextComponent`
/// are strings; `i32`, `VarInt`, `u32`, `VarUInt`, `usize`, `u16` and `i16`
/// are `s32`; `i64` and `u64` are `s64`; `bool`, `f32` and `f64` are
/// themselves; `u8` and `i8` are `u8`; `Vector3` is three `f64` and
/// `BlockPos` three `s32`; an `Option`, `Vec` or `Box` without a type argument,
/// and any other name, is a string.
pub proof fn lemma_named_types(ident: String, arg: Option<Box<RustType>>, r: WitType)
    requires
        is_mapped_type(RustType::Path { ident, first_type_arg: arg }, r),
    ensures
        ident@ == "String"@ || ident@ == "Uuid"@ || ident@ == "TextComponent"@ ==> r == WitType::String,
        ident@ == "i32"@ || ident@ == "VarInt"@ || ident@ == "u32"@ || ident@ == "VarUInt"@ || ident@
            == "usize"@ || ident@ == "u16"@ || ident@ == "i16"@ ==> r == WitType::S32,
        ident@ == "i64"@ || ident@ == "u64"@ ==> r == WitType::S64,
        ident@ == "bool"@ ==> r == WitType::Bool,
        ident@ == "f32"@ ==> r == WitType::F32,
        ident@ == "f64"@ ==> r == WitType::F64,
        ident@ == "u8"@ || ident@ == "i8"@ ==> r == WitType::U8,
        ident@ == "Vector3"@ ==> (r matches WitType::Tuple(v) && v@ == seq![
            WitType::F64,
            WitType::F64,
            WitType::F64,
        ]),
        ident@ == "BlockPos"@ ==> (r matches WitType::Tuple(v) && v@ == seq![
            WitType::S32,
            WitType::S32,
            WitType::S32,
        ]),
        (ident@ == "Option"@ || ident@ == "Vec"@ || ident@ == "Box"@) && arg is None ==> r
            == WitType::String,
        !(ident@ == "String"@ || ident@ == "Uuid"@ || ident@ == "TextComponent"@ || ident@ == "i32"@
            || ident@ == "VarInt"@ || ident@ == "u32"@ || ident@ == "VarUInt"@ || ident@ == "usize"@
            || ident@ == "u16"@ || ident@ == "i16"@ || ident@ == "i64"@ || ident@ == "u64"@ || ident@
            == "bool"@ || ident@ == "f32"@ || ident@ == "f64"@ || ident@ == "u8"@ || ident@ == "i8"@
            || ident@ == "Vector3"@ || ident@ == "BlockPos"@ || ident@ == "Option"@ || ident@ == "Vec"@
            || ident@ == "Box"@) ==> r == WitType::String,
{
    lemma_literal_shapes();
}


/// The length and first two characters of each type name the mapping reads.
proof fn lemma_literal_shapes()
    ensures
        "String"@.len() == 6 && "String"@[0] == 'S' && "String"@[1] == 't',
        "Uuid"@.len() == 4 && "Uuid"@[0] == 'U' && "Uuid"@[1] == 'u',
        "TextComponent"@.len() == 13 && "TextComponent"@[0] == 'T' && "TextComponent"@[1] == 'e',
        "i32"@.len() == 3 && "i32"@[0] == 'i' && "i32"@[1] == '3',
        "VarInt"@.len() == 6 && "VarInt"@[0] == 'V' && "VarInt"@[1] == 'a',
        "u32"@.len() == 3 && "u32"@[0] == 'u' && "u32"@[1] == '3',
        "VarUInt"@.len() == 7 && "VarUInt"@[0] == 'V' && "VarUInt"@[1] == 'a',
        "usize"@.len() == 5 && "usize"@[0] == 'u' && "usize"@[1] == 's',
        "i64"@.len() == 3 && "i64"@[0] == 'i' && "i64"@[1] == '6',
        "u64"@.len() == 3 && "u64"@[0] == 'u' && "u64"@[1] == '6',
        "bool"@.len() == 4 && "bool"@[0] == 'b' && "bool"@[1] == 'o',
        "f32"@.len() == 3 && "f32"@[0] == 'f' && "f32"@[1] == '3',
        "f64"@.len() == 3 && "f64"@[0] == 'f' && "f64"@[1] == '6',
        "u8"@.len() == 2 && "u8"@[0] == 'u' && "u8"@[1] == '8',
        "i8"@.len() == 2 && "i8"@[0] == 'i' && "i8"@[1] == '8',
        "u16"@.len() == 3 && "u16"@[0] == 'u' && "u16"@[1] == '1',
        "i16"@.len() == 3 && "i16"@[0] == 'i' && "i16"@[1] == '1',
        "Option"@.len() == 6 && "Option"@[0] == 'O' && "Option"@[1] == 'p',
        "Vec"@.len() == 3 && "Vec"@[0] == 'V' && "Vec"@[1] == 'e',
        "Box"@.len() == 3 && "Box"@[0] == 'B' && "Box"@[1] == 'o',
        "Vector3"@.len() == 7 && "Vector3"@[0] == 'V' && "Vector3"@[1] == 'e',
        "BlockPos"@.len() == 8 && "BlockPos"@[0] == 'B' && "BlockPos"@[1] == 'l',
{
    reveal_strlit("String");
    reveal_strlit("Uuid");
    reveal_strlit("TextComponent");
    reveal_strlit("i32");
    reveal_strlit("VarInt");
    reveal_strlit("u32");
    reveal_strlit("VarUInt");
    reveal_strlit("usize");
    reveal_strlit("i64");
    reveal_strlit("u64");
    reveal_strlit("bool");
    reveal_strlit("f32");
    reveal_strlit("f64");
    reveal_strlit("u8");
    reveal_strlit("i8");
    reveal_strlit("u16");
    reveal_strlit("i16");
    reveal_strlit("Option");
    reveal_strlit("Vec");
    reveal_strlit("Box");
    reveal_strlit("Vector3");
    reveal_strlit("BlockPos");
}

} // verus!
