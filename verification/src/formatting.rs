//! Display helpers for resolved records: mnemonic casing and the compact
//! type abbreviations used in hover and signature text.

use vstd::prelude::*;

use crate::strlib::{spec_lower, str_eq, str_to_lower};

verus! {

/// Instructions display in lower case.
pub fn format_mnemonic(name: &str) -> (r: String)
    ensures
        r@ == spec_lower(name@),
{
    str_to_lower(name)
}

/// The compact label of a semantic argument category; the unknown
/// category displays nothing.
pub open spec fn spec_format_arg_type(t: Seq<char>) -> Option<Seq<char>> {
    if t == "register"@ {
        Some("reg"@)
    } else if t == "register_or_inline"@ {
        Some("reg/inline"@)
    } else if t == "immediate"@ {
        Some("imm"@)
    } else if t == "unknown"@ {
        None
    } else {
        Some(t)
    }
}

pub fn format_arg_type(arg_type: &str) -> (r: Option<String>)
    ensures
        r.deep_view() == spec_format_arg_type(arg_type@),
{
    if str_eq(arg_type, "register") {
        Some(String::from_str("reg"))
    } else if str_eq(arg_type, "register_or_inline") {
        Some(String::from_str("reg/inline"))
    } else if str_eq(arg_type, "immediate") {
        Some(String::from_str("imm"))
    } else if str_eq(arg_type, "unknown") {
        None
    } else {
        Some(arg_type.to_owned())
    }
}

/// The compact label of a numeric-format hint; unrecognized hints display
/// nothing.
pub open spec fn spec_format_data_type(t: Seq<char>) -> Option<Seq<char>> {
    if t == "FMT_NUM_B32"@ {
        Some("b32"@)
    } else if t == "FMT_NUM_B64"@ {
        Some("b64"@)
    } else if t == "FMT_NUM_F16"@ {
        Some("f16"@)
    } else if t == "FMT_NUM_F32"@ {
        Some("f32"@)
    } else if t == "FMT_NUM_F64"@ {
        Some("f64"@)
    } else if t == "FMT_NUM_BF16"@ {
        Some("bf16"@)
    } else if t == "FMT_NUM_I8"@ {
        Some("i8"@)
    } else if t == "FMT_NUM_I16"@ {
        Some("i16"@)
    } else if t == "FMT_NUM_I32"@ {
        Some("i32"@)
    } else if t == "FMT_NUM_I64"@ {
        Some("i64"@)
    } else if t == "FMT_NUM_U16"@ {
        Some("u16"@)
    } else if t == "FMT_NUM_U32"@ {
        Some("u32"@)
    } else if t == "FMT_NUM_U64"@ {
        Some("u64"@)
    } else if t == "FMT_ANY"@ {
        Some("any"@)
    } else {
        None
    }
}

pub fn format_data_type(data_type: &str) -> (r: Option<&'static str>)
    ensures
        r.deep_view() == spec_format_data_type(data_type@),
{
    if str_eq(data_type, "FMT_NUM_B32") {
        Some("b32")
    } else if str_eq(data_type, "FMT_NUM_B64") {
        Some("b64")
    } else if str_eq(data_type, "FMT_NUM_F16") {
        Some("f16")
    } else if str_eq(data_type, "FMT_NUM_F32") {
        Some("f32")
    } else if str_eq(data_type, "FMT_NUM_F64") {
        Some("f64")
    } else if str_eq(data_type, "FMT_NUM_BF16") {
        Some("bf16")
    } else if str_eq(data_type, "FMT_NUM_I8") {
        Some("i8")
    } else if str_eq(data_type, "FMT_NUM_I16") {
        Some("i16")
    } else if str_eq(data_type, "FMT_NUM_I32") {
        Some("i32")
    } else if str_eq(data_type, "FMT_NUM_I64") {
        Some("i64")
    } else if str_eq(data_type, "FMT_NUM_U16") {
        Some("u16")
    } else if str_eq(data_type, "FMT_NUM_U32") {
        Some("u32")
    } else if str_eq(data_type, "FMT_NUM_U64") {
        Some("u64")
    } else if str_eq(data_type, "FMT_ANY") {
        Some("any")
    } else {
        None
    }
}

} // verus!
