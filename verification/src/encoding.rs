//! Encoding-variant suffix handling and encoding descriptions.
//!
//! Instruction tokens may carry a naming-convention suffix (`_e64`, `_dpp`,
//! ...) naming the concrete bit-encoding form meant.  Longer suffixes are
//! recognized before shorter ones, so a combined suffix is never taken for
//! one of its tails.

use vstd::prelude::*;

use crate::strlib::{
    chars_of, lower_chars, slice_contains_seq, slice_ends_with, slice_starts_with,
    spec_contains_seq, spec_ends_with, spec_lower, spec_starts_with, str_contains, str_eq,
    str_starts_with, string_from_chars,
};
use crate::types::{EncodingVariant, SplitInstruction};

verus! {

/// How an instruction token splits into base name and encoding variant:
/// the longest recognized suffix of the lower-cased token decides the
/// variant, and the base keeps the token's own casing.
pub open spec fn spec_split_variant(m: Seq<char>) -> (Seq<char>, EncodingVariant) {
    let low = spec_lower(m);
    if spec_ends_with(low, "_e64_dpp"@) {
        (m.subrange(0, m.len() - "_e64_dpp"@.len()), EncodingVariant::E64Dpp)
    } else if spec_ends_with(low, "_e32"@) {
        (m.subrange(0, m.len() - "_e32"@.len()), EncodingVariant::E32)
    } else if spec_ends_with(low, "_e64"@) {
        (m.subrange(0, m.len() - "_e64"@.len()), EncodingVariant::E64)
    } else if spec_ends_with(low, "_dpp"@) {
        (m.subrange(0, m.len() - "_dpp"@.len()), EncodingVariant::Dpp)
    } else if spec_ends_with(low, "_sdwa"@) {
        (m.subrange(0, m.len() - "_sdwa"@.len()), EncodingVariant::Sdwa)
    } else {
        (m, EncodingVariant::Native)
    }
}

/// Split a raw instruction token into base name and encoding variant.
pub fn split_encoding_variant(mnemonic: &str) -> (r: SplitInstruction)
    ensures
        r.base@ == spec_split_variant(mnemonic@).0,
        r.variant == spec_split_variant(mnemonic@).1,
{
    let m = chars_of(mnemonic);
    let low = lower_chars(m.as_slice());
    proof {
        assert(low@.len() == m@.len());
    }
    let suffixes: [(&str, EncodingVariant); 5] = [
        ("_e64_dpp", EncodingVariant::E64Dpp),
        ("_e32", EncodingVariant::E32),
        ("_e64", EncodingVariant::E64),
        ("_dpp", EncodingVariant::Dpp),
        ("_sdwa", EncodingVariant::Sdwa),
    ];
    // check longer suffixes first so a short suffix never matches inside a
    // longer one
    let mut k: usize = 0;
    while k < 5
        invariant
            m@ == mnemonic@,
            low@ == spec_lower(mnemonic@),
            low@.len() == m@.len(),
            suffixes@[0].0@ == "_e64_dpp"@ && suffixes@[0].1 == EncodingVariant::E64Dpp,
            suffixes@[1].0@ == "_e32"@ && suffixes@[1].1 == EncodingVariant::E32,
            suffixes@[2].0@ == "_e64"@ && suffixes@[2].1 == EncodingVariant::E64,
            suffixes@[3].0@ == "_dpp"@ && suffixes@[3].1 == EncodingVariant::Dpp,
            suffixes@[4].0@ == "_sdwa"@ && suffixes@[4].1 == EncodingVariant::Sdwa,
            k <= 5,
            forall|j: int|
                0 <= j < k ==> !spec_ends_with(spec_lower(mnemonic@), #[trigger] suffixes@[j].0@),
        decreases 5 - k,
    {
        let (suffix, variant) = suffixes[k];
        let sv = chars_of(suffix);
        if slice_ends_with(low.as_slice(), sv.as_slice()) {
            let mut base: Vec<char> = Vec::new();
            let keep = m.len() - sv.len();
            let mut i: usize = 0;
            while i < keep
                invariant
                    keep <= m@.len(),
                    i <= keep,
                    base@ =~= m@.subrange(0, i as int),
                decreases keep - i,
            {
                base.push(m[i]);
                i += 1;
            }
            proof {
                assert(base@ =~= mnemonic@.subrange(0, mnemonic@.len() - sv@.len()));
            }
            return SplitInstruction { base: string_from_chars(&base), variant };
        }
        k += 1;
    }
    SplitInstruction { base: string_from_chars(&m), variant: EncodingVariant::Native }
}

/// Suffix recognition is priority-correct: a token whose lower-cased form
/// ends in the combined 64-bit data-parallel suffix is classified as that
/// combined variant, never as the plain data-parallel or plain 64-bit one.
pub proof fn lemma_split_suffix_priority(m: Seq<char>)
    requires
        spec_ends_with(spec_lower(m), "_e64_dpp"@),
    ensures
        spec_split_variant(m).1 == EncodingVariant::E64Dpp,
        spec_split_variant(m).1 != EncodingVariant::Dpp,
        spec_split_variant(m).1 != EncodingVariant::E64,
{
}

/// The human-readable description of each known concrete encoding name.
pub open spec fn spec_encoding_description(s: Seq<char>) -> Option<Seq<char>> {
    if s == "ENC_VOP1"@ {
        Some("VOP1 (32-bit): Vector ALU operation with one source"@)
    } else if s == "ENC_VOP2"@ {
        Some("VOP2 (32-bit): Vector ALU operation with two sources"@)
    } else if s == "ENC_VOPC"@ {
        Some("VOPC (32-bit): Vector ALU comparison operation"@)
    } else if s == "ENC_VOP3"@ {
        Some("VOP3 (64-bit): Extended vector ALU with modifiers and additional operand flexibility"@)
    } else if s == "ENC_VOP3P"@ {
        Some("VOP3P (64-bit): Packed vector ALU operation"@)
    } else if s == "VOP1_VOP_DPP"@ || s == "VOP1_VOP_DPP16"@ {
        Some("VOP1 + DPP16: Data-parallel primitives with 16-lane swizzle"@)
    } else if s == "VOP1_VOP_DPP8"@ {
        Some("VOP1 + DPP8: Data-parallel primitives with 8-lane swizzle"@)
    } else if s == "VOP2_VOP_DPP"@ || s == "VOP2_VOP_DPP16"@ {
        Some("VOP2 + DPP16: Data-parallel primitives with 16-lane swizzle"@)
    } else if s == "VOP2_VOP_DPP8"@ {
        Some("VOP2 + DPP8: Data-parallel primitives with 8-lane swizzle"@)
    } else if s == "VOPC_VOP_DPP"@ || s == "VOPC_VOP_DPP16"@ {
        Some("VOPC + DPP16: Comparison with data-parallel primitives (16-lane)"@)
    } else if s == "VOPC_VOP_DPP8"@ {
        Some("VOPC + DPP8: Comparison with data-parallel primitives (8-lane)"@)
    } else if s == "VOP3_VOP_DPP16"@ {
        Some("VOP3 + DPP16: Extended VOP3 with data-parallel primitives (16-lane)"@)
    } else if s == "VOP3_VOP_DPP8"@ {
        Some("VOP3 + DPP8: Extended VOP3 with data-parallel primitives (8-lane)"@)
    } else if s == "VOP3P_VOP_DPP16"@ {
        Some("VOP3P + DPP16: Packed operation with data-parallel primitives (16-lane)"@)
    } else if s == "VOP3P_VOP_DPP8"@ {
        Some("VOP3P + DPP8: Packed operation with data-parallel primitives (8-lane)"@)
    } else if s == "VOP3_SDST_ENC_VOP_DPP16"@ {
        Some("VOP3 SDST + DPP16: VOP3 with scalar destination and DPP (16-lane)"@)
    } else if s == "VOP3_SDST_ENC_VOP_DPP8"@ {
        Some("VOP3 SDST + DPP8: VOP3 with scalar destination and DPP (8-lane)"@)
    } else if s == "VOP1_VOP_SDWA"@ {
        Some("VOP1 + SDWA: Sub-DWORD addressing for byte/word operations"@)
    } else if s == "VOP2_VOP_SDWA"@ {
        Some("VOP2 + SDWA: Sub-DWORD addressing for byte/word operations"@)
    } else if s == "VOPC_VOP_SDWA"@ {
        Some("VOPC + SDWA: Comparison with sub-DWORD addressing"@)
    } else if s == "VOP1_INST_LITERAL"@ {
        Some("VOP1 + Literal (64-bit): Includes 32-bit inline constant"@)
    } else if s == "VOP2_INST_LITERAL"@ {
        Some("VOP2 + Literal (64-bit): Includes 32-bit inline constant"@)
    } else if s == "VOPC_INST_LITERAL"@ {
        Some("VOPC + Literal (64-bit): Includes 32-bit inline constant"@)
    } else if s == "VOP3_INST_LITERAL"@ {
        Some("VOP3 + Literal (96-bit): VOP3 with 32-bit inline constant"@)
    } else if s == "VOP3P_INST_LITERAL"@ {
        Some("VOP3P + Literal (96-bit): Packed operation with 32-bit inline constant"@)
    } else if s == "VOP3_SDST_ENC_INST_LITERAL"@ {
        Some("VOP3 SDST + Literal (96-bit): VOP3 with scalar destination and literal"@)
    } else if s == "VOP3_SDST_ENC"@ {
        Some("VOP3 SDST (64-bit): VOP3 with scalar destination"@)
    } else if s == "ENC_SOP1"@ {
        Some("SOP1 (32-bit): Scalar ALU operation with one source"@)
    } else if s == "ENC_SOP2"@ {
        Some("SOP2 (32-bit): Scalar ALU operation with two sources"@)
    } else if s == "ENC_SOPC"@ {
        Some("SOPC (32-bit): Scalar ALU comparison operation"@)
    } else if s == "ENC_SOPK"@ {
        Some("SOPK (32-bit): Scalar operation with 16-bit inline constant"@)
    } else if s == "ENC_SOPP"@ {
        Some("SOPP (32-bit): Scalar operation for program control"@)
    } else if s == "SOP1_INST_LITERAL"@ {
        Some("SOP1 + Literal (64-bit): Scalar operation with 32-bit inline constant"@)
    } else if s == "SOP2_INST_LITERAL"@ {
        Some("SOP2 + Literal (64-bit): Scalar operation with 32-bit inline constant"@)
    } else if s == "SOPC_INST_LITERAL"@ {
        Some("SOPC + Literal (64-bit): Scalar comparison with 32-bit inline constant"@)
    } else if s == "SOPK_INST_LITERAL"@ {
        Some("SOPK + Literal (64-bit): Scalar operation with extended constant"@)
    } else if s == "ENC_SMEM"@ {
        Some("SMEM: Scalar memory operation"@)
    } else if s == "ENC_DS"@ {
        Some("DS: Data share (LDS/GDS) operation"@)
    } else if s == "ENC_MUBUF"@ {
        Some("MUBUF: Untyped buffer memory operation"@)
    } else if s == "ENC_MTBUF"@ {
        Some("MTBUF: Typed buffer memory operation"@)
    } else if s == "ENC_MIMG"@ {
        Some("MIMG: Image memory operation"@)
    } else if s == "MIMG_NSA1"@ {
        Some("MIMG NSA: Non-sequential address mode for images"@)
    } else if s == "ENC_FLAT"@ {
        Some("FLAT: Flat addressing (global/scratch/LDS)"@)
    } else if s == "ENC_FLAT_SCRATCH"@ {
        Some("FLAT Scratch: Flat addressing for scratch memory"@)
    } else if s == "ENC_FLAT_GLOBAL"@ {
        Some("FLAT Global: Flat addressing for global memory"@)
    } else if s == "ENC_VINTERP"@ {
        Some("VINTERP: Vector interpolation operation"@)
    } else if s == "ENC_LDSDIR"@ {
        Some("LDSDIR: LDS direct read operation"@)
    } else if s == "ENC_EXP"@ {
        Some("EXP: Export operation for pixel/vertex data"@)
    } else if s == "VOPDXY"@ {
        Some("VOPDXY: Vector operation with partial derivatives"@)
    } else if s == "VOPDXY_INST_LITERAL"@ {
        Some("VOPDXY + Literal: Vector partial derivative with inline constant"@)
    } else {
        None
    }
}

/// Look up the description of a concrete encoding name.
pub fn get_encoding_description(encoding_name: &str) -> (r: Option<&'static str>)
    ensures
        r.deep_view() == spec_encoding_description(encoding_name@),
{
    let s = encoding_name;
    if str_eq(s, "ENC_VOP1") {
        Some("VOP1 (32-bit): Vector ALU operation with one source")
    } else if str_eq(s, "ENC_VOP2") {
        Some("VOP2 (32-bit): Vector ALU operation with two sources")
    } else if str_eq(s, "ENC_VOPC") {
        Some("VOPC (32-bit): Vector ALU comparison operation")
    } else if str_eq(s, "ENC_VOP3") {
        Some("VOP3 (64-bit): Extended vector ALU with modifiers and additional operand flexibility")
    } else if str_eq(s, "ENC_VOP3P") {
        Some("VOP3P (64-bit): Packed vector ALU operation")
    } else if str_eq(s, "VOP1_VOP_DPP") || str_eq(s, "VOP1_VOP_DPP16") {
        Some("VOP1 + DPP16: Data-parallel primitives with 16-lane swizzle")
    } else if str_eq(s, "VOP1_VOP_DPP8") {
        Some("VOP1 + DPP8: Data-parallel primitives with 8-lane swizzle")
    } else if str_eq(s, "VOP2_VOP_DPP") || str_eq(s, "VOP2_VOP_DPP16") {
        Some("VOP2 + DPP16: Data-parallel primitives with 16-lane swizzle")
    } else if str_eq(s, "VOP2_VOP_DPP8") {
        Some("VOP2 + DPP8: Data-parallel primitives with 8-lane swizzle")
    } else if str_eq(s, "VOPC_VOP_DPP") || str_eq(s, "VOPC_VOP_DPP16") {
        Some("VOPC + DPP16: Comparison with data-parallel primitives (16-lane)")
    } else if str_eq(s, "VOPC_VOP_DPP8") {
        Some("VOPC + DPP8: Comparison with data-parallel primitives (8-lane)")
    } else if str_eq(s, "VOP3_VOP_DPP16") {
        Some("VOP3 + DPP16: Extended VOP3 with data-parallel primitives (16-lane)")
    } else if str_eq(s, "VOP3_VOP_DPP8") {
        Some("VOP3 + DPP8: Extended VOP3 with data-parallel primitives (8-lane)")
    } else if str_eq(s, "VOP3P_VOP_DPP16") {
        Some("VOP3P + DPP16: Packed operation with data-parallel primitives (16-lane)")
    } else if str_eq(s, "VOP3P_VOP_DPP8") {
        Some("VOP3P + DPP8: Packed operation with data-parallel primitives (8-lane)")
    } else if str_eq(s, "VOP3_SDST_ENC_VOP_DPP16") {
        Some("VOP3 SDST + DPP16: VOP3 with scalar destination and DPP (16-lane)")
    } else if str_eq(s, "VOP3_SDST_ENC_VOP_DPP8") {
        Some("VOP3 SDST + DPP8: VOP3 with scalar destination and DPP (8-lane)")
    } else if str_eq(s, "VOP1_VOP_SDWA") {
        Some("VOP1 + SDWA: Sub-DWORD addressing for byte/word operations")
    } else if str_eq(s, "VOP2_VOP_SDWA") {
        Some("VOP2 + SDWA: Sub-DWORD addressing for byte/word operations")
    } else if str_eq(s, "VOPC_VOP_SDWA") {
        Some("VOPC + SDWA: Comparison with sub-DWORD addressing")
    } else if str_eq(s, "VOP1_INST_LITERAL") {
        Some("VOP1 + Literal (64-bit): Includes 32-bit inline constant")
    } else if str_eq(s, "VOP2_INST_LITERAL") {
        Some("VOP2 + Literal (64-bit): Includes 32-bit inline constant")
    } else if str_eq(s, "VOPC_INST_LITERAL") {
        Some("VOPC + Literal (64-bit): Includes 32-bit inline constant")
    } else if str_eq(s, "VOP3_INST_LITERAL") {
        Some("VOP3 + Literal (96-bit): VOP3 with 32-bit inline constant")
    } else if str_eq(s, "VOP3P_INST_LITERAL") {
        Some("VOP3P + Literal (96-bit): Packed operation with 32-bit inline constant")
    } else if str_eq(s, "VOP3_SDST_ENC_INST_LITERAL") {
        Some("VOP3 SDST + Literal (96-bit): VOP3 with scalar destination and literal")
    } else if str_eq(s, "VOP3_SDST_ENC") {
        Some("VOP3 SDST (64-bit): VOP3 with scalar destination")
    } else if str_eq(s, "ENC_SOP1") {
        Some("SOP1 (32-bit): Scalar ALU operation with one source")
    } else if str_eq(s, "ENC_SOP2") {
        Some("SOP2 (32-bit): Scalar ALU operation with two sources")
    } else if str_eq(s, "ENC_SOPC") {
        Some("SOPC (32-bit): Scalar ALU comparison operation")
    } else if str_eq(s, "ENC_SOPK") {
        Some("SOPK (32-bit): Scalar operation with 16-bit inline constant")
    } else if str_eq(s, "ENC_SOPP") {
        Some("SOPP (32-bit): Scalar operation for program control")
    } else if str_eq(s, "SOP1_INST_LITERAL") {
        Some("SOP1 + Literal (64-bit): Scalar operation with 32-bit inline constant")
    } else if str_eq(s, "SOP2_INST_LITERAL") {
        Some("SOP2 + Literal (64-bit): Scalar operation with 32-bit inline constant")
    } else if str_eq(s, "SOPC_INST_LITERAL") {
        Some("SOPC + Literal (64-bit): Scalar comparison with 32-bit inline constant")
    } else if str_eq(s, "SOPK_INST_LITERAL") {
        Some("SOPK + Literal (64-bit): Scalar operation with extended constant")
    } else if str_eq(s, "ENC_SMEM") {
        Some("SMEM: Scalar memory operation")
    } else if str_eq(s, "ENC_DS") {
        Some("DS: Data share (LDS/GDS) operation")
    } else if str_eq(s, "ENC_MUBUF") {
        Some("MUBUF: Untyped buffer memory operation")
    } else if str_eq(s, "ENC_MTBUF") {
        Some("MTBUF: Typed buffer memory operation")
    } else if str_eq(s, "ENC_MIMG") {
        Some("MIMG: Image memory operation")
    } else if str_eq(s, "MIMG_NSA1") {
        Some("MIMG NSA: Non-sequential address mode for images")
    } else if str_eq(s, "ENC_FLAT") {
        Some("FLAT: Flat addressing (global/scratch/LDS)")
    } else if str_eq(s, "ENC_FLAT_SCRATCH") {
        Some("FLAT Scratch: Flat addressing for scratch memory")
    } else if str_eq(s, "ENC_FLAT_GLOBAL") {
        Some("FLAT Global: Flat addressing for global memory")
    } else if str_eq(s, "ENC_VINTERP") {
        Some("VINTERP: Vector interpolation operation")
    } else if str_eq(s, "ENC_LDSDIR") {
        Some("LDSDIR: LDS direct read operation")
    } else if str_eq(s, "ENC_EXP") {
        Some("EXP: Export operation for pixel/vertex data")
    } else if str_eq(s, "VOPDXY") {
        Some("VOPDXY: Vector operation with partial derivatives")
    } else if str_eq(s, "VOPDXY_INST_LITERAL") {
        Some("VOPDXY + Literal: Vector partial derivative with inline constant")
    } else {
        None
    }
}

/// Whether a concrete encoding name is a plausible match for a variant
/// suffix: bare non-literal base encodings serve the suffix-less form, the
/// 32-bit vector encodings serve the 32-bit suffix, the extended form
/// serves the 64-bit suffix, and the data-parallel and sub-addressing
/// suffixes accept any encoding carrying the corresponding marker.
pub open spec fn spec_encoding_matches(e: Seq<char>, v: EncodingVariant) -> bool {
    match v {
        EncodingVariant::Native => spec_starts_with(e, "ENC_"@) && !spec_contains_seq(
            e,
            "LITERAL"@,
        ),
        EncodingVariant::E32 => e == "ENC_VOP1"@ || e == "ENC_VOP2"@ || e == "ENC_VOPC"@,
        EncodingVariant::E64 => e == "ENC_VOP3"@,
        // the second disjunct subsumes the first; preferring the 16-lane
        // form comes from taking the first match in the record's encoding
        // list, not from this predicate
        EncodingVariant::Dpp => spec_contains_seq(e, "DPP16"@) || spec_contains_seq(e, "DPP"@),
        EncodingVariant::Sdwa => spec_contains_seq(e, "SDWA"@),
        EncodingVariant::E64Dpp => spec_starts_with(e, "VOP3"@) && (spec_contains_seq(e, "DPP16"@)
            || spec_contains_seq(e, "DPP"@)),
    }
}

/// The first encoding name in the list matching the variant.
pub open spec fn spec_first_matching_encoding(encs: Seq<Seq<char>>, v: EncodingVariant) -> Option<
    Seq<char>,
>
    decreases encs.len(),
{
    if encs.len() == 0 {
        None
    } else if spec_encoding_matches(encs[0], v) {
        Some(encs[0])
    } else {
        spec_first_matching_encoding(encs.drop_first(), v)
    }
}

fn encoding_matches(e: &str, variant: &EncodingVariant) -> (r: bool)
    ensures
        r == spec_encoding_matches(e@, *variant),
{
    match variant {
        EncodingVariant::Native => {
            str_starts_with(e, "ENC_") && !str_contains(e, "LITERAL")
        },
        EncodingVariant::E32 => {
            str_eq(e, "ENC_VOP1") || str_eq(e, "ENC_VOP2") || str_eq(e, "ENC_VOPC")
        },
        EncodingVariant::E64 => str_eq(e, "ENC_VOP3"),
        EncodingVariant::Dpp => str_contains(e, "DPP16") || str_contains(e, "DPP"),
        EncodingVariant::Sdwa => str_contains(e, "SDWA"),
        EncodingVariant::E64Dpp => {
            str_starts_with(e, "VOP3") && (str_contains(e, "DPP16") || str_contains(e, "DPP"))
        },
    }
}

/// Pick the concrete encoding name a variant suffix refers to: the first
/// matching one, in the order the record lists its encodings.
pub fn find_matching_encoding(available_encodings: &[String], variant: &EncodingVariant) -> (r:
    Option<String>)
    ensures
        r.deep_view() == spec_first_matching_encoding(
            available_encodings.deep_view(),
            *variant,
        ),
{
    let n = available_encodings.len();
    let ghost encs = available_encodings.deep_view();
    let mut i: usize = 0;
    proof {
        assert(encs =~= encs.subrange(0, n as int));
    }
    while i < n
        invariant
            n == available_encodings@.len(),
            n == encs.len(),
            encs == available_encodings.deep_view(),
            i <= n,
            spec_first_matching_encoding(encs, *variant) == spec_first_matching_encoding(
                encs.subrange(i as int, n as int),
                *variant,
            ),
        decreases n - i,
    {
        proof {
            assert(encs.subrange(i as int, n as int)[0] == encs[i as int]);
            assert(encs.subrange(i as int, n as int).drop_first() =~= encs.subrange(
                i + 1,
                n as int,
            ));
        }
        if encoding_matches(available_encodings[i].as_str(), variant) {
            proof {
                assert(spec_encoding_matches(encs[i as int], *variant));
            }
            return Some(available_encodings[i].clone());
        }
        i += 1;
    }
    None
}

} // verus!
