use amdgpu_isa::encoding::{
    find_matching_encoding, get_encoding_description, split_encoding_variant,
};
use amdgpu_isa::formatting::{format_arg_type, format_data_type, format_mnemonic};
use amdgpu_isa::types::EncodingVariant;

#[test]
fn combined_suffix_beats_its_tails() {
    // the longest suffix wins: never plain dpp nor plain e64
    let s = split_encoding_variant("v_add_f32_e64_dpp");
    assert_eq!(s.base, "v_add_f32");
    assert_eq!(s.variant, EncodingVariant::E64Dpp);
}

#[test]
fn each_suffix_is_recognized() {
    assert_eq!(split_encoding_variant("v_add_f32_e32").variant, EncodingVariant::E32);
    assert_eq!(split_encoding_variant("v_add_f32_e64").variant, EncodingVariant::E64);
    assert_eq!(split_encoding_variant("v_add_f32_dpp").variant, EncodingVariant::Dpp);
    assert_eq!(split_encoding_variant("v_add_f32_sdwa").variant, EncodingVariant::Sdwa);
    let s = split_encoding_variant("v_add_f32");
    assert_eq!(s.variant, EncodingVariant::Native);
    assert_eq!(s.base, "v_add_f32");
}

#[test]
fn split_keeps_original_casing_and_folds_for_matching() {
    let s = split_encoding_variant("V_ADD_F32_E64");
    assert_eq!(s.base, "V_ADD_F32");
    assert_eq!(s.variant, EncodingVariant::E64);
}

#[test]
fn encoding_descriptions_cover_the_base_forms() {
    assert_eq!(
        get_encoding_description("ENC_VOP2"),
        Some("VOP2 (32-bit): Vector ALU operation with two sources")
    );
    assert_eq!(
        get_encoding_description("VOP3_VOP_DPP8"),
        Some("VOP3 + DPP8: Extended VOP3 with data-parallel primitives (8-lane)")
    );
    assert_eq!(get_encoding_description("NOT_AN_ENCODING"), None);
}

#[test]
fn matching_prefers_the_form_the_suffix_names() {
    let encs: Vec<String> = vec![
        "VOP1_INST_LITERAL".to_string(),
        "ENC_VOP1".to_string(),
        "ENC_VOP3".to_string(),
        "VOP3_VOP_DPP16".to_string(),
        "VOP1_VOP_SDWA".to_string(),
    ];
    assert_eq!(
        find_matching_encoding(&encs, &EncodingVariant::Native),
        Some("ENC_VOP1".to_string())
    );
    assert_eq!(
        find_matching_encoding(&encs, &EncodingVariant::E32),
        Some("ENC_VOP1".to_string())
    );
    assert_eq!(
        find_matching_encoding(&encs, &EncodingVariant::E64),
        Some("ENC_VOP3".to_string())
    );
    assert_eq!(
        find_matching_encoding(&encs, &EncodingVariant::Dpp),
        Some("VOP3_VOP_DPP16".to_string())
    );
    assert_eq!(
        find_matching_encoding(&encs, &EncodingVariant::Sdwa),
        Some("VOP1_VOP_SDWA".to_string())
    );
    assert_eq!(
        find_matching_encoding(&encs, &EncodingVariant::E64Dpp),
        Some("VOP3_VOP_DPP16".to_string())
    );
}

#[test]
fn display_tables() {
    assert_eq!(format_mnemonic("V_ADD_F32"), "v_add_f32");
    assert_eq!(format_arg_type("register"), Some("reg".to_string()));
    assert_eq!(format_arg_type("register_or_inline"), Some("reg/inline".to_string()));
    assert_eq!(format_arg_type("unknown"), None);
    assert_eq!(format_arg_type("label"), Some("label".to_string()));
    assert_eq!(format_data_type("FMT_NUM_F32"), Some("f32"));
    assert_eq!(format_data_type("unknown"), None);
}
