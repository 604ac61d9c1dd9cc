use amdgpu_isa::architecture::{
    architecture_filter, entry_matches_arch, is_rdna_source, normalize_architecture_hint,
    normalize_architecture_name,
};
use amdgpu_isa::types::InstructionEntry;

fn entry_with_archs(archs: &[&str]) -> InstructionEntry {
    InstructionEntry {
        name: "v_add_f32".to_string(),
        architectures: archs.iter().map(|a| a.to_string()).collect(),
        description: None,
        args: Vec::new(),
        arg_types: Vec::new(),
        arg_data_types: Vec::new(),
        available_encodings: Vec::new(),
    }
}

#[test]
fn document_label_and_runtime_hint_agree() {
    // the document normalizer and the runtime-hint normalizer both land on
    // the same canonical token
    assert_eq!(normalize_architecture_name("RDNA 3.5"), "rdna3.5");
    assert_eq!(normalize_architecture_hint("rdna35"), "rdna3.5");
}

#[test]
fn normalize_name_recognizes_families() {
    assert_eq!(normalize_architecture_name("RDNA3"), "rdna3");
    assert_eq!(normalize_architecture_name("CDNA 4"), "cdna4");
    assert_eq!(normalize_architecture_name("RDNA3.5 Instruction Set"), "rdna3.5");
    // no family keyword: lower-cased, spaces removed
    assert_eq!(normalize_architecture_name("  Some Arch  "), "somearch");
}

#[test]
fn normalize_hint_splits_two_digit_suffix() {
    assert_eq!(normalize_architecture_hint(" RDNA 35 "), "rdna3.5");
    assert_eq!(normalize_architecture_hint("rdna3"), "rdna3");
    assert_eq!(normalize_architecture_hint("cdna4"), "cdna4");
    assert_eq!(normalize_architecture_hint("rdna355"), "rdna355");
}

#[test]
fn filter_prefers_override_over_language_id() {
    let ov = "RDNA 35".to_string();
    assert_eq!(architecture_filter("rdna4", Some(&ov)), Some("rdna3.5".to_string()));
    // a blank override falls back to the language table
    let blank = "   ".to_string();
    assert_eq!(architecture_filter("rdna4", Some(&blank)), Some("rdna4".to_string()));
    assert_eq!(architecture_filter("rdna35", None), Some("rdna3.5".to_string()));
    assert_eq!(architecture_filter("asm", None), None);
}

#[test]
fn family_filter_matches_any_version() {
    let e = entry_with_archs(&["rdna3.5", "cdna4"]);
    assert!(entry_matches_arch(&e, "rdna"));
    assert!(entry_matches_arch(&e, "cdna4"));
    assert!(!entry_matches_arch(&e, "rdna4"));
    assert!(!entry_matches_arch(&e, "cdna3"));
}

#[test]
fn rdna_sources_carry_registers() {
    assert!(is_rdna_source("isa_rdna35.xml"));
    assert!(!is_rdna_source("isa_cdna4.xml"));
}
