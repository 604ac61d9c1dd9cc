use amdgpu_isa::registers::{
    collect_special_registers, compress_special_registers, is_ignored_special_register,
    is_numeric_literal, is_plain_vector_or_scalar_register, is_see_above,
    normalize_special_register, split_numeric_suffix,
};
use amdgpu_isa::types::{SpecialRegister, SpecialRegisterRange, SpecialRegisterRangeOverride};

fn reg(name: &str, desc: Option<&str>) -> SpecialRegister {
    SpecialRegister { name: name.to_string(), description: desc.map(|d| d.to_string()) }
}

#[test]
fn range_expansion_reproduces_every_member() {
    // a sixteen-member range with no overrides expands to exactly the
    // sixteen names, each carrying the range description
    let r = SpecialRegisterRange {
        prefix: "ttmp".to_string(),
        start: 0,
        count: 16,
        description: Some("Trap temporary scalar".to_string()),
        overrides: Vec::new(),
    };
    let out = r.expand();
    assert_eq!(out.len(), 16);
    for (i, member) in out.iter().enumerate() {
        assert_eq!(member.name, format!("ttmp{}", i));
        assert_eq!(member.description, Some("Trap temporary scalar".to_string()));
    }
}

#[test]
fn range_expansion_applies_overrides() {
    let r = SpecialRegisterRange {
        prefix: "attr".to_string(),
        start: 2,
        count: 3,
        description: Some("Interpolation attribute".to_string()),
        overrides: vec![SpecialRegisterRangeOverride {
            index: 3,
            description: Some("Special attribute".to_string()),
        }],
    };
    let out = r.expand();
    assert_eq!(out.len(), 3);
    assert_eq!(out[0].name, "attr2");
    assert_eq!(out[1].description, Some("Special attribute".to_string()));
    assert_eq!(out[2].description, Some("Interpolation attribute".to_string()));
}

#[test]
fn compression_round_trips_an_expanded_range() {
    // expanding a range and compressing the members again yields the same
    // range back, and nothing else
    let r = SpecialRegisterRange {
        prefix: "ttmp".to_string(),
        start: 0,
        count: 16,
        description: Some("Trap temporary scalar".to_string()),
        overrides: Vec::new(),
    };
    let out = compress_special_registers(r.expand());
    assert_eq!(out.singles.len(), 0);
    assert_eq!(out.ranges.len(), 1);
    let back = &out.ranges[0];
    assert_eq!(back.prefix, "ttmp");
    assert_eq!(back.start, 0);
    assert_eq!(back.count, 16);
    assert_eq!(back.description, Some("Trap temporary scalar".to_string()));
    assert_eq!(back.overrides.len(), 0);
}

#[test]
fn two_members_never_become_a_range() {
    let out = compress_special_registers(vec![
        reg("ttmp0", Some("Trap temporary")),
        reg("ttmp1", Some("Trap temporary")),
    ]);
    assert_eq!(out.ranges.len(), 0);
    assert_eq!(out.singles.len(), 2);
    assert_eq!(out.singles[0].name, "ttmp0");
}

#[test]
fn gapped_family_never_becomes_a_range() {
    let out = compress_special_registers(vec![
        reg("ttmp0", Some("Trap temporary")),
        reg("ttmp1", Some("Trap temporary")),
        reg("ttmp3", Some("Trap temporary")),
    ]);
    assert_eq!(out.ranges.len(), 0);
    assert_eq!(out.singles.len(), 3);
}

#[test]
fn contiguous_family_compresses_with_majority_description() {
    let out = compress_special_registers(vec![
        reg("ttmp0", Some("Trap temporary")),
        reg("ttmp1", Some("Trap temporary")),
        reg("ttmp2", Some("Holds the trap base")),
        reg("ttmp3", Some("Trap temporary")),
    ]);
    assert_eq!(out.ranges.len(), 1);
    let r = &out.ranges[0];
    assert_eq!(r.prefix, "ttmp");
    assert_eq!(r.start, 0);
    assert_eq!(r.count, 4);
    assert_eq!(r.description, Some("Trap temporary".to_string()));
    assert_eq!(r.overrides.len(), 1);
    assert_eq!(r.overrides[0].index, 2);
    assert_eq!(r.overrides[0].description, Some("Holds the trap base".to_string()));
    assert_eq!(out.singles.len(), 0);
}

#[test]
fn ineligible_families_flatten_with_fallback() {
    let out = compress_special_registers(vec![
        reg("gds0", Some("Global data share slot")),
        reg("gds1", Some("See above")),
        reg("gds2", None),
    ]);
    assert_eq!(out.ranges.len(), 0);
    assert_eq!(out.singles.len(), 3);
    for s in &out.singles {
        assert_eq!(s.description, Some("Global data share slot".to_string()));
    }
}

#[test]
fn singles_without_descriptions_are_dropped_and_sorted() {
    let out = compress_special_registers(vec![
        reg("vcc", Some("Vector condition code")),
        reg("exec", Some("Execution mask")),
        reg("m0", None),
    ]);
    assert_eq!(out.ranges.len(), 0);
    assert_eq!(out.singles.len(), 2);
    assert_eq!(out.singles[0].name, "exec");
    assert_eq!(out.singles[1].name, "vcc");
}

#[test]
fn plain_and_numeric_names_never_reach_the_output() {
    // plain indexed registers and bare numeric literals are not special
    // registers
    let collected = collect_special_registers(vec![
        reg("v12", Some("plain vector register")),
        reg("s3", Some("plain scalar register")),
        reg("1.0", Some("inline constant")),
        reg("-2", Some("inline constant")),
        reg("vcc", Some("Vector condition code")),
    ]);
    assert_eq!(collected.len(), 1);
    let out = compress_special_registers(collected);
    assert_eq!(out.singles.len(), 1);
    assert_eq!(out.singles[0].name, "vcc");
    assert_eq!(out.ranges.len(), 0);
}

#[test]
fn numeric_literal_grammar() {
    assert!(is_numeric_literal("0"));
    assert!(is_numeric_literal("-2"));
    assert!(is_numeric_literal("1.5"));
    assert!(is_numeric_literal(".5"));
    assert!(is_numeric_literal("5."));
    assert!(is_numeric_literal("1e3"));
    assert!(is_numeric_literal("+1.5E-3"));
    assert!(is_numeric_literal("inf"));
    assert!(is_numeric_literal("-Infinity"));
    assert!(is_numeric_literal("NaN"));
    assert!(!is_numeric_literal(""));
    assert!(!is_numeric_literal("v12"));
    assert!(!is_numeric_literal("1.2.3"));
    assert!(!is_numeric_literal("1e"));
    assert!(!is_numeric_literal("."));
    assert!(!is_numeric_literal("0x1f"));
}

#[test]
fn plain_register_names() {
    assert!(is_plain_vector_or_scalar_register("v12"));
    assert!(is_plain_vector_or_scalar_register("s0"));
    assert!(!is_plain_vector_or_scalar_register("v"));
    assert!(!is_plain_vector_or_scalar_register("vcc"));
    assert!(!is_plain_vector_or_scalar_register("ttmp3"));
    assert!(is_ignored_special_register("s3"));
    assert!(is_ignored_special_register("2.0"));
    assert!(!is_ignored_special_register("exec"));
}

#[test]
fn numeric_suffix_splitting() {
    assert_eq!(split_numeric_suffix("ttmp12"), Some(("ttmp".to_string(), 12)));
    assert_eq!(split_numeric_suffix("attr0"), Some(("attr".to_string(), 0)));
    assert_eq!(split_numeric_suffix("exec"), None);
    assert_eq!(split_numeric_suffix("12"), None);
    assert_eq!(split_numeric_suffix("a1b2"), None);
    assert_eq!(split_numeric_suffix("x4294967296"), None);
}

#[test]
fn placeholder_descriptions_are_recognized() {
    assert!(is_see_above("<p>See above.</p>"));
    assert!(is_see_above("  see ABOVE  "));
    assert!(!is_see_above("Holds the carry bit"));
}

#[test]
fn normalization_forces_well_known_descriptions() {
    let r = normalize_special_register(reg("EXEC", Some("<p>See above.</p>")));
    assert_eq!(r.name, "EXEC");
    assert_eq!(
        r.description,
        Some("Wavefront execution mask (64-bit). Each bit enables a lane.".to_string())
    );
    let r = normalize_special_register(reg("ttmp0", Some("See above")));
    assert_eq!(r.description, None);
}

#[test]
fn duplicate_names_keep_the_longer_description() {
    let collected = collect_special_registers(vec![
        reg("M0", Some("short")),
        reg("m0", Some("a rather longer description")),
    ]);
    assert_eq!(collected.len(), 1);
    assert_eq!(collected[0].name, "M0");
    assert_eq!(collected[0].description, Some("a rather longer description".to_string()));
}
