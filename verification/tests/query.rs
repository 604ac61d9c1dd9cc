use amdgpu_isa::index::{load_isa_data, IsaIndex};
use amdgpu_isa::merge::merge_instructions;
use amdgpu_isa::model::{InstructionDoc, InstructionEncoding, Operand};
use amdgpu_isa::operand::build_args;
use amdgpu_isa::query::{
    completion_candidates, find_special_register, resolve_instruction, ResolveOutcome,
};
use amdgpu_isa::text_utils::{byte_offset_to_utf16_position, utf16_position_to_byte_offset};
use amdgpu_isa::types::{
    EncodingVariant, InstructionEntry, IsaData, SpecialRegister, SpecialRegistersCompressed,
    SpecialRegisterRange, SpecialRegistersData,
};

fn v_add_entry() -> InstructionEntry {
    InstructionEntry {
        name: "v_add_f32".to_string(),
        architectures: vec!["rdna3".to_string()],
        description: Some("Add two floats".to_string()),
        args: vec!["vdst".to_string(), "src0".to_string(), "src1".to_string()],
        arg_types: vec![
            "register".to_string(),
            "register_or_inline".to_string(),
            "register_or_inline".to_string(),
        ],
        arg_data_types: Vec::new(),
        available_encodings: vec!["ENC_VOP1".to_string()],
    }
}

#[test]
fn resolution_distinguishes_found_filtered_and_missing() {
    let index = IsaIndex::build(vec![v_add_entry()]);
    // the known base name under a matching filter resolves to the record
    // with the 32-bit variant
    let f3 = "rdna3".to_string();
    match resolve_instruction(&index, "v_add_f32_e32", Some(&f3)) {
        ResolveOutcome::Found(e, v) => {
            assert_eq!(e.name, "v_add_f32");
            assert_eq!(v, EncodingVariant::E32);
        },
        _ => panic!("expected a resolved record"),
    }
    // a filter no record satisfies is reported as filtered out, not as
    // missing
    let f4 = "rdna4".to_string();
    assert!(matches!(
        resolve_instruction(&index, "v_add_f32_e32", Some(&f4)),
        ResolveOutcome::FilteredOut
    ));
    // an unknown base name is missing
    assert!(matches!(
        resolve_instruction(&index, "v_sub_f32_e32", Some(&f3)),
        ResolveOutcome::NotFound
    ));
}

#[test]
fn unfiltered_resolution_returns_the_first_record() {
    let mut second = v_add_entry();
    second.architectures = vec!["rdna4".to_string()];
    second.description = Some("Newer form".to_string());
    let index = IsaIndex::build(vec![v_add_entry(), second]);
    match resolve_instruction(&index, "V_ADD_F32", None) {
        ResolveOutcome::Found(e, v) => {
            assert_eq!(e.description, Some("Add two floats".to_string()));
            assert_eq!(v, EncodingVariant::Native);
        },
        _ => panic!("expected a resolved record"),
    }
}

#[test]
fn loading_expands_compressed_registers() {
    let data = IsaData {
        instructions: vec![v_add_entry()],
        special_registers: SpecialRegistersData::Compressed(SpecialRegistersCompressed {
            singles: vec![SpecialRegister {
                name: "vcc".to_string(),
                description: Some("Vector condition code".to_string()),
            }],
            ranges: vec![SpecialRegisterRange {
                prefix: "ttmp".to_string(),
                start: 0,
                count: 3,
                description: Some("Trap temporary".to_string()),
                overrides: Vec::new(),
            }],
        }),
    };
    let (index, regs) = load_isa_data(data);
    assert_eq!(regs.len(), 4);
    assert_eq!(regs[0].name, "ttmp0");
    assert_eq!(regs[3].name, "vcc");
    let found = find_special_register(&regs, "VCC").expect("register");
    assert_eq!(found.description, Some("Vector condition code".to_string()));
    assert!(find_special_register(&regs, "m0").is_none());
    let labels = completion_candidates(&index, "add");
    assert_eq!(labels, vec!["v_add_f32".to_string()]);
    assert_eq!(completion_candidates(&index, "sub").len(), 0);
}

#[test]
fn merge_unions_architecture_sets() {
    // identical identity key across two documents: one record with the
    // union of the tags, no duplicates
    let mk = |archs: &[&str]| InstructionDoc {
        name: "v_add_f32".to_string(),
        architectures: archs.iter().map(|a| a.to_string()).collect(),
        description: Some("Add".to_string()),
        args: vec!["vdst".to_string()],
        arg_types: vec!["register".to_string()],
        arg_data_types: Vec::new(),
        available_encodings: Vec::new(),
        encodings: Vec::new(),
    };
    let mut merged: Vec<InstructionDoc> = Vec::new();
    merge_instructions(&mut merged, vec![mk(&["rdna3"])]);
    merge_instructions(&mut merged, vec![mk(&["rdna3", "rdna4"])]);
    assert_eq!(merged.len(), 1);
    assert_eq!(merged[0].architectures, vec!["rdna3".to_string(), "rdna4".to_string()]);
}

#[test]
fn merge_keeps_differing_records_distinct() {
    let mut a = InstructionDoc {
        name: "v_add_f32".to_string(),
        architectures: vec!["rdna3".to_string()],
        description: Some("Add".to_string()),
        args: vec!["vdst".to_string()],
        arg_types: vec!["register".to_string()],
        arg_data_types: Vec::new(),
        available_encodings: Vec::new(),
        encodings: Vec::new(),
    };
    let mut merged: Vec<InstructionDoc> = Vec::new();
    merge_instructions(&mut merged, vec![a]);
    a = InstructionDoc {
        name: "v_add_f32".to_string(),
        architectures: vec!["rdna4".to_string()],
        description: Some("Add, saturating".to_string()),
        args: vec!["vdst".to_string()],
        arg_types: vec!["register".to_string()],
        arg_data_types: Vec::new(),
        available_encodings: Vec::new(),
        encodings: Vec::new(),
    };
    merge_instructions(&mut merged, vec![a]);
    assert_eq!(merged.len(), 2);
}

fn op(name: Option<&str>, ty: Option<&str>, implicit: Option<bool>, order: Option<u32>) -> Operand {
    Operand {
        field_name: name.map(|s| s.to_string()),
        operand_type: ty.map(|s| s.to_string()),
        data_format_name: None,
        size: None,
        input: None,
        output: None,
        is_implicit: implicit,
        order,
    }
}

#[test]
fn args_come_from_the_first_encoding_sorted_and_filtered() {
    let encodings = vec![
        InstructionEncoding {
            encoding_name: Some("ENC_VOP2".to_string()),
            operands: vec![
                op(Some("src1"), Some("OPR_SRC_VGPR_OR_INLINE"), None, Some(2)),
                op(Some("vdst"), Some("OPR_VGPR"), None, Some(0)),
                op(None, Some("OPR_EXEC"), Some(true), Some(9)),
                op(Some("src0"), Some("OPR_SRC_VGPR_OR_INLINE"), None, Some(1)),
                op(None, Some("OPR_SIMM16"), None, None),
            ],
        },
        InstructionEncoding { encoding_name: Some("ENC_VOP3".to_string()), operands: Vec::new() },
    ];
    let (args, arg_types, arg_data_types) = build_args(&encodings);
    assert_eq!(
        args,
        vec![
            "vdst".to_string(),
            "src0".to_string(),
            "src1".to_string(),
            "OPR_SIMM16".to_string()
        ]
    );
    assert_eq!(
        arg_types,
        vec![
            "register".to_string(),
            "register_or_inline".to_string(),
            "register_or_inline".to_string(),
            "immediate".to_string()
        ]
    );
    assert_eq!(arg_data_types.len(), 4);
    assert_eq!(arg_data_types[0], "unknown");
}

#[test]
fn empty_encodings_give_empty_args() {
    let (args, tys, data) = build_args(&[]);
    assert!(args.is_empty() && tys.is_empty() && data.is_empty());
}

#[test]
fn position_conversions_round_trip_on_ascii() {
    let line = "v_add_f32 v0, v1, v2";
    assert_eq!(utf16_position_to_byte_offset(line, 5), 5);
    assert_eq!(byte_offset_to_utf16_position(line, 5), 5);
    assert_eq!(utf16_position_to_byte_offset(line, 99), line.len());
}

#[test]
fn position_conversions_handle_wide_characters() {
    // a three-byte character counts one UTF-16 unit
    let line = "\u{20AC}ab";
    assert_eq!(utf16_position_to_byte_offset(line, 1), 3);
    assert_eq!(byte_offset_to_utf16_position(line, 3), 1);
    // a supplementary character counts two UTF-16 units and four bytes
    let line2 = "\u{1F600}x";
    assert_eq!(utf16_position_to_byte_offset(line2, 2), 4);
    assert_eq!(byte_offset_to_utf16_position(line2, 4), 2);
}
