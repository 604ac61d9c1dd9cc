use amdgpu_isa::extract::{
    extract_instruction_records, extract_special_registers, parse_operand_attributes, MarkupAttr,
    MarkupEvent,
};

fn start(name: &str) -> MarkupEvent {
    MarkupEvent::Start(name.to_string(), Vec::new())
}

fn start_with(name: &str, attrs: &[(&str, &str)]) -> MarkupEvent {
    MarkupEvent::Start(
        name.to_string(),
        attrs
            .iter()
            .map(|(k, v)| MarkupAttr { name: k.to_string(), value: v.to_string() })
            .collect(),
    )
}

fn end(name: &str) -> MarkupEvent {
    MarkupEvent::End(name.to_string())
}

fn text(t: &str) -> MarkupEvent {
    MarkupEvent::Text(t.to_string())
}

#[test]
fn instruction_records_come_from_the_events() {
    let events = vec![
        start("Document"),
        start("ArchitectureName"),
        text("RDNA3"),
        end("ArchitectureName"),
        start("Instruction"),
        start("InstructionName"),
        text("v_add_f32"),
        end("InstructionName"),
        start("AliasedInstructionNames"),
        start("InstructionName"),
        text("v_add_f32_alias"),
        end("InstructionName"),
        end("AliasedInstructionNames"),
        start("Description"),
        text("Add two floats"),
        end("Description"),
        start("InstructionEncoding"),
        start("EncodingName"),
        text("ENC_VOP2"),
        end("EncodingName"),
        start_with("Operand", &[("Order", "1"), ("IsImplicit", "false")]),
        start("FieldName"),
        text("src0"),
        end("FieldName"),
        start("OperandType"),
        text("OPR_SRC_VGPR_OR_INLINE"),
        end("OperandType"),
        end("Operand"),
        start_with("Operand", &[("Order", "0")]),
        start("FieldName"),
        text("vdst"),
        end("FieldName"),
        start("OperandType"),
        text("OPR_VGPR"),
        end("OperandType"),
        start("DataFormatName"),
        text("FMT_NUM_F32"),
        end("DataFormatName"),
        end("Operand"),
        start_with("Operand", &[("IsImplicit", "TRUE")]),
        start("OperandType"),
        text("OPR_EXEC"),
        end("OperandType"),
        end("Operand"),
        end("InstructionEncoding"),
        start("InstructionEncoding"),
        start("EncodingName"),
        text("ENC_VOP2"),
        end("EncodingName"),
        end("InstructionEncoding"),
        start("InstructionEncoding"),
        start("EncodingName"),
        text("ENC_VOP3"),
        end("EncodingName"),
        end("InstructionEncoding"),
        end("Instruction"),
        end("Document"),
    ];
    let (arch, docs) = extract_instruction_records(&events);
    assert_eq!(arch, Some("RDNA3".to_string()));
    assert_eq!(docs.len(), 1);
    let d = &docs[0];
    // the aliased name did not overwrite the real one
    assert_eq!(d.name, "v_add_f32");
    assert_eq!(d.description, Some("Add two floats".to_string()));
    // arguments come from the first encoding, sorted by declaration order,
    // the implicit operand dropped
    assert_eq!(d.args, vec!["vdst".to_string(), "src0".to_string()]);
    assert_eq!(d.arg_types, vec!["register".to_string(), "register_or_inline".to_string()]);
    assert_eq!(d.arg_data_types, vec!["FMT_NUM_F32".to_string(), "unknown".to_string()]);
    // encoding names are deduplicated and sorted
    assert_eq!(d.available_encodings, vec!["ENC_VOP2".to_string(), "ENC_VOP3".to_string()]);
}

#[test]
fn nameless_instructions_still_complete() {
    let events = vec![
        start("Instruction"),
        start("Description"),
        text("stray"),
        end("Description"),
        end("Instruction"),
    ];
    let (arch, docs) = extract_instruction_records(&events);
    assert_eq!(arch, None);
    // instruction records complete even without a name (unlike registers,
    // whose extraction drops nameless entries)
    assert_eq!(docs.len(), 1);
    assert_eq!(docs[0].name, "");
}

#[test]
fn the_first_architecture_label_wins() {
    let events = vec![
        start("ArchitectureName"),
        text("RDNA3"),
        end("ArchitectureName"),
        start("ArchitectureName"),
        text("RDNA4"),
        end("ArchitectureName"),
    ];
    let (arch, docs) = extract_instruction_records(&events);
    assert_eq!(arch, Some("RDNA3".to_string()));
    assert_eq!(docs.len(), 0);
}

#[test]
fn special_registers_come_from_predefined_values() {
    let events = vec![
        start("OperandPredefinedValues"),
        start("PredefinedValue"),
        start("Name"),
        text("vcc"),
        end("Name"),
        start("Description"),
        text("Vector condition code"),
        end("Description"),
        start("Value"),
        text("106"),
        end("Value"),
        end("PredefinedValue"),
        start("PredefinedValue"),
        start("Description"),
        text("nameless"),
        end("Description"),
        end("PredefinedValue"),
        end("OperandPredefinedValues"),
        // outside the predefined-values block, nothing is a register
        start("PredefinedValue"),
        start("Name"),
        text("exec"),
        end("Name"),
        end("PredefinedValue"),
    ];
    let regs = extract_special_registers(&events);
    assert_eq!(regs.len(), 1);
    assert_eq!(regs[0].name, "vcc");
    assert_eq!(regs[0].description, Some("Vector condition code".to_string()));
}

#[test]
fn operand_attributes_parse_case_insensitively() {
    let attrs = vec![
        MarkupAttr { name: "Input".to_string(), value: "true".to_string() },
        MarkupAttr { name: "Output".to_string(), value: "False".to_string() },
        MarkupAttr { name: "IsImplicit".to_string(), value: "maybe".to_string() },
        MarkupAttr { name: "Order".to_string(), value: "+7".to_string() },
    ];
    let op = parse_operand_attributes(&attrs);
    assert_eq!(op.input, Some(true));
    assert_eq!(op.output, Some(false));
    assert_eq!(op.is_implicit, None);
    assert_eq!(op.order, Some(7));
    assert_eq!(op.field_name, None);
}
