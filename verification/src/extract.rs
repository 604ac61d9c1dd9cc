//! Record extraction from the markup documents, as a fold over a plain
//! event stream.
//!
//! The caller tokenizes a document into start/end/text events with plain
//! attribute pairs; everything the events mean — which elements carry
//! which fields, aliased instruction names excluded, the first
//! architecture label winning, records completed on their closing element
//! only when named — is decided here.

use vstd::prelude::*;

use crate::merge::{doc_views, DocView};
use crate::model::{InstructionDoc, InstructionEncoding, Operand};
use crate::operand::{build_args, op_views, parse_bool, spec_args_of, spec_parse_bool, spec_sort_ops, OpView};
use crate::registers::reg_views;
use crate::strlib::{
    chars_of, lemma_lex_lt_asym, lemma_lex_total, lex_lt, parse_u32_chars, spec_all_digits,
    spec_digits_val, spec_lex_lt, str_eq,
};
use crate::types::{RegView, SpecialRegister};

verus! {

/// One attribute of a markup element, unescaped.
pub struct MarkupAttr {
    pub name: String,
    pub value: String,
}

/// One event of a markup document: an element opening (with its
/// attributes), an element closing, or element text.
pub enum MarkupEvent {
    Start(String, Vec<MarkupAttr>),
    End(String),
    Text(String),
}

/// The first value carried under the attribute `key`, if any.
pub open spec fn spec_attr(attrs: Seq<MarkupAttr>, key: Seq<char>) -> Option<Seq<char>>
    decreases attrs.len(),
{
    if attrs.len() == 0 {
        None
    } else if attrs[0].name@ == key {
        Some(attrs[0].value@)
    } else {
        spec_attr(attrs.drop_first(), key)
    }
}

fn attr_value(attrs: &Vec<MarkupAttr>, key: &str) -> (r: Option<String>)
    ensures
        r.deep_view() == spec_attr(attrs@, key@),
{
    let n = attrs.len();
    let mut i: usize = 0;
    proof {
        assert(attrs@ =~= attrs@.subrange(0, n as int));
    }
    while i < n
        invariant
            n == attrs@.len(),
            i <= n,
            spec_attr(attrs@, key@) == spec_attr(attrs@.subrange(i as int, n as int), key@),
        decreases n - i,
    {
        proof {
            assert(attrs@.subrange(i as int, n as int)[0] == attrs@[i as int]);
            assert(attrs@.subrange(i as int, n as int).drop_first() =~= attrs@.subrange(
                i + 1,
                n as int,
            ));
        }
        if str_eq(attrs[i].name.as_str(), key) {
            return Some(attrs[i].value.clone());
        }
        i += 1;
    }
    None
}

/// What `str::parse::<u32>` accepts: an optional plus sign, then digits
/// whose value fits.
pub open spec fn spec_parse_u32_str(s: Seq<char>) -> Option<u32> {
    let b = if s.len() > 0 && s[0] == '+' {
        s.drop_first()
    } else {
        s
    };
    if b.len() > 0 && spec_all_digits(b) && spec_digits_val(b) <= u32::MAX {
        Some(spec_digits_val(b) as u32)
    } else {
        None
    }
}

fn parse_u32_str(s: &str) -> (r: Option<u32>)
    ensures
        r == spec_parse_u32_str(s@),
{
    let v = chars_of(s);
    let n = v.len();
    let b = if n > 0 && v[0] == '+' {
        crate::strlib::subrange_chars(v.as_slice(), 1, n)
    } else {
        crate::strlib::subrange_chars(v.as_slice(), 0, n)
    };
    proof {
        assert(v@.subrange(0, n as int) =~= v@);
        if n > 0 && v@[0] == '+' {
            assert(v@.subrange(1, n as int) =~= v@.drop_first());
        }
    }
    parse_u32_chars(b.as_slice())
}

/// The operand an opening element's attributes declare: the boolean
/// flags and declaration order, the text fields still unset.
pub open spec fn spec_operand_of_attrs(attrs: Seq<MarkupAttr>) -> OpView {
    OpView {
        field_name: None,
        operand_type: None,
        data_format_name: None,
        size: None,
        input: match spec_attr(attrs, "Input"@) {
            Some(v) => spec_parse_bool(v),
            None => None,
        },
        output: match spec_attr(attrs, "Output"@) {
            Some(v) => spec_parse_bool(v),
            None => None,
        },
        is_implicit: match spec_attr(attrs, "IsImplicit"@) {
            Some(v) => spec_parse_bool(v),
            None => None,
        },
        order: match spec_attr(attrs, "Order"@) {
            Some(v) => spec_parse_u32_str(v),
            None => None,
        },
    }
}

/// Read an operand's attributes from its opening element.
pub fn parse_operand_attributes(attrs: &Vec<MarkupAttr>) -> (r: Operand)
    ensures
        r@ == spec_operand_of_attrs(attrs@),
{
    let mut operand = Operand::empty();
    operand.input = match attr_value(attrs, "Input") {
        Some(v) => parse_bool(v.as_str()),
        None => None,
    };
    operand.output = match attr_value(attrs, "Output") {
        Some(v) => parse_bool(v.as_str()),
        None => None,
    };
    operand.is_implicit = match attr_value(attrs, "IsImplicit") {
        Some(v) => parse_bool(v.as_str()),
        None => None,
    };
    operand.order = match attr_value(attrs, "Order") {
        Some(v) => parse_u32_str(v.as_str()),
        None => None,
    };
    operand
}

// ---------------------------------------------------------------------
// special-register extraction
// ---------------------------------------------------------------------

/// Which element's text is currently being read, in the register scan.
#[derive(PartialEq, Eq, Structural, Clone, Copy, Debug)]
pub enum RegTarget {
    NoText,
    RegName,
    RegDescription,
}

/// The register scan state: the records finished so far, the record being
/// read, and where text goes.
pub ghost struct RegScan {
    pub regs: Seq<RegView>,
    pub current: Option<RegView>,
    pub in_predefined: bool,
    pub target: RegTarget,
}

pub open spec fn spec_reg_scan_init() -> RegScan {
    RegScan { regs: Seq::empty(), current: None, in_predefined: false, target: RegTarget::NoText }
}

/// One event's effect on the register scan.
pub open spec fn spec_reg_step(st: RegScan, e: MarkupEvent) -> RegScan {
    match e {
        MarkupEvent::Start(name, _attrs) => {
            if name@ == "OperandPredefinedValues"@ {
                RegScan { in_predefined: true, ..st }
            } else if name@ == "PredefinedValue"@ {
                if st.in_predefined {
                    RegScan {
                        current: Some(RegView { name: Seq::empty(), description: None }),
                        ..st
                    }
                } else {
                    st
                }
            } else if name@ == "Name"@ {
                if st.current is Some {
                    RegScan { target: RegTarget::RegName, ..st }
                } else {
                    st
                }
            } else if name@ == "Description"@ {
                if st.current is Some {
                    RegScan { target: RegTarget::RegDescription, ..st }
                } else {
                    st
                }
            } else if name@ == "Value"@ {
                if st.current is Some {
                    RegScan { target: RegTarget::NoText, ..st }
                } else {
                    st
                }
            } else {
                st
            }
        },
        MarkupEvent::End(name) => {
            if name@ == "OperandPredefinedValues"@ {
                RegScan { in_predefined: false, ..st }
            } else if name@ == "PredefinedValue"@ {
                match st.current {
                    Some(r) => RegScan {
                        regs: if r.name.len() > 0 {
                            st.regs.push(r)
                        } else {
                            st.regs
                        },
                        current: None,
                        ..st
                    },
                    None => st,
                }
            } else if name@ == "Name"@ || name@ == "Description"@ || name@ == "Value"@ {
                RegScan { target: RegTarget::NoText, ..st }
            } else {
                st
            }
        },
        MarkupEvent::Text(t) => {
            match st.target {
                RegTarget::RegName => match st.current {
                    Some(r) => RegScan {
                        current: Some(RegView { name: t@, ..r }),
                        ..st
                    },
                    None => st,
                },
                RegTarget::RegDescription => match st.current {
                    Some(r) => RegScan {
                        current: Some(RegView { description: Some(t@), ..r }),
                        ..st
                    },
                    None => st,
                },
                RegTarget::NoText => st,
            }
        },
    }
}

/// The register scan state after the first `i` events.
pub open spec fn spec_reg_scan(events: Seq<MarkupEvent>, i: int) -> RegScan
    decreases i,
{
    if i <= 0 {
        spec_reg_scan_init()
    } else {
        spec_reg_step(spec_reg_scan(events, i - 1), events[i - 1])
    }
}

/// The register records a document's events carry.
pub open spec fn spec_extracted_registers(events: Seq<MarkupEvent>) -> Seq<RegView> {
    spec_reg_scan(events, events.len() as int).regs
}

/// Extract the special-register records from a document's events.
pub fn extract_special_registers(events: &[MarkupEvent]) -> (r: Vec<SpecialRegister>)
    ensures
        reg_views(r@) == spec_extracted_registers(events@),
{
    let n = events.len();
    let mut regs: Vec<SpecialRegister> = Vec::new();
    let mut current: Option<SpecialRegister> = None;
    let mut in_predefined = false;
    let mut target = RegTarget::NoText;
    let mut i: usize = 0;
    proof {
        assert(reg_views(regs@) =~= spec_reg_scan(events@, 0).regs);
    }
    while i < n
        invariant
            n == events@.len(),
            i <= n,
            reg_views(regs@) == spec_reg_scan(events@, i as int).regs,
            match (&current, spec_reg_scan(events@, i as int).current) {
                (Some(c), Some(cv)) => c@ == cv,
                (None, None) => true,
                _ => false,
            },
            in_predefined == spec_reg_scan(events@, i as int).in_predefined,
            target == spec_reg_scan(events@, i as int).target,
        decreases n - i,
    {
        let ghost st = spec_reg_scan(events@, i as int);
        let ghost st1 = spec_reg_scan(events@, i + 1);
        proof {
            assert(st1 == spec_reg_step(st, events@[i as int]));
        }
        match &events[i] {
            MarkupEvent::Start(name, _attrs) => {
                if str_eq(name.as_str(), "OperandPredefinedValues") {
                    in_predefined = true;
                } else if str_eq(name.as_str(), "PredefinedValue") {
                    if in_predefined {
                        let fresh = String::new();
                        proof {
                            assert(fresh@ =~= Seq::<char>::empty());
                        }
                        current = Some(SpecialRegister { name: fresh, description: None });
                    }
                } else if str_eq(name.as_str(), "Name") {
                    if current.is_some() {
                        target = RegTarget::RegName;
                    }
                } else if str_eq(name.as_str(), "Description") {
                    if current.is_some() {
                        target = RegTarget::RegDescription;
                    }
                } else if str_eq(name.as_str(), "Value") {
                    if current.is_some() {
                        target = RegTarget::NoText;
                    }
                }
            },
            MarkupEvent::End(name) => {
                if str_eq(name.as_str(), "OperandPredefinedValues") {
                    in_predefined = false;
                } else if str_eq(name.as_str(), "PredefinedValue") {
                    let taken = current.take();
                    match taken {
                        Some(reg) => {
                            if reg.name.as_str().unicode_len() > 0 {
                                let ghost old_regs = regs@;
                                let ghost rv = reg@;
                                regs.push(reg);
                                proof {
                                    assert(reg_views(regs@) =~= reg_views(old_regs).push(rv));
                                }
                            }
                        },
                        None => {},
                    }
                } else if str_eq(name.as_str(), "Name") || str_eq(name.as_str(), "Description")
                    || str_eq(name.as_str(), "Value") {
                    target = RegTarget::NoText;
                }
            },
            MarkupEvent::Text(t) => {
                match target {
                    RegTarget::RegName => {
                        current = match current {
                            Some(mut reg) => {
                                reg.name = t.clone();
                                Some(reg)
                            },
                            None => None,
                        };
                    },
                    RegTarget::RegDescription => {
                        current = match current {
                            Some(mut reg) => {
                                reg.description = Some(t.clone());
                                Some(reg)
                            },
                            None => None,
                        };
                    },
                    RegTarget::NoText => {},
                }
            },
        }
        i += 1;
    }
    regs
}


// ---------------------------------------------------------------------
// instruction extraction
// ---------------------------------------------------------------------

/// Which element's text is currently being read, in the instruction scan.
#[derive(PartialEq, Eq, Structural, Clone, Copy, Debug)]
pub enum InstrTarget {
    NoInstrText,
    InInstructionName,
    InArchitectureName,
    InDescription,
    InEncodingName,
    InFieldName,
    InOperandType,
    InDataFormatName,
    InOperandSize,
}

/// Scan view of an encoding being read.
pub ghost struct EncScanView {
    pub name: Option<Seq<char>>,
    pub operands: Seq<OpView>,
}

/// The scan views of an encoding list.
pub open spec fn enc_views(s: Seq<InstructionEncoding>) -> Seq<EncScanView> {
    s.map_values(
        |e: InstructionEncoding| EncScanView {
            name: e.encoding_name.deep_view(),
            operands: op_views(e.operands@),
        },
    )
}

/// Scan view of the instruction being read.
pub ghost struct CurInstr {
    pub name: Seq<char>,
    pub description: Option<Seq<char>>,
    pub encodings: Seq<EncScanView>,
}

/// The instruction scan state.
pub ghost struct InstrScan {
    pub docs: Seq<DocView>,
    pub arch: Option<Seq<char>>,
    pub current: Option<CurInstr>,
    pub cur_enc: Option<EncScanView>,
    pub cur_op: Option<OpView>,
    pub target: InstrTarget,
    pub in_aliased: bool,
}

pub open spec fn spec_instr_scan_init() -> InstrScan {
    InstrScan {
        docs: Seq::empty(),
        arch: None,
        current: None,
        cur_enc: None,
        cur_op: None,
        target: InstrTarget::NoInstrText,
        in_aliased: false,
    }
}

/// Sorted-unique insertion of an encoding name.
pub open spec fn spec_insert_name(s: Seq<Seq<char>>, x: Seq<char>) -> Seq<Seq<char>>
    decreases s.len(),
{
    if s.len() == 0 {
        seq![x]
    } else if spec_lex_lt(s.last(), x) {
        s.push(x)
    } else if x == s.last() {
        s
    } else {
        spec_insert_name(s.drop_last(), x).push(s.last())
    }
}

/// The deduplicated, sorted encoding names of an instruction.
pub open spec fn spec_encoding_names(encs: Seq<EncScanView>) -> Seq<Seq<char>>
    decreases encs.len(),
{
    if encs.len() == 0 {
        Seq::empty()
    } else {
        let prev = spec_encoding_names(encs.drop_last());
        match encs.last().name {
            Some(nm) => spec_insert_name(prev, nm),
            None => prev,
        }
    }
}

proof fn lemma_insert_name_at(s: Seq<Seq<char>>, x: Seq<char>, j: int)
    requires
        0 <= j <= s.len(),
        forall|k: int| j <= k < s.len() ==> spec_lex_lt(x, #[trigger] s[k]),
        j > 0 ==> !spec_lex_lt(x, s[j - 1]),
    ensures
        spec_insert_name(s, x) == if j > 0 && s[j - 1] == x {
            s
        } else {
            s.subrange(0, j) + seq![x] + s.subrange(j, s.len() as int)
        },
    decreases s.len(),
{
    if s.len() == 0 {
        assert(spec_insert_name(s, x) =~= s.subrange(0, j) + seq![x] + s.subrange(
            j,
            s.len() as int,
        ));
    } else if j == s.len() {
        lemma_lex_total(s.last(), x);
        lemma_lex_lt_asym(x, x);
        if spec_lex_lt(s.last(), x) {
            assert(s.last() != x);
            assert(spec_insert_name(s, x) == s.push(x));
            assert(s.push(x) =~= s.subrange(0, j) + seq![x] + s.subrange(j, s.len() as int));
        } else {
            assert(x == s.last());
            assert(s[j - 1] == x);
        }
    } else {
        assert(spec_lex_lt(x, s.last()));
        lemma_lex_lt_asym(x, s.last());
        lemma_lex_lt_asym(x, x);
        assert(!spec_lex_lt(s.last(), x));
        assert(x != s.last());
        let d = s.drop_last();
        assert forall|k: int| j <= k < d.len() implies spec_lex_lt(x, #[trigger] d[k]) by {
            assert(d[k] == s[k]);
        }
        if j > 0 {
            assert(d[j - 1] == s[j - 1]);
        }
        lemma_insert_name_at(d, x, j);
        if j > 0 && s[j - 1] == x {
            assert(spec_insert_name(s, x) == d.push(s.last()));
            assert(d.push(s.last()) =~= s);
        } else {
            assert(spec_insert_name(s, x) == (d.subrange(0, j) + seq![x] + d.subrange(
                j,
                d.len() as int,
            )).push(s.last()));
            assert((d.subrange(0, j) + seq![x] + d.subrange(j, d.len() as int)).push(s.last())
                =~= s.subrange(0, j) + seq![x] + s.subrange(j, s.len() as int));
        }
    }
}

fn str_lt(a: &str, b: &str) -> (r: bool)
    ensures
        r == spec_lex_lt(a@, b@),
{
    let av = chars_of(a);
    let bv = chars_of(b);
    lex_lt(av.as_slice(), bv.as_slice())
}

/// Insert an encoding name into the sorted, deduplicated name list.
fn insert_encoding_name(names: &mut Vec<String>, x: &String)
    ensures
        final(names).deep_view() == spec_insert_name(old(names).deep_view(), x@),
{
    let mut j = names.len();
    while j > 0 && str_lt(x.as_str(), names[j - 1].as_str())
        invariant
            j <= names@.len(),
            names@ == old(names)@,
            forall|k: int|
                j <= k < names@.len() ==> spec_lex_lt(x@, #[trigger] names.deep_view()[k]),
        decreases j,
    {
        proof {
            assert(names.deep_view()[j - 1] == names@[j - 1]@);
        }
        j = j - 1;
    }
    proof {
        if j > 0 {
            assert(names.deep_view()[j - 1] == names@[j - 1]@);
        }
        lemma_insert_name_at(names.deep_view(), x@, j as int);
    }
    if j > 0 && str_eq(names[j - 1].as_str(), x.as_str()) {
        proof {
            assert(names.deep_view()[j - 1] == x@);
        }
    } else {
        let ghost old_dv = names.deep_view();
        names.insert(j, x.clone());
        proof {
            assert(names.deep_view() =~= old_dv.subrange(0, j as int) + seq![x@] + old_dv.subrange(
                j as int,
                old_dv.len() as int,
            ));
        }
    }
}

/// The deduplicated, sorted encoding names of an encoding list.
fn encoding_name_set(encodings: &Vec<InstructionEncoding>) -> (r: Vec<String>)
    ensures
        r.deep_view() == spec_encoding_names(enc_views(encodings@)),
{
    let n = encodings.len();
    let mut names: Vec<String> = Vec::new();
    let mut i: usize = 0;
    proof {
        assert(enc_views(encodings@).subrange(0, 0) =~= Seq::<EncScanView>::empty());
        assert(names.deep_view() =~= spec_encoding_names(Seq::<EncScanView>::empty()));
    }
    while i < n
        invariant
            n == encodings@.len(),
            i <= n,
            names.deep_view() == spec_encoding_names(enc_views(encodings@).subrange(0, i as int)),
        decreases n - i,
    {
        proof {
            assert(enc_views(encodings@).subrange(0, i + 1).drop_last() =~= enc_views(
                encodings@,
            ).subrange(0, i as int));
            assert(enc_views(encodings@).subrange(0, i + 1).last() == enc_views(
                encodings@,
            )[i as int]);
        }
        match &encodings[i].encoding_name {
            Some(nm) => {
                insert_encoding_name(&mut names, nm);
            },
            None => {},
        }
        i += 1;
    }
    proof {
        assert(enc_views(encodings@).subrange(0, n as int) =~= enc_views(encodings@));
    }
    names
}

/// The record a finished instruction element turns into: arguments from
/// the first declared encoding, the deduplicated encoding-name set, and
/// the document's architecture label as its only tag.
pub open spec fn spec_finish_doc(inst: CurInstr, arch: Option<Seq<char>>) -> DocView {
    let lists = if inst.encodings.len() == 0 {
        (Seq::<Seq<char>>::empty(), Seq::<Seq<char>>::empty(), Seq::<Seq<char>>::empty())
    } else {
        spec_args_of(spec_sort_ops(inst.encodings[0].operands))
    };
    DocView {
        name: inst.name,
        architectures: match arch {
            Some(a) => seq![a],
            None => Seq::empty(),
        },
        description: inst.description,
        args: lists.0,
        arg_types: lists.1,
        arg_data_types: lists.2,
        available_encodings: spec_encoding_names(inst.encodings),
    }
}

/// One event's effect on the instruction scan.
pub open spec fn spec_instr_step(st: InstrScan, e: MarkupEvent) -> InstrScan {
    match e {
        MarkupEvent::Start(name, attrs) => {
            if name@ == "Instruction"@ {
                InstrScan {
                    current: Some(
                        CurInstr { name: Seq::empty(), description: None, encodings: Seq::empty() },
                    ),
                    ..st
                }
            } else if name@ == "AliasedInstructionNames"@ {
                InstrScan { in_aliased: true, ..st }
            } else if name@ == "InstructionName"@ {
                if !st.in_aliased {
                    InstrScan { target: InstrTarget::InInstructionName, ..st }
                } else {
                    st
                }
            } else if name@ == "ArchitectureName"@ {
                InstrScan { target: InstrTarget::InArchitectureName, ..st }
            } else if name@ == "Description"@ {
                if st.current is Some {
                    InstrScan { target: InstrTarget::InDescription, ..st }
                } else {
                    st
                }
            } else if name@ == "InstructionEncoding"@ {
                InstrScan {
                    cur_enc: Some(EncScanView { name: None, operands: Seq::empty() }),
                    ..st
                }
            } else if name@ == "EncodingName"@ {
                if st.cur_enc is Some {
                    InstrScan { target: InstrTarget::InEncodingName, ..st }
                } else {
                    st
                }
            } else if name@ == "Operand"@ {
                InstrScan { cur_op: Some(spec_operand_of_attrs(attrs@)), ..st }
            } else if name@ == "FieldName"@ {
                InstrScan { target: InstrTarget::InFieldName, ..st }
            } else if name@ == "OperandType"@ {
                InstrScan { target: InstrTarget::InOperandType, ..st }
            } else if name@ == "DataFormatName"@ {
                InstrScan { target: InstrTarget::InDataFormatName, ..st }
            } else if name@ == "OperandSize"@ {
                InstrScan { target: InstrTarget::InOperandSize, ..st }
            } else {
                st
            }
        },
        MarkupEvent::End(name) => {
            if name@ == "AliasedInstructionNames"@ {
                InstrScan { in_aliased: false, ..st }
            } else if name@ == "Instruction"@ {
                match st.current {
                    Some(inst) => InstrScan {
                        docs: st.docs.push(spec_finish_doc(inst, st.arch)),
                        current: None,
                        ..st
                    },
                    None => st,
                }
            } else if name@ == "InstructionEncoding"@ {
                match (st.current, st.cur_enc) {
                    (Some(inst), Some(enc)) => InstrScan {
                        current: Some(
                            CurInstr { encodings: inst.encodings.push(enc), ..inst },
                        ),
                        cur_enc: None,
                        ..st
                    },
                    _ => InstrScan { cur_enc: None, ..st },
                }
            } else if name@ == "Operand"@ {
                match (st.cur_enc, st.cur_op) {
                    (Some(enc), Some(op)) => InstrScan {
                        cur_enc: Some(
                            EncScanView { operands: enc.operands.push(op), ..enc },
                        ),
                        cur_op: None,
                        ..st
                    },
                    _ => InstrScan { cur_op: None, ..st },
                }
            } else if name@ == "InstructionName"@ || name@ == "ArchitectureName"@ || name@
                == "Description"@ || name@ == "EncodingName"@ || name@ == "FieldName"@ || name@
                == "OperandType"@ || name@ == "DataFormatName"@ || name@ == "OperandSize"@ {
                InstrScan { target: InstrTarget::NoInstrText, ..st }
            } else {
                st
            }
        },
        MarkupEvent::Text(t) => {
            match st.target {
                InstrTarget::InInstructionName => match st.current {
                    Some(inst) => InstrScan {
                        current: Some(CurInstr { name: t@, ..inst }),
                        ..st
                    },
                    None => st,
                },
                InstrTarget::InArchitectureName => if st.arch is None {
                    InstrScan { arch: Some(t@), ..st }
                } else {
                    st
                },
                InstrTarget::InDescription => match st.current {
                    Some(inst) => InstrScan {
                        current: Some(CurInstr { description: Some(t@), ..inst }),
                        ..st
                    },
                    None => st,
                },
                InstrTarget::InEncodingName => match st.cur_enc {
                    Some(enc) => InstrScan {
                        cur_enc: Some(EncScanView { name: Some(t@), ..enc }),
                        ..st
                    },
                    None => st,
                },
                InstrTarget::InFieldName => match st.cur_op {
                    Some(op) => InstrScan {
                        cur_op: Some(OpView { field_name: Some(t@), ..op }),
                        ..st
                    },
                    None => st,
                },
                InstrTarget::InOperandType => match st.cur_op {
                    Some(op) => InstrScan {
                        cur_op: Some(OpView { operand_type: Some(t@), ..op }),
                        ..st
                    },
                    None => st,
                },
                InstrTarget::InDataFormatName => match st.cur_op {
                    Some(op) => InstrScan {
                        cur_op: Some(OpView { data_format_name: Some(t@), ..op }),
                        ..st
                    },
                    None => st,
                },
                InstrTarget::InOperandSize => match st.cur_op {
                    Some(op) => InstrScan {
                        cur_op: Some(OpView { size: spec_parse_u32_str(t@), ..op }),
                        ..st
                    },
                    None => st,
                },
                InstrTarget::NoInstrText => st,
            }
        },
    }
}

/// The instruction scan state after the first `i` events.
pub open spec fn spec_instr_scan(events: Seq<MarkupEvent>, i: int) -> InstrScan
    decreases i,
{
    if i <= 0 {
        spec_instr_scan_init()
    } else {
        spec_instr_step(spec_instr_scan(events, i - 1), events[i - 1])
    }
}

/// The first architecture label of the document, when it has one.
pub open spec fn spec_first_architecture(events: Seq<MarkupEvent>) -> Option<Seq<char>> {
    spec_instr_scan(events, events.len() as int).arch
}

/// The instruction records a document's events carry.
pub open spec fn spec_extracted_records(events: Seq<MarkupEvent>) -> Seq<DocView> {
    spec_instr_scan(events, events.len() as int).docs
}

/// The scan view of an instruction under construction.
pub open spec fn cur_instr_view(d: InstructionDoc) -> CurInstr {
    CurInstr {
        name: d.name@,
        description: d.description.deep_view(),
        encodings: enc_views(d.encodings@),
    }
}

/// The scan view of an encoding under construction.
pub open spec fn cur_enc_view(e: InstructionEncoding) -> EncScanView {
    EncScanView { name: e.encoding_name.deep_view(), operands: op_views(e.operands@) }
}

/// Extract the document's architecture label and instruction records from
/// its events.
#[verifier::rlimit(100)]
pub fn extract_instruction_records(events: &[MarkupEvent]) -> (r: (
    Option<String>,
    Vec<InstructionDoc>,
))
    ensures
        r.0.deep_view() == spec_first_architecture(events@),
        doc_views(r.1@) == spec_extracted_records(events@),
{
    let n = events.len();
    let mut docs: Vec<InstructionDoc> = Vec::new();
    let mut arch: Option<String> = None;
    let mut current: Option<InstructionDoc> = None;
    let mut cur_enc: Option<InstructionEncoding> = None;
    let mut cur_op: Option<Operand> = None;
    let mut target = InstrTarget::NoInstrText;
    let mut in_aliased = false;
    let mut i: usize = 0;
    proof {
        assert(doc_views(docs@) =~= spec_instr_scan(events@, 0).docs);
    }
    while i < n
        invariant
            n == events@.len(),
            i <= n,
            doc_views(docs@) == spec_instr_scan(events@, i as int).docs,
            arch.deep_view() == spec_instr_scan(events@, i as int).arch,
            match (&current, spec_instr_scan(events@, i as int).current) {
                (Some(c), Some(cv)) => cur_instr_view(*c) == cv && c.architectures@.len() == 0
                    && c.args@.len() == 0 && c.arg_types@.len() == 0 && c.arg_data_types@.len()
                    == 0 && c.available_encodings@.len() == 0,
                (None, None) => true,
                _ => false,
            },
            match (&cur_enc, spec_instr_scan(events@, i as int).cur_enc) {
                (Some(c), Some(cv)) => cur_enc_view(*c) == cv,
                (None, None) => true,
                _ => false,
            },
            match (&cur_op, spec_instr_scan(events@, i as int).cur_op) {
                (Some(c), Some(cv)) => c@ == cv,
                (None, None) => true,
                _ => false,
            },
            target == spec_instr_scan(events@, i as int).target,
            in_aliased == spec_instr_scan(events@, i as int).in_aliased,
        decreases n - i,
    {
        let ghost st = spec_instr_scan(events@, i as int);
        let ghost st1 = spec_instr_scan(events@, i + 1);
        proof {
            assert(st1 == spec_instr_step(st, events@[i as int]));
        }
        match &events[i] {
            MarkupEvent::Start(name, attrs) => {
                if str_eq(name.as_str(), "Instruction") {
                    let fresh_name = String::new();
                    proof {
                        assert(fresh_name@ =~= Seq::<char>::empty());
                    }
                    let inst = InstructionDoc {
                        name: fresh_name,
                        architectures: Vec::new(),
                        description: None,
                        args: Vec::new(),
                        arg_types: Vec::new(),
                        arg_data_types: Vec::new(),
                        available_encodings: Vec::new(),
                        encodings: Vec::new(),
                    };
                    proof {
                        assert(enc_views(inst.encodings@) =~= Seq::<EncScanView>::empty());
                    }
                    current = Some(inst);
                } else if str_eq(name.as_str(), "AliasedInstructionNames") {
                    in_aliased = true;
                } else if str_eq(name.as_str(), "InstructionName") {
                    if !in_aliased {
                        target = InstrTarget::InInstructionName;
                    }
                } else if str_eq(name.as_str(), "ArchitectureName") {
                    target = InstrTarget::InArchitectureName;
                } else if str_eq(name.as_str(), "Description") {
                    if current.is_some() {
                        target = InstrTarget::InDescription;
                    }
                } else if str_eq(name.as_str(), "InstructionEncoding") {
                    let enc = InstructionEncoding { encoding_name: None, operands: Vec::new() };
                    proof {
                        assert(op_views(enc.operands@) =~= Seq::<OpView>::empty());
                    }
                    cur_enc = Some(enc);
                } else if str_eq(name.as_str(), "EncodingName") {
                    if cur_enc.is_some() {
                        target = InstrTarget::InEncodingName;
                    }
                } else if str_eq(name.as_str(), "Operand") {
                    cur_op = Some(parse_operand_attributes(attrs));
                } else if str_eq(name.as_str(), "FieldName") {
                    target = InstrTarget::InFieldName;
                } else if str_eq(name.as_str(), "OperandType") {
                    target = InstrTarget::InOperandType;
                } else if str_eq(name.as_str(), "DataFormatName") {
                    target = InstrTarget::InDataFormatName;
                } else if str_eq(name.as_str(), "OperandSize") {
                    target = InstrTarget::InOperandSize;
                }
            },
            MarkupEvent::End(name) => {
                if str_eq(name.as_str(), "AliasedInstructionNames") {
                    in_aliased = false;
                } else if str_eq(name.as_str(), "Instruction") {
                    let taken = current.take();
                    match taken {
                        Some(mut inst) => {
                            let ghost civ = cur_instr_view(inst);
                            let (args, arg_types, arg_data_types) = build_args(
                                inst.encodings.as_slice(),
                            );
                            inst.args = args;
                            inst.arg_types = arg_types;
                            inst.arg_data_types = arg_data_types;
                            inst.available_encodings = encoding_name_set(&inst.encodings);
                            match &arch {
                                Some(a) => {
                                    inst.architectures.push(a.clone());
                                },
                                None => {},
                            }
                            proof {
                                if civ.encodings.len() == 0 {
                                    assert(inst.args.deep_view() =~= Seq::<Seq<char>>::empty());
                                    assert(inst.arg_types.deep_view() =~= Seq::<
                                        Seq<char>,
                                    >::empty());
                                    assert(inst.arg_data_types.deep_view() =~= Seq::<
                                        Seq<char>,
                                    >::empty());
                                } else {
                                    assert(enc_views(inst.encodings@)[0].operands == op_views(
                                        inst.encodings@[0].operands@,
                                    ));
                                }
                                match st.arch {
                                    Some(a) => {
                                        assert(inst.architectures.deep_view() =~= seq![a]);
                                    },
                                    None => {
                                        assert(inst.architectures.deep_view() =~= Seq::<
                                            Seq<char>,
                                        >::empty());
                                    },
                                }
                                assert(inst@ == spec_finish_doc(civ, st.arch));
                            }
                            let ghost old_docs = docs@;
                            let ghost dv = inst@;
                            docs.push(inst);
                            proof {
                                assert(doc_views(docs@) =~= doc_views(old_docs).push(dv));
                            }
                        },
                        None => {},
                    }
                } else if str_eq(name.as_str(), "InstructionEncoding") {
                    let enc_taken = cur_enc.take();
                    current = match current {
                        Some(mut inst) => {
                            match enc_taken {
                                Some(enc) => {
                                    let ghost ev = cur_enc_view(enc);
                                    let ghost old_encs = inst.encodings@;
                                    inst.encodings.push(enc);
                                    proof {
                                        assert(enc_views(inst.encodings@) =~= enc_views(
                                            old_encs,
                                        ).push(ev));
                                    }
                                },
                                None => {},
                            }
                            Some(inst)
                        },
                        None => None,
                    };
                } else if str_eq(name.as_str(), "Operand") {
                    let op_taken = cur_op.take();
                    cur_enc = match cur_enc {
                        Some(mut enc) => {
                            match op_taken {
                                Some(op) => {
                                    let ghost ov = op@;
                                    let ghost old_ops = enc.operands@;
                                    enc.operands.push(op);
                                    proof {
                                        assert(op_views(enc.operands@) =~= op_views(
                                            old_ops,
                                        ).push(ov));
                                    }
                                },
                                None => {},
                            }
                            Some(enc)
                        },
                        None => None,
                    };
                } else if str_eq(name.as_str(), "InstructionName") || str_eq(
                    name.as_str(),
                    "ArchitectureName",
                ) || str_eq(name.as_str(), "Description") || str_eq(name.as_str(), "EncodingName")
                    || str_eq(name.as_str(), "FieldName") || str_eq(name.as_str(), "OperandType")
                    || str_eq(name.as_str(), "DataFormatName") || str_eq(
                    name.as_str(),
                    "OperandSize",
                ) {
                    target = InstrTarget::NoInstrText;
                }
            },
            MarkupEvent::Text(t) => {
                match target {
                    InstrTarget::InInstructionName => {
                        current = match current {
                            Some(mut inst) => {
                                inst.name = t.clone();
                                Some(inst)
                            },
                            None => None,
                        };
                    },
                    InstrTarget::InArchitectureName => {
                        if arch.is_none() {
                            arch = Some(t.clone());
                        }
                    },
                    InstrTarget::InDescription => {
                        current = match current {
                            Some(mut inst) => {
                                inst.description = Some(t.clone());
                                Some(inst)
                            },
                            None => None,
                        };
                    },
                    InstrTarget::InEncodingName => {
                        cur_enc = match cur_enc {
                            Some(mut enc) => {
                                enc.encoding_name = Some(t.clone());
                                Some(enc)
                            },
                            None => None,
                        };
                    },
                    InstrTarget::InFieldName => {
                        cur_op = match cur_op {
                            Some(mut op) => {
                                op.field_name = Some(t.clone());
                                Some(op)
                            },
                            None => None,
                        };
                    },
                    InstrTarget::InOperandType => {
                        cur_op = match cur_op {
                            Some(mut op) => {
                                op.operand_type = Some(t.clone());
                                Some(op)
                            },
                            None => None,
                        };
                    },
                    InstrTarget::InDataFormatName => {
                        cur_op = match cur_op {
                            Some(mut op) => {
                                op.data_format_name = Some(t.clone());
                                Some(op)
                            },
                            None => None,
                        };
                    },
                    InstrTarget::InOperandSize => {
                        cur_op = match cur_op {
                            Some(mut op) => {
                                op.size = parse_u32_str(t.as_str());
                                Some(op)
                            },
                            None => None,
                        };
                    },
                    InstrTarget::NoInstrText => {},
                }
            },
        }
        i += 1;
    }
    (arch, docs)
}

} // verus!
