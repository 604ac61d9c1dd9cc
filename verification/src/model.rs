//! Compile-time data model: raw records extracted from the markup
//! documents, and the shape of the serialized knowledge base.

pub use crate::types::{SpecialRegister, SpecialRegisterRange, SpecialRegisterRangeOverride};

use vstd::prelude::*;

verus! {

/// One raw operand declaration of an encoding.
pub struct Operand {
    pub field_name: Option<String>,
    pub operand_type: Option<String>,
    pub data_format_name: Option<String>,
    pub size: Option<u32>,
    pub input: Option<bool>,
    pub output: Option<bool>,
    pub is_implicit: Option<bool>,
    pub order: Option<u32>,
}

impl Operand {
    /// An operand with every attribute absent.
    pub fn empty() -> (r: Operand)
        ensures
            r@.field_name is None,
            r@.operand_type is None,
            r@.data_format_name is None,
            r@.size is None,
            r@.input is None,
            r@.output is None,
            r@.is_implicit is None,
            r@.order is None,
    {
        Operand {
            field_name: None,
            operand_type: None,
            data_format_name: None,
            size: None,
            input: None,
            output: None,
            is_implicit: None,
            order: None,
        }
    }

    /// A copy of this operand, attribute for attribute.
    pub fn clone_op(&self) -> (r: Operand)
        ensures
            r@ == self@,
    {
        Operand {
            field_name: crate::types::clone_opt_string(&self.field_name),
            operand_type: crate::types::clone_opt_string(&self.operand_type),
            data_format_name: crate::types::clone_opt_string(&self.data_format_name),
            size: self.size,
            input: self.input,
            output: self.output,
            is_implicit: self.is_implicit,
            order: self.order,
        }
    }
}

/// One concrete encoding of an instruction, with its declared operands.
pub struct InstructionEncoding {
    pub encoding_name: Option<String>,
    pub operands: Vec<Operand>,
}

/// One instruction as extracted from a document, before merging.
pub struct InstructionDoc {
    pub name: String,
    pub architectures: Vec<String>,
    pub description: Option<String>,
    pub args: Vec<String>,
    pub arg_types: Vec<String>,
    pub arg_data_types: Vec<String>,
    pub available_encodings: Vec<String>,
    pub encodings: Vec<InstructionEncoding>,
}

/// The compressed register table as serialized.
pub struct SpecialRegistersOutput {
    pub singles: Vec<SpecialRegister>,
    pub ranges: Vec<SpecialRegisterRange>,
}

/// The whole compiled knowledge base as serialized.
pub struct IsaOutput {
    pub instructions: Vec<InstructionDoc>,
    pub special_registers: SpecialRegistersOutput,
}

} // verus!
