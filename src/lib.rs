//! An assembler for JVM classfiles: builds methods from bytecode operations,
//! resolving labels into branch offsets and tracking the operand stack, and
//! encodes and decodes the binary classfile format.
pub mod builder;
pub mod classfile;
pub mod descriptor;
pub mod deserialize;
pub mod encoding;
pub mod laws;
mod serialize;

pub use builder::{
    BuildError, ClassBuilder, ClassBuilderModel, IntermediateInstruction, MethodBuilder, MethodBuilderModel,
    ACC_PUBLIC, ACC_STATIC,
};
pub use classfile::{
    Attribute, Classfile, Constant, ExceptionTableEntry, Field, Instruction, Interface, LineNumberTableEntry,
    Method, StackMapFrame, VerificationType,
};
pub use descriptor::{method_signature, Java};
pub use deserialize::DecodeError;

use builder::text_fits;
use classfile::ConstantModel;
use vstd::prelude::*;

verus! {

/// Starts building a class; see `ClassBuilder::new`.
pub fn define_class(access_flags: u16, this_class: &str, super_class: &str) -> (r: ClassBuilder)
    requires
        text_fits(this_class@),
        text_fits(super_class@),
    ensures
        r@.wf(),
        r@.access_flags == access_flags,
        r@.this_class == 2,
        r@.super_class == 4,
        r@.pool == seq![
            ConstantModel::Utf8(this_class@),
            ConstantModel::Class(1),
            ConstantModel::Utf8(super_class@),
            ConstantModel::Class(3),
        ],
        r@.methods.len() == 0,
{
    ClassBuilder::new(access_flags, this_class, super_class)
}

} // verus!
