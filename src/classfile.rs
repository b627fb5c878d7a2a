//! The classfile data model: the executable types, their mathematical models,
//! and the fixed opcode table of the instructions.
use crate::encoding::{instruction_size, opcode, Encoded};
use vstd::prelude::*;

verus! {

pub const CAFEBABE: u32 = 0xCAFEBABE;

pub const MAJOR_VERSION: u16 = 52;

pub const MINOR_VERSION: u16 = 0;

#[derive(Debug, PartialEq, Eq)]
pub struct Classfile {
    pub magic: u32,
    pub minor_version: u16,
    pub major_version: u16,
    pub constant_pool: Vec<Constant>,
    pub access_flags: u16,
    pub this_class: u16,
    pub super_class: u16,
    pub interfaces: Vec<Interface>,
    pub fields: Vec<Field>,
    pub methods: Vec<Method>,
    pub attributes: Vec<Attribute>,
}

#[derive(Clone, Debug, PartialEq, Eq)]
pub enum Constant {
    Utf8(String),
    Class(u16),
    String(u16),
    Fieldref(u16, u16),
    Methodref(u16, u16),
    NameAndType(u16, u16),
}

#[derive(Clone, Copy, Debug, PartialEq, Eq, Structural)]
pub struct Interface;

#[derive(Clone, Copy, Debug, PartialEq, Eq, Structural)]
pub struct Field;

#[derive(Debug, PartialEq, Eq)]
pub struct Method {
    pub access_flags: u16,
    pub name_index: u16,
    pub descriptor_index: u16,
    pub attributes: Vec<Attribute>,
}

#[derive(Debug, PartialEq, Eq)]
pub enum Attribute {
    Code(u16, u16, u16, Vec<Instruction>, Vec<ExceptionTableEntry>, Vec<Attribute>),
    LineNumberTable(u16, Vec<LineNumberTableEntry>),
    SourceFile(u16, u16),
    StackMapTable(u16, Vec<StackMapFrame>),
}

#[derive(Clone, Copy, Debug, PartialEq, Eq, Structural)]
pub struct ExceptionTableEntry;

#[derive(Clone, Copy, Debug, PartialEq, Eq, Structural)]
pub struct LineNumberTableEntry {
    pub start_pc: u16,
    pub line_number: u16,
}

#[derive(Clone, Debug, PartialEq, Eq)]
pub enum StackMapFrame {
    SameFrame(u8),
    SameLocals1StackItemFrame(u8, VerificationType),
    SameLocals1StackItemFrameExtended(u16, VerificationType),
    ChopFrame(u8, u16),
    SameFrameExtended(u16),
    AppendFrame(u8, u16, Vec<VerificationType>),
    FullFrame(u16, Vec<VerificationType>, Vec<VerificationType>),
}

#[derive(Clone, Copy, Debug, PartialEq, Eq, Structural)]
pub enum VerificationType {
    Top,
    Integer,
    Float,
    Long,
    Double,
    Null,
    UninitializedThis,
    Object(u16),
    Uninitialized(u16),
}

/// One bytecode operation with its operands in final form; a branch holds its
/// relative offset as a 16-bit two's-complement value.
#[derive(Clone, Copy, Debug, PartialEq, Eq, Structural)]
pub enum Instruction {
    IconstM1,
    Iconst0,
    Iconst1,
    Iconst2,
    Iconst3,
    Iconst4,
    Iconst5,
    Bipush(u8),
    LoadConstant(u8),
    Aload0,
    Aload1,
    Aload2,
    Aload3,
    Aaload,
    Iadd,
    IfEq(u16),
    IfNe(u16),
    IfLt(u16),
    IfGe(u16),
    IfGt(u16),
    IfLe(u16),
    IfIcmpEq(u16),
    IfIcmpNe(u16),
    IfIcmpLt(u16),
    IfIcmpGe(u16),
    IfIcmpGt(u16),
    IfIcmpLe(u16),
    Goto(u16),
    Return,
    GetStatic(u16),
    InvokeVirtual(u16),
    InvokeSpecial(u16),
    InvokeStatic(u16),
    ArrayLength,
}

// ---------------------------------------------------------------------------
// Models
pub enum ConstantModel {
    Utf8(Seq<char>),
    Class(u16),
    String(u16),
    Fieldref(u16, u16),
    Methodref(u16, u16),
    NameAndType(u16, u16),
}

pub enum FrameModel {
    SameFrame(u8),
    SameLocals1StackItemFrame(u8, VerificationType),
    SameLocals1StackItemFrameExtended(u16, VerificationType),
    ChopFrame(u8, u16),
    SameFrameExtended(u16),
    AppendFrame(u8, u16, Seq<VerificationType>),
    FullFrame(u16, Seq<VerificationType>, Seq<VerificationType>),
}

pub enum AttributeModel {
    Code(u16, u16, u16, Seq<Instruction>, Seq<ExceptionTableEntry>, Seq<AttributeModel>),
    LineNumberTable(u16, Seq<LineNumberTableEntry>),
    SourceFile(u16, u16),
    StackMapTable(u16, Seq<FrameModel>),
}

pub struct MethodModel {
    pub access_flags: u16,
    pub name_index: u16,
    pub descriptor_index: u16,
    pub attributes: Seq<AttributeModel>,
}

pub struct ClassfileModel {
    pub magic: u32,
    pub minor_version: u16,
    pub major_version: u16,
    pub constant_pool: Seq<ConstantModel>,
    pub access_flags: u16,
    pub this_class: u16,
    pub super_class: u16,
    pub interfaces: Seq<Interface>,
    pub fields: Seq<Field>,
    pub methods: Seq<MethodModel>,
    pub attributes: Seq<AttributeModel>,
}

impl View for Constant {
    type V = ConstantModel;

    open spec fn view(&self) -> ConstantModel {
        match self {
            Constant::Utf8(s) => ConstantModel::Utf8(s@),
            Constant::Class(i) => ConstantModel::Class(*i),
            Constant::String(i) => ConstantModel::String(*i),
            Constant::Fieldref(c, n) => ConstantModel::Fieldref(*c, *n),
            Constant::Methodref(c, n) => ConstantModel::Methodref(*c, *n),
            Constant::NameAndType(n, d) => ConstantModel::NameAndType(*n, *d),
        }
    }
}

impl View for StackMapFrame {
    type V = FrameModel;

    open spec fn view(&self) -> FrameModel {
        match self {
            StackMapFrame::SameFrame(d) => FrameModel::SameFrame(*d),
            StackMapFrame::SameLocals1StackItemFrame(d, t) => FrameModel::SameLocals1StackItemFrame(*d, *t),
            StackMapFrame::SameLocals1StackItemFrameExtended(d, t) =>
                FrameModel::SameLocals1StackItemFrameExtended(*d, *t),
            StackMapFrame::ChopFrame(k, d) => FrameModel::ChopFrame(*k, *d),
            StackMapFrame::SameFrameExtended(d) => FrameModel::SameFrameExtended(*d),
            StackMapFrame::AppendFrame(k, d, l) => FrameModel::AppendFrame(*k, *d, l@),
            StackMapFrame::FullFrame(d, l, s) => FrameModel::FullFrame(*d, l@, s@),
        }
    }
}

/// The model of an attribute; nested attributes are modelled one by one.
pub open spec fn attribute_model(a: Attribute) -> AttributeModel
    decreases a, 0nat,
{
    match a {
        Attribute::Code(n, ms, ml, code, ex, attrs) => AttributeModel::Code(
            n,
            ms,
            ml,
            code@,
            ex@,
            attributes_model(attrs@, attrs@.len()),
        ),
        Attribute::LineNumberTable(n, es) => AttributeModel::LineNumberTable(n, es@),
        Attribute::SourceFile(n, i) => AttributeModel::SourceFile(n, i),
        Attribute::StackMapTable(n, fs) => AttributeModel::StackMapTable(
            n,
            fs@.map_values(|f: StackMapFrame| f@),
        ),
    }
}

/// The models of the first `n` attributes of `s`.
pub open spec fn attributes_model(s: Seq<Attribute>, n: nat) -> Seq<AttributeModel>
    decreases s, n,
{
    if n == 0 || s.len() < n {
        seq![]
    } else {
        attributes_model(s, (n - 1) as nat).push(attribute_model(s[n - 1]))
    }
}

impl View for Attribute {
    type V = AttributeModel;

    open spec fn view(&self) -> AttributeModel {
        attribute_model(*self)
    }
}

impl View for Method {
    type V = MethodModel;

    open spec fn view(&self) -> MethodModel {
        MethodModel {
            access_flags: self.access_flags,
            name_index: self.name_index,
            descriptor_index: self.descriptor_index,
            attributes: attributes_model(self.attributes@, self.attributes@.len()),
        }
    }
}

/// The models of the pool's entries.
pub open spec fn pool_model(pool: Seq<Constant>) -> Seq<ConstantModel> {
    pool.map_values(|c: Constant| c@)
}

impl View for Classfile {
    type V = ClassfileModel;

    open spec fn view(&self) -> ClassfileModel {
        ClassfileModel {
            magic: self.magic,
            minor_version: self.minor_version,
            major_version: self.major_version,
            constant_pool: pool_model(self.constant_pool@),
            access_flags: self.access_flags,
            this_class: self.this_class,
            super_class: self.super_class,
            interfaces: self.interfaces@,
            fields: self.fields@,
            methods: self.methods@.map_values(|m: Method| m@),
            attributes: attributes_model(self.attributes@, self.attributes@.len()),
        }
    }
}

pub proof fn lemma_attributes_model(s: Seq<Attribute>, n: nat)
    requires
        n <= s.len(),
    ensures
        attributes_model(s, n).len() == n,
        forall|i: int| 0 <= i < n ==> #[trigger] attributes_model(s, n)[i] == attribute_model(s[i]),
    decreases n,
{
    if n > 0 {
        lemma_attributes_model(s, (n - 1) as nat);
    }
}

/// The models of the first `n` attributes depend on those attributes only.
pub proof fn lemma_attributes_model_prefix(s: Seq<Attribute>, t: Seq<Attribute>, n: nat)
    requires
        n <= s.len(),
        n <= t.len(),
        forall|i: int| 0 <= i < n ==> s[i] == t[i],
    ensures
        attributes_model(s, n) == attributes_model(t, n),
    decreases n,
{
    if n > 0 {
        lemma_attributes_model_prefix(s, t, (n - 1) as nat);
    }
}

pub proof fn lemma_attributes_model_push(s: Seq<Attribute>, a: Attribute)
    ensures
        attributes_model(s.push(a), s.len() + 1) == attributes_model(s, s.len()).push(attribute_model(a)),
{
    lemma_attributes_model_prefix(s.push(a), s, s.len());
}

/// The model of a whole attribute vector, with its length and elements.
pub proof fn lemma_attrs_view(s: Seq<Attribute>)
    ensures
        attributes_model(s, s.len()).len() == s.len(),
        forall|i: int| 0 <= i < s.len() ==> #[trigger] attributes_model(s, s.len())[i] == attribute_model(s[i]),
{
    lemma_attributes_model(s, s.len());
}

// ---------------------------------------------------------------------------
// Executable operations
impl Classfile {
    /// A classfile with the fixed magic number and version, no interfaces,
    /// no fields and no class attributes.
    pub fn new(
        constants: Vec<Constant>,
        access_flags: u16,
        this_class: u16,
        super_class: u16,
        methods: Vec<Method>,
    ) -> (r: Classfile)
        ensures
            r.magic == CAFEBABE,
            r.minor_version == MINOR_VERSION,
            r.major_version == MAJOR_VERSION,
            r.constant_pool@ == constants@,
            r.access_flags == access_flags,
            r.this_class == this_class,
            r.super_class == super_class,
            r.interfaces@.len() == 0,
            r.fields@.len() == 0,
            r.methods@ == methods@,
            r.attributes@.len() == 0,
    {
        Classfile {
            magic: CAFEBABE,
            minor_version: MINOR_VERSION,
            major_version: MAJOR_VERSION,
            constant_pool: constants,
            access_flags,
            this_class,
            super_class,
            interfaces: Vec::new(),
            fields: Vec::new(),
            methods,
            attributes: Vec::new(),
        }
    }

    /// The pool entry at the 1-based `index`, if there is one.
    pub fn lookup_constant(&self, index: u16) -> (r: Option<&Constant>)
        ensures
            1 <= index <= self.constant_pool@.len() ==> r == Some(&self.constant_pool@[index - 1]),
            !(1 <= index <= self.constant_pool@.len()) ==> r is None,
    {
        if index >= 1 && (index as usize) <= self.constant_pool.len() {
            Some(&self.constant_pool[index as usize - 1])
        } else {
            None
        }
    }

    /// The text of the pool entry at the 1-based `index`, if that entry is text.
    pub fn lookup_string(&self, index: u16) -> (r: Option<&String>)
        ensures
            r matches Some(s) ==> 1 <= index <= self.constant_pool@.len()
                && self.constant_pool@[index - 1]@ == ConstantModel::Utf8(s@),
            r is None ==> !(1 <= index <= self.constant_pool@.len()
                && self.constant_pool@[index - 1] is Utf8),
    {
        match self.lookup_constant(index) {
            Some(Constant::Utf8(s)) => Some(s),
            _ => None,
        }
    }
}

impl Method {
    pub fn new(access_flags: u16, name_index: u16, descriptor_index: u16, attributes: Vec<Attribute>) -> (r: Method)
        ensures
            r.access_flags == access_flags,
            r.name_index == name_index,
            r.descriptor_index == descriptor_index,
            r.attributes@ == attributes@,
    {
        Method { access_flags, name_index, descriptor_index, attributes }
    }
}

impl Instruction {
    /// The number of bytes the instruction occupies in the code.
    pub fn size(&self) -> (r: u8)
        ensures
            r == instruction_size(*self),
            r == self.bytes().len(),
    {
        match *self {
            Instruction::Bipush(_) | Instruction::LoadConstant(_) => 2,
            Instruction::IfEq(_) | Instruction::IfNe(_) | Instruction::IfLt(_) | Instruction::IfGe(_)
            | Instruction::IfGt(_) | Instruction::IfLe(_) | Instruction::IfIcmpEq(_)
            | Instruction::IfIcmpNe(_) | Instruction::IfIcmpLt(_) | Instruction::IfIcmpGe(_)
            | Instruction::IfIcmpGt(_) | Instruction::IfIcmpLe(_) | Instruction::Goto(_)
            | Instruction::GetStatic(_) | Instruction::InvokeVirtual(_)
            | Instruction::InvokeSpecial(_) | Instruction::InvokeStatic(_) => 3,
            _ => 1,
        }
    }

    /// The opcode byte of the instruction.
    pub fn opcode(&self) -> (r: u8)
        ensures
            r == opcode(*self),
    {
        match *self {
            Instruction::IconstM1 => 0x02,
            Instruction::Iconst0 => 0x03,
            Instruction::Iconst1 => 0x04,
            Instruction::Iconst2 => 0x05,
            Instruction::Iconst3 => 0x06,
            Instruction::Iconst4 => 0x07,
            Instruction::Iconst5 => 0x08,
            Instruction::Bipush(_) => 0x10,
            Instruction::LoadConstant(_) => 0x12,
            Instruction::Aload0 => 0x2A,
            Instruction::Aload1 => 0x2B,
            Instruction::Aload2 => 0x2C,
            Instruction::Aload3 => 0x2D,
            Instruction::Aaload => 0x32,
            Instruction::Iadd => 0x60,
            Instruction::IfEq(_) => 0x99,
            Instruction::IfNe(_) => 0x9A,
            Instruction::IfLt(_) => 0x9B,
            Instruction::IfGe(_) => 0x9C,
            Instruction::IfGt(_) => 0x9D,
            Instruction::IfLe(_) => 0x9E,
            Instruction::IfIcmpEq(_) => 0x9F,
            Instruction::IfIcmpNe(_) => 0xA0,
            Instruction::IfIcmpLt(_) => 0xA1,
            Instruction::IfIcmpGe(_) => 0xA2,
            Instruction::IfIcmpGt(_) => 0xA3,
            Instruction::IfIcmpLe(_) => 0xA4,
            Instruction::Goto(_) => 0xA7,
            Instruction::Return => 0xB1,
            Instruction::GetStatic(_) => 0xB2,
            Instruction::InvokeVirtual(_) => 0xB6,
            Instruction::InvokeSpecial(_) => 0xB7,
            Instruction::InvokeStatic(_) => 0xB8,
            Instruction::ArrayLength => 0xBE,
        }
    }
}

} // verus!
