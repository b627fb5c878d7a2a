//! The binary classfile format, stated over the models: what each structure
//! encodes to, and which values the format can hold.
use crate::classfile::{
    AttributeModel, ClassfileModel, ConstantModel, FrameModel, Instruction, LineNumberTableEntry,
    MethodModel, VerificationType,
};
use vstd::prelude::*;
use vstd::utf8::encode_utf8;

verus! {

/// A value with a byte encoding.
pub trait Encoded {
    spec fn bytes(&self) -> Seq<u8>;
}

/// Big-endian two-byte encoding.
pub open spec fn be16(x: u16) -> Seq<u8> {
    seq![(x / 256) as u8, (x % 256) as u8]
}

/// Big-endian four-byte encoding.
pub open spec fn be32(x: u32) -> Seq<u8> {
    seq![(x / 0x100_0000) as u8, ((x / 0x1_0000) % 256) as u8, ((x / 256) % 256) as u8, (x % 256) as u8]
}

/// The encodings of the items of `s`, one after the other.
pub open spec fn joined<T: Encoded>(s: Seq<T>) -> Seq<u8>
    decreases s.len(),
{
    if s.len() == 0 {
        seq![]
    } else {
        joined(s.drop_last()) + s.last().bytes()
    }
}

/// A count-prefixed sequence: a two-byte count, then the items.
pub open spec fn counted<T: Encoded>(s: Seq<T>) -> Seq<u8> {
    be16(s.len() as u16) + joined(s)
}

// ---------------------------------------------------------------------------
// Instructions
/// The opcode byte of each instruction.
pub open spec fn opcode(i: Instruction) -> u8 {
    match i {
        Instruction::IconstM1 => 0x02,
        Instruction::Iconst0 => 0x03,
        Instruction::Iconst1 => 0x04,
        Instruction::Iconst2 => 0x05,
        Instruction::Iconst3 => 0x06,
        Instruction::Iconst4 => 0x07,
        Instruction::Iconst5 => 0x08,
        Instruction::Bipush(_) => 0x10,
        Instruction::LoadConstant(_) => 0x12,
        Instruction::Aload0 => 0x2A,
        Instruction::Aload1 => 0x2B,
        Instruction::Aload2 => 0x2C,
        Instruction::Aload3 => 0x2D,
        Instruction::Aaload => 0x32,
        Instruction::Iadd => 0x60,
        Instruction::IfEq(_) => 0x99,
        Instruction::IfNe(_) => 0x9A,
        Instruction::IfLt(_) => 0x9B,
        Instruction::IfGe(_) => 0x9C,
        Instruction::IfGt(_) => 0x9D,
        Instruction::IfLe(_) => 0x9E,
        Instruction::IfIcmpEq(_) => 0x9F,
        Instruction::IfIcmpNe(_) => 0xA0,
        Instruction::IfIcmpLt(_) => 0xA1,
        Instruction::IfIcmpGe(_) => 0xA2,
        Instruction::IfIcmpGt(_) => 0xA3,
        Instruction::IfIcmpLe(_) => 0xA4,
        Instruction::Goto(_) => 0xA7,
        Instruction::Return => 0xB1,
        Instruction::GetStatic(_) => 0xB2,
        Instruction::InvokeVirtual(_) => 0xB6,
        Instruction::InvokeSpecial(_) => 0xB7,
        Instruction::InvokeStatic(_) => 0xB8,
        Instruction::ArrayLength => 0xBE,
    }
}

/// The operand bytes that follow the opcode.
pub open spec fn operand_bytes(i: Instruction) -> Seq<u8> {
    match i {
        Instruction::Bipush(v) => seq![v],
        Instruction::LoadConstant(v) => seq![v],
        Instruction::IfEq(o) => be16(o),
        Instruction::IfNe(o) => be16(o),
        Instruction::IfLt(o) => be16(o),
        Instruction::IfGe(o) => be16(o),
        Instruction::IfGt(o) => be16(o),
        Instruction::IfLe(o) => be16(o),
        Instruction::IfIcmpEq(o) => be16(o),
        Instruction::IfIcmpNe(o) => be16(o),
        Instruction::IfIcmpLt(o) => be16(o),
        Instruction::IfIcmpGe(o) => be16(o),
        Instruction::IfIcmpGt(o) => be16(o),
        Instruction::IfIcmpLe(o) => be16(o),
        Instruction::Goto(o) => be16(o),
        Instruction::GetStatic(x) => be16(x),
        Instruction::InvokeVirtual(x) => be16(x),
        Instruction::InvokeSpecial(x) => be16(x),
        Instruction::InvokeStatic(x) => be16(x),
        _ => seq![],
    }
}

/// The encoded size in bytes of each instruction, opcode included.
pub open spec fn instruction_size(i: Instruction) -> nat {
    match i {
        Instruction::Bipush(_) | Instruction::LoadConstant(_) => 2,
        Instruction::IfEq(_) | Instruction::IfNe(_) | Instruction::IfLt(_) | Instruction::IfGe(_)
        | Instruction::IfGt(_) | Instruction::IfLe(_) | Instruction::IfIcmpEq(_)
        | Instruction::IfIcmpNe(_) | Instruction::IfIcmpLt(_) | Instruction::IfIcmpGe(_)
        | Instruction::IfIcmpGt(_) | Instruction::IfIcmpLe(_) | Instruction::Goto(_)
        | Instruction::GetStatic(_) | Instruction::InvokeVirtual(_)
        | Instruction::InvokeSpecial(_) | Instruction::InvokeStatic(_) => 3,
        _ => 1,
    }
}

impl Encoded for Instruction {
    open spec fn bytes(&self) -> Seq<u8> {
        seq![opcode(*self)] + operand_bytes(*self)
    }
}

// ---------------------------------------------------------------------------
// Constants
impl Encoded for ConstantModel {
    open spec fn bytes(&self) -> Seq<u8> {
        match self {
            ConstantModel::Utf8(s) => seq![1u8] + be16(encode_utf8(*s).len() as u16) + encode_utf8(*s),
            ConstantModel::Class(i) => seq![7u8] + be16(*i),
            ConstantModel::String(i) => seq![8u8] + be16(*i),
            ConstantModel::Fieldref(c, n) => seq![9u8] + be16(*c) + be16(*n),
            ConstantModel::Methodref(c, n) => seq![10u8] + be16(*c) + be16(*n),
            ConstantModel::NameAndType(n, d) => seq![12u8] + be16(*n) + be16(*d),
        }
    }
}

/// A constant the format can hold: text of at most 65535 bytes.
pub open spec fn constant_wf(c: ConstantModel) -> bool {
    match c {
        ConstantModel::Utf8(s) => encode_utf8(s).len() <= 0xffff,
        _ => true,
    }
}

// ---------------------------------------------------------------------------
// Stack-map frames
impl Encoded for VerificationType {
    open spec fn bytes(&self) -> Seq<u8> {
        match self {
            VerificationType::Top => seq![0u8],
            VerificationType::Integer => seq![1u8],
            VerificationType::Float => seq![2u8],
            VerificationType::Long => seq![3u8],
            VerificationType::Double => seq![4u8],
            VerificationType::Null => seq![5u8],
            VerificationType::UninitializedThis => seq![6u8],
            VerificationType::Object(i) => seq![7u8] + be16(*i),
            VerificationType::Uninitialized(o) => seq![8u8] + be16(*o),
        }
    }
}

impl Encoded for FrameModel {
    open spec fn bytes(&self) -> Seq<u8> {
        match self {
            FrameModel::SameFrame(d) => seq![*d],
            FrameModel::SameLocals1StackItemFrame(d, t) => seq![(*d + 64) as u8] + t.bytes(),
            FrameModel::SameLocals1StackItemFrameExtended(d, t) => seq![247u8] + be16(*d) + t.bytes(),
            FrameModel::ChopFrame(k, d) => seq![(251 - *k) as u8] + be16(*d),
            FrameModel::SameFrameExtended(d) => seq![251u8] + be16(*d),
            FrameModel::AppendFrame(k, d, l) => seq![(251 + *k) as u8] + be16(*d) + joined(*l),
            FrameModel::FullFrame(d, l, s) => seq![255u8] + be16(*d) + counted(*l) + counted(*s),
        }
    }
}

/// A frame whose fields fit its frame type.
pub open spec fn frame_wf(f: FrameModel) -> bool {
    match f {
        FrameModel::SameFrame(d) => d <= 63,
        FrameModel::SameLocals1StackItemFrame(d, _) => d <= 63,
        FrameModel::ChopFrame(k, _) => 1 <= k <= 3,
        FrameModel::AppendFrame(k, _, l) => 1 <= k <= 3 && l.len() == k,
        FrameModel::FullFrame(_, l, s) => l.len() <= 0xffff && s.len() <= 0xffff,
        _ => true,
    }
}

impl Encoded for LineNumberTableEntry {
    open spec fn bytes(&self) -> Seq<u8> {
        be16(self.start_pc) + be16(self.line_number)
    }
}

// ---------------------------------------------------------------------------
// Attributes
pub open spec fn code_name() -> Seq<char> {
    seq!['C', 'o', 'd', 'e']
}

pub open spec fn line_number_table_name() -> Seq<char> {
    seq!['L', 'i', 'n', 'e', 'N', 'u', 'm', 'b', 'e', 'r', 'T', 'a', 'b', 'l', 'e']
}

pub open spec fn source_file_name() -> Seq<char> {
    seq!['S', 'o', 'u', 'r', 'c', 'e', 'F', 'i', 'l', 'e']
}

pub open spec fn stack_map_table_name() -> Seq<char> {
    seq!['S', 't', 'a', 'c', 'k', 'M', 'a', 'p', 'T', 'a', 'b', 'l', 'e']
}

/// The pool index of the attribute's name.
pub open spec fn attr_name_index(a: AttributeModel) -> u16 {
    match a {
        AttributeModel::Code(n, _, _, _, _, _) => n,
        AttributeModel::LineNumberTable(n, _) => n,
        AttributeModel::SourceFile(n, _) => n,
        AttributeModel::StackMapTable(n, _) => n,
    }
}

/// The name that identifies the attribute's kind.
pub open spec fn attr_kind_name(a: AttributeModel) -> Seq<char> {
    match a {
        AttributeModel::Code(..) => code_name(),
        AttributeModel::LineNumberTable(..) => line_number_table_name(),
        AttributeModel::SourceFile(..) => source_file_name(),
        AttributeModel::StackMapTable(..) => stack_map_table_name(),
    }
}

/// The pool entry at 1-based index `idx` is the text `name`.
pub open spec fn pool_names(pool: Seq<ConstantModel>, idx: u16, name: Seq<char>) -> bool {
    1 <= idx <= pool.len() && pool[idx - 1] == ConstantModel::Utf8(name)
}

/// The body of the instruction stream: the instructions' bytes behind a four-byte count.
pub open spec fn code_bytes(code: Seq<Instruction>) -> Seq<u8> {
    be32(joined(code).len() as u32) + joined(code)
}

/// What follows the name index and the length of an attribute.
pub open spec fn attr_body(a: AttributeModel) -> Seq<u8>
    decreases a, 1nat,
{
    match a {
        AttributeModel::Code(_, ms, ml, code, ex, attrs) => be16(ms) + be16(ml) + code_bytes(code) + be16(
            ex.len() as u16,
        ) + be16(attrs.len() as u16) + attrs_bytes(attrs, attrs.len()),
        AttributeModel::LineNumberTable(_, es) => counted(es),
        AttributeModel::SourceFile(_, i) => be16(i),
        AttributeModel::StackMapTable(_, fs) => counted(fs),
    }
}

/// An attribute: its name index, its body's length in four bytes, its body.
pub open spec fn attr_bytes(a: AttributeModel) -> Seq<u8>
    decreases a, 2nat,
{
    be16(attr_name_index(a)) + be32(attr_body(a).len() as u32) + attr_body(a)
}

/// The encodings of the first `n` attributes of `s`.
pub open spec fn attrs_bytes(s: Seq<AttributeModel>, n: nat) -> Seq<u8>
    decreases s, n,
{
    if n == 0 || s.len() < n {
        seq![]
    } else {
        attrs_bytes(s, (n - 1) as nat) + attr_bytes(s[n - 1])
    }
}

impl Encoded for AttributeModel {
    open spec fn bytes(&self) -> Seq<u8> {
        attr_bytes(*self)
    }
}

/// An attribute that the format can hold: its counts and its body fit their
/// fields, its frames fit their frame types, and its exception table is empty.
pub open spec fn attr_encodable(a: AttributeModel) -> bool
    decreases a, 0nat,
{
    &&& attr_body(a).len() <= 0xffff_ffff
    &&& match a {
        AttributeModel::Code(_, _, _, _, ex, attrs) => ex.len() == 0 && attrs.len() <= 0xffff
            && attrs_encodable(attrs, attrs.len()),
        AttributeModel::LineNumberTable(_, es) => es.len() <= 0xffff,
        AttributeModel::SourceFile(_, _) => true,
        AttributeModel::StackMapTable(_, fs) => fs.len() <= 0xffff && forall|i: int|
            0 <= i < fs.len() ==> frame_wf(#[trigger] fs[i]),
    }
}

/// The first `n` attributes of `s` are encodable.
pub open spec fn attrs_encodable(s: Seq<AttributeModel>, n: nat) -> bool
    decreases s, n,
{
    if n == 0 || s.len() < n {
        true
    } else {
        attrs_encodable(s, (n - 1) as nat) && attr_encodable(s[n - 1])
    }
}

/// The attribute's name index, and those of the attributes nested in it,
/// name their kinds in `pool`.
pub open spec fn attr_named(pool: Seq<ConstantModel>, a: AttributeModel) -> bool
    decreases a, 0nat,
{
    &&& pool_names(pool, attr_name_index(a), attr_kind_name(a))
    &&& match a {
        AttributeModel::Code(_, _, _, _, _, attrs) => attrs_named(pool, attrs, attrs.len()),
        _ => true,
    }
}

/// The first `n` attributes of `s` are named by their kinds in `pool`.
pub open spec fn attrs_named(pool: Seq<ConstantModel>, s: Seq<AttributeModel>, n: nat) -> bool
    decreases s, n,
{
    if n == 0 || s.len() < n {
        true
    } else {
        attrs_named(pool, s, (n - 1) as nat) && attr_named(pool, s[n - 1])
    }
}

// ---------------------------------------------------------------------------
// Methods and the classfile
impl Encoded for MethodModel {
    open spec fn bytes(&self) -> Seq<u8> {
        be16(self.access_flags) + be16(self.name_index) + be16(self.descriptor_index) + be16(
            self.attributes.len() as u16,
        ) + attrs_bytes(self.attributes, self.attributes.len())
    }
}

pub open spec fn method_encodable(m: MethodModel) -> bool {
    m.attributes.len() <= 0xffff && attrs_encodable(m.attributes, m.attributes.len())
}

impl ClassfileModel {
    /// A classfile that the format can hold: every count fits its field, the
    /// pool holds fewer than 65535 entries, each text fits in 65535 bytes,
    /// there are no interfaces or fields, and every attribute is encodable.
    pub open spec fn encodable(self) -> bool {
        &&& self.constant_pool.len() < 0xffff
        &&& forall|i: int| 0 <= i < self.constant_pool.len() ==> constant_wf(#[trigger] self.constant_pool[i])
        &&& self.interfaces.len() == 0
        &&& self.fields.len() == 0
        &&& self.methods.len() <= 0xffff
        &&& forall|i: int| 0 <= i < self.methods.len() ==> method_encodable(#[trigger] self.methods[i])
        &&& self.attributes.len() <= 0xffff
        &&& attrs_encodable(self.attributes, self.attributes.len())
    }

    /// Every attribute, nested ones included, is named by its kind in the pool.
    pub open spec fn named(self) -> bool {
        &&& forall|i: int| 0 <= i < self.methods.len() ==> attrs_named(
            self.constant_pool,
            #[trigger] self.methods[i].attributes,
            self.methods[i].attributes.len(),
        )
        &&& attrs_named(self.constant_pool, self.attributes, self.attributes.len())
    }

    /// A classfile that encodes and decodes back to itself.
    pub open spec fn wf(self) -> bool {
        self.encodable() && self.named()
    }

    /// The classfile's bytes. The pool's count field holds one more than the
    /// number of entries.
    pub open spec fn bytes(self) -> Seq<u8> {
        be32(self.magic) + be16(self.minor_version) + be16(self.major_version) + be16(
            (self.constant_pool.len() + 1) as u16,
        ) + joined(self.constant_pool) + be16(self.access_flags) + be16(self.this_class) + be16(
            self.super_class,
        ) + be16(self.interfaces.len() as u16) + be16(self.fields.len() as u16) + counted(
            self.methods,
        ) + be16(self.attributes.len() as u16) + attrs_bytes(self.attributes, self.attributes.len())
    }
}

// ---------------------------------------------------------------------------
// Lemmas on sequences of encodings
pub proof fn lemma_joined_step<T: Encoded>(s: Seq<T>, i: int)
    requires
        0 <= i < s.len(),
    ensures
        joined(s.take(i + 1)) == joined(s.take(i)) + s[i].bytes(),
{
    assert(s.take(i + 1).drop_last() =~= s.take(i));
}

pub proof fn lemma_joined_all<T: Encoded>(s: Seq<T>)
    ensures
        joined(s.take(s.len() as int)) == joined(s),
{
    assert(s.take(s.len() as int) =~= s);
}

pub proof fn lemma_joined_single<T: Encoded>(x: T)
    ensures
        joined(seq![x]) == x.bytes(),
{
    assert(seq![x].drop_last() =~= Seq::<T>::empty());
    assert(joined(Seq::<T>::empty()) + x.bytes() =~= x.bytes());
}

pub proof fn lemma_joined_push<T: Encoded>(s: Seq<T>, x: T)
    ensures
        joined(s.push(x)) == joined(s) + x.bytes(),
{
    assert(s.push(x).drop_last() =~= s);
}

/// The encoding of a sequence starts with the encoding of each of its prefixes.
pub proof fn lemma_joined_split<T: Encoded>(s: Seq<T>, i: int)
    requires
        0 <= i <= s.len(),
    ensures
        joined(s) == joined(s.take(i)) + joined(s.skip(i)),
    decreases s.len(),
{
    if i == s.len() {
        assert(s.take(i) =~= s);
        assert(s.skip(i) =~= Seq::<T>::empty());
        assert(joined(s) + Seq::<u8>::empty() =~= joined(s));
    } else {
        let d = s.drop_last();
        lemma_joined_split(d, i);
        assert(d.take(i) =~= s.take(i));
        assert(s.skip(i).drop_last() =~= d.skip(i));
        assert(s.skip(i).last() == s.last());
        assert(joined(s) =~= joined(s.take(i)) + joined(s.skip(i)));
    }
}

pub proof fn lemma_attrs_bytes_step(s: Seq<AttributeModel>, i: int)
    requires
        0 <= i < s.len(),
    ensures
        attrs_bytes(s, (i + 1) as nat) == attrs_bytes(s, i as nat) + attr_bytes(s[i]),
{
}

/// The first `n` attributes are encodable exactly when each of them is.
pub proof fn lemma_attrs_encodable(s: Seq<AttributeModel>, n: nat)
    requires
        n <= s.len(),
    ensures
        attrs_encodable(s, n) <==> forall|i: int| 0 <= i < n ==> attr_encodable(#[trigger] s[i]),
    decreases n,
{
    if n > 0 {
        lemma_attrs_encodable(s, (n - 1) as nat);
    }
}

/// The first `n` attributes are named exactly when each of them is.
pub proof fn lemma_attrs_named(pool: Seq<ConstantModel>, s: Seq<AttributeModel>, n: nat)
    requires
        n <= s.len(),
    ensures
        attrs_named(pool, s, n) <==> forall|i: int| 0 <= i < n ==> attr_named(pool, #[trigger] s[i]),
    decreases n,
{
    if n > 0 {
        lemma_attrs_named(pool, s, (n - 1) as nat);
    }
}

/// The recursive encoding of the first `n` attributes is their joined encoding.
pub proof fn lemma_attrs_bytes_joined(s: Seq<AttributeModel>, n: nat)
    requires
        n <= s.len(),
    ensures
        attrs_bytes(s, n) == joined(s.take(n as int)),
    decreases n,
{
    if n > 0 {
        lemma_attrs_bytes_joined(s, (n - 1) as nat);
        assert(s.take(n as int).drop_last() =~= s.take(n - 1));
    } else {
        assert(s.take(0) =~= Seq::<AttributeModel>::empty());
    }
}

} // verus!
