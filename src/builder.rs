//! The class builder: owns the constant pool and the finished methods, and
//! lends itself to one method builder at a time.
use crate::classfile::{
    attribute_model, attributes_model, lemma_attrs_view, pool_model, Attribute, AttributeModel, Classfile,
    ClassfileModel, Constant, ConstantModel, FrameModel, Instruction, Method, MethodModel, StackMapFrame,
    CAFEBABE, MAJOR_VERSION, MINOR_VERSION,
};
use crate::encoding::{
    attr_body, attr_bytes, attr_encodable, attr_named, attrs_bytes, attrs_encodable, attrs_named, code_name,
    constant_wf, frame_wf, instruction_size, joined, lemma_joined_push, method_encodable, pool_names, stack_map_table_name, Encoded,
};
use vstd::prelude::*;
use vstd::utf8::{encode_utf8, is_ascii_chars, is_ascii_chars_encode_utf8};

verus! {

pub const ACC_PUBLIC: u16 = 0x1;

pub const ACC_STATIC: u16 = 0x8;

/// Text that fits a pool entry: at most 65535 bytes of UTF-8.
pub open spec fn text_fits(s: Seq<char>) -> bool {
    encode_utf8(s).len() <= 0xffff
}

/// Builds one class: owns its constant pool, which only grows, and its
/// finished methods. The this-class and super-class entries are defined when
/// the builder is made.
pub struct ClassBuilder {
    access_flags: u16,
    this_class_index: u16,
    super_class_index: u16,
    constants: Vec<Constant>,
    methods: Vec<Method>,
}

pub struct ClassBuilderModel {
    pub access_flags: u16,
    pub this_class: u16,
    pub super_class: u16,
    pub pool: Seq<ConstantModel>,
    pub methods: Seq<MethodModel>,
}

impl ClassBuilderModel {
    /// The pool has room below the 65535-entry limit, its texts fit, and the
    /// finished methods are encodable with their attributes named in the pool.
    pub open spec fn wf(self) -> bool {
        &&& self.pool.len() < 0xffff
        &&& forall|i: int| 0 <= i < self.pool.len() ==> constant_wf(#[trigger] self.pool[i])
        &&& self.methods.len() <= 0xffff
        &&& forall|i: int| 0 <= i < self.methods.len() ==> method_encodable(#[trigger] self.methods[i])
        &&& forall|i: int| 0 <= i < self.methods.len() ==> attrs_named(
            self.pool,
            #[trigger] self.methods[i].attributes,
            self.methods[i].attributes.len(),
        )
    }

    /// The same builder after defining a reference to member `name` with
    /// `descriptor` of `class`: its class, its name and type, then the
    /// reference itself, a method reference where `method` holds.
    pub open spec fn with_member_ref(
        self,
        class: Seq<char>,
        name: Seq<char>,
        descriptor: Seq<char>,
        method: bool,
    ) -> ClassBuilderModel {
        let n = self.pool.len();
        self.with_constant(ConstantModel::Utf8(class)).with_constant(ConstantModel::Class((n + 1) as u16)).with_constant(
            ConstantModel::Utf8(name),
        ).with_constant(ConstantModel::Utf8(descriptor)).with_constant(
            ConstantModel::NameAndType((n + 3) as u16, (n + 4) as u16),
        ).with_constant(
            if method {
                ConstantModel::Methodref((n + 2) as u16, (n + 5) as u16)
            } else {
                ConstantModel::Fieldref((n + 2) as u16, (n + 5) as u16)
            },
        )
    }

    /// The same builder after defining the string constant `value`.
    pub open spec fn with_string(self, value: Seq<char>) -> ClassBuilderModel {
        self.with_constant(ConstantModel::Utf8(value)).with_constant(
            ConstantModel::String((self.pool.len() + 1) as u16),
        )
    }

    /// The same builder with `c` appended to the pool.
    pub open spec fn with_constant(self, c: ConstantModel) -> ClassBuilderModel {
        ClassBuilderModel { pool: self.pool.push(c), ..self }
    }
}

impl View for ClassBuilder {
    type V = ClassBuilderModel;

    closed spec fn view(&self) -> ClassBuilderModel {
        ClassBuilderModel {
            access_flags: self.access_flags,
            this_class: self.this_class_index,
            super_class: self.super_class_index,
            pool: pool_model(self.constants@),
            methods: self.methods@.map_values(|m: Method| m@),
        }
    }
}

/// Appending to the pool keeps every attribute's name where it was.
pub proof fn lemma_attr_named_grow(pool: Seq<ConstantModel>, more: Seq<ConstantModel>, a: AttributeModel)
    requires
        attr_named(pool, a),
    ensures
        attr_named(pool + more, a),
    decreases a, 0nat,
{
    if let AttributeModel::Code(_, _, _, _, _, attrs) = a {
        lemma_attrs_named_grow(pool, more, attrs, attrs.len());
    }
}

pub proof fn lemma_attrs_named_grow(pool: Seq<ConstantModel>, more: Seq<ConstantModel>, s: Seq<AttributeModel>, n: nat)
    requires
        attrs_named(pool, s, n),
    ensures
        attrs_named(pool + more, s, n),
    decreases s, n,
{
    if n > 0 && n <= s.len() {
        lemma_attrs_named_grow(pool, more, s, (n - 1) as nat);
        lemma_attr_named_grow(pool, more, s[n - 1]);
    }
}

impl ClassBuilder {
    /// A builder for a class with the given flags, name and superclass name.
    /// The pool starts with the two class entries:
    /// `[Utf8(this), Class(1), Utf8(super), Class(3)]`.
    pub fn new(access_flags: u16, this_class: &str, super_class: &str) -> (r: ClassBuilder)
        requires
            text_fits(this_class@),
            text_fits(super_class@),
        ensures
            r@.wf(),
            r@.access_flags == access_flags,
            r@.this_class == 2,
            r@.super_class == 4,
            r@.pool == seq![
                ConstantModel::Utf8(this_class@),
                ConstantModel::Class(1),
                ConstantModel::Utf8(super_class@),
                ConstantModel::Class(3),
            ],
            r@.methods.len() == 0,
    {
        let mut builder = ClassBuilder {
            access_flags,
            this_class_index: 0,
            super_class_index: 0,
            constants: Vec::new(),
            methods: Vec::new(),
        };
        proof {
            assert(builder@.pool =~= Seq::<ConstantModel>::empty());
            assert(builder@.methods =~= Seq::<MethodModel>::empty());
        }
        builder.this_class_index = builder.define_class(this_class);
        builder.super_class_index = builder.define_class(super_class);
        proof {
            assert(builder@.pool =~= seq![
                ConstantModel::Utf8(this_class@),
                ConstantModel::Class(1),
                ConstantModel::Utf8(super_class@),
                ConstantModel::Class(3),
            ]);
        }
        builder
    }

    /// Appends an entry and returns its 1-based index. No entry is reused.
    fn push_constant(&mut self, constant: Constant) -> (r: u16)
        requires
            old(self)@.wf(),
            old(self)@.pool.len() + 1 < 0xffff,
            constant_wf(constant@),
        ensures
            final(self)@ == old(self)@.with_constant(constant@),
            final(self)@.wf(),
            r == old(self)@.pool.len() + 1,
    {
        let ghost before = self@;
        self.constants.push(constant);
        let r = self.constants.len() as u16;
        proof {
            let after = self@;
            assert(after.pool =~= before.pool.push(constant@));
            assert(after.methods =~= before.methods);
            assert forall|i: int| 0 <= i < after.methods.len() implies attrs_named(
                after.pool,
                #[trigger] after.methods[i].attributes,
                after.methods[i].attributes.len(),
            ) by {
                lemma_attrs_named_grow(before.pool, seq![constant@], after.methods[i].attributes, after.methods[i].attributes.len());
                assert(before.pool + seq![constant@] =~= after.pool);
            }
        }
        r
    }

    fn define_utf8(&mut self, string: &str) -> (r: u16)
        requires
            old(self)@.wf(),
            old(self)@.pool.len() + 1 < 0xffff,
            text_fits(string@),
        ensures
            final(self)@ == old(self)@.with_constant(ConstantModel::Utf8(string@)),
            final(self)@.wf(),
            r == old(self)@.pool.len() + 1,
    {
        self.push_constant(Constant::Utf8(string.to_owned()))
    }

    fn define_class(&mut self, class: &str) -> (r: u16)
        requires
            old(self)@.wf(),
            old(self)@.pool.len() + 2 < 0xffff,
            text_fits(class@),
        ensures
            final(self)@ == old(self)@.with_constant(ConstantModel::Utf8(class@)).with_constant(
                ConstantModel::Class((old(self)@.pool.len() + 1) as u16),
            ),
            final(self)@.wf(),
            r == old(self)@.pool.len() + 2,
    {
        let name_index = self.define_utf8(class);
        self.push_constant(Constant::Class(name_index))
    }

    fn define_string(&mut self, value: &str) -> (r: u16)
        requires
            old(self)@.wf(),
            old(self)@.pool.len() + 2 < 0xffff,
            text_fits(value@),
        ensures
            final(self)@ == old(self)@.with_string(value@),
            final(self)@.wf(),
            r == old(self)@.pool.len() + 2,
    {
        let string_index = self.define_utf8(value);
        self.push_constant(Constant::String(string_index))
    }

    fn define_name_and_type(&mut self, name: &str, descriptor: &str) -> (r: u16)
        requires
            old(self)@.wf(),
            old(self)@.pool.len() + 3 < 0xffff,
            text_fits(name@),
            text_fits(descriptor@),
        ensures
            final(self)@ == old(self)@.with_constant(ConstantModel::Utf8(name@)).with_constant(
                ConstantModel::Utf8(descriptor@),
            ).with_constant(
                ConstantModel::NameAndType((old(self)@.pool.len() + 1) as u16, (old(self)@.pool.len() + 2) as u16),
            ),
            final(self)@.wf(),
            r == old(self)@.pool.len() + 3,
    {
        let name_index = self.define_utf8(name);
        let descriptor_index = self.define_utf8(descriptor);
        self.push_constant(Constant::NameAndType(name_index, descriptor_index))
    }

    /// Defines the class, then the name and type, then the reference:
    /// six entries, the reference last.
    fn define_fieldref(&mut self, class: &str, name: &str, descriptor: &str) -> (r: u16)
        requires
            old(self)@.wf(),
            old(self)@.pool.len() + 6 < 0xffff,
            text_fits(class@),
            text_fits(name@),
            text_fits(descriptor@),
        ensures
            final(self)@ == old(self)@.with_member_ref(class@, name@, descriptor@, false),
            final(self)@.wf(),
            r == old(self)@.pool.len() + 6,
    {
        let class_index = self.define_class(class);
        let name_and_type_index = self.define_name_and_type(name, descriptor);
        self.push_constant(Constant::Fieldref(class_index, name_and_type_index))
    }

    /// Like `define_fieldref`, with a method reference last.
    fn define_methodref(&mut self, class: &str, name: &str, descriptor: &str) -> (r: u16)
        requires
            old(self)@.wf(),
            old(self)@.pool.len() + 6 < 0xffff,
            text_fits(class@),
            text_fits(name@),
            text_fits(descriptor@),
        ensures
            final(self)@ == old(self)@.with_member_ref(class@, name@, descriptor@, true),
            final(self)@.wf(),
            r == old(self)@.pool.len() + 6,
    {
        let class_index = self.define_class(class);
        let name_and_type_index = self.define_name_and_type(name, descriptor);
        self.push_constant(Constant::Methodref(class_index, name_and_type_index))
    }

    /// The finished classfile: the fixed magic number and version, this
    /// builder's pool, flags, class indices and methods, and nothing else.
    pub fn done(self) -> (r: Classfile)
        requires
            self@.wf(),
        ensures
            r@ == (ClassfileModel {
                magic: CAFEBABE,
                minor_version: MINOR_VERSION,
                major_version: MAJOR_VERSION,
                constant_pool: self@.pool,
                access_flags: self@.access_flags,
                this_class: self@.this_class,
                super_class: self@.super_class,
                interfaces: Seq::empty(),
                fields: Seq::empty(),
                methods: self@.methods,
                attributes: Seq::empty(),
            }),
            r@.wf(),
    {
        let ghost model = self@;
        let r = Classfile::new(self.constants, self.access_flags, self.this_class_index, self.super_class_index, self.methods);
        proof {
            let rm = r@;
            assert(rm.interfaces =~= Seq::<crate::classfile::Interface>::empty());
            assert(rm.fields =~= Seq::<crate::classfile::Field>::empty());
            assert(rm.attributes =~= Seq::<AttributeModel>::empty());
            assert(rm.constant_pool =~= model.pool);
            assert(rm.methods =~= model.methods);
        }
        r
    }
}

// ---------------------------------------------------------------------------
// Method assembly
/// A fatal misuse of the assembler.
#[derive(Clone, Debug, PartialEq, Eq)]
pub enum BuildError {
    /// A branch names a label that was never placed.
    UndefinedLabel(String),
    /// A string constant would land at a pool index above 255, out of reach
    /// of the one-byte operand of `ldc`.
    ConstantIndexTooLarge(u16),
}

/// An emitted instruction: ready, or waiting for the offset of a label.
#[derive(Clone, Debug, PartialEq, Eq)]
pub enum IntermediateInstruction {
    Ready(Instruction),
    Waiting(String, Instruction),
}

pub enum PendingModel {
    Ready(Instruction),
    Waiting(Seq<char>, Instruction),
}

impl View for IntermediateInstruction {
    type V = PendingModel;

    open spec fn view(&self) -> PendingModel {
        match self {
            IntermediateInstruction::Ready(i) => PendingModel::Ready(*i),
            IntermediateInstruction::Waiting(l, i) => PendingModel::Waiting(l@, *i),
        }
    }
}

pub open spec fn pending_instruction(p: PendingModel) -> Instruction {
    match p {
        PendingModel::Ready(i) => i,
        PendingModel::Waiting(_, i) => i,
    }
}

/// The instructions that carry a branch offset.
pub open spec fn is_branch(i: Instruction) -> bool {
    match i {
        Instruction::IfEq(_) | Instruction::IfNe(_) | Instruction::IfLt(_) | Instruction::IfGe(_)
        | Instruction::IfGt(_) | Instruction::IfLe(_) | Instruction::IfIcmpEq(_) | Instruction::IfIcmpNe(_)
        | Instruction::IfIcmpLt(_) | Instruction::IfIcmpGe(_) | Instruction::IfIcmpGt(_)
        | Instruction::IfIcmpLe(_) | Instruction::Goto(_) => true,
        _ => false,
    }
}

/// The branch `i` with its offset replaced by `o`.
pub open spec fn with_offset(i: Instruction, o: u16) -> Instruction {
    match i {
        Instruction::IfEq(_) => Instruction::IfEq(o),
        Instruction::IfNe(_) => Instruction::IfNe(o),
        Instruction::IfLt(_) => Instruction::IfLt(o),
        Instruction::IfGe(_) => Instruction::IfGe(o),
        Instruction::IfGt(_) => Instruction::IfGt(o),
        Instruction::IfLe(_) => Instruction::IfLe(o),
        Instruction::IfIcmpEq(_) => Instruction::IfIcmpEq(o),
        Instruction::IfIcmpNe(_) => Instruction::IfIcmpNe(o),
        Instruction::IfIcmpLt(_) => Instruction::IfIcmpLt(o),
        Instruction::IfIcmpGe(_) => Instruction::IfIcmpGe(o),
        Instruction::IfIcmpGt(_) => Instruction::IfIcmpGt(o),
        Instruction::IfIcmpLe(_) => Instruction::IfIcmpLe(o),
        Instruction::Goto(_) => Instruction::Goto(o),
        _ => i,
    }
}

/// The relative offset from `pos` to `target`, as a 16-bit two's-complement
/// value.
pub open spec fn branch_offset(pos: u16, target: u16) -> u16 {
    if target >= pos {
        (target - pos) as u16
    } else {
        (target + 0x1_0000 - pos) as u16
    }
}

/// The total size in bytes of the emitted instructions.
pub open spec fn code_size(code: Seq<(u16, PendingModel)>) -> nat
    decreases code.len(),
{
    if code.len() == 0 {
        0
    } else {
        code_size(code.drop_last()) + instruction_size(pending_instruction(code.last().1))
    }
}

/// The position of the label most recently placed under `name`.
pub open spec fn label_position(labels: Seq<(Seq<char>, u16)>, name: Seq<char>) -> Option<u16>
    decreases labels.len(),
{
    if labels.len() == 0 {
        None
    } else if labels.last().0 == name {
        Some(labels.last().1)
    } else {
        label_position(labels.drop_last(), name)
    }
}

/// An emitted instruction in final form: a waiting branch gets the offset
/// from its own position to its label's.
pub open spec fn resolve(entry: (u16, PendingModel), labels: Seq<(Seq<char>, u16)>) -> Instruction {
    match entry.1 {
        PendingModel::Ready(i) => i,
        PendingModel::Waiting(l, i) => match label_position(labels, l) {
            Some(target) => with_offset(i, branch_offset(entry.0, target)),
            None => i,
        },
    }
}

pub open spec fn resolved(code: Seq<(u16, PendingModel)>, labels: Seq<(Seq<char>, u16)>) -> Seq<Instruction>
    decreases code.len(),
{
    if code.len() == 0 {
        seq![]
    } else {
        resolved(code.drop_last(), labels).push(resolve(code.last(), labels))
    }
}

/// Some emitted branch names a label that was never placed.
pub open spec fn has_undefined_label(code: Seq<(u16, PendingModel)>, labels: Seq<(Seq<char>, u16)>) -> bool {
    exists|i: int| 0 <= i < code.len() && (#[trigger] code[i].1 matches PendingModel::Waiting(l, _)
        && label_position(labels, l) is None)
}

/// The stack-map frame for a label `gap` bytes after the previous one.
pub open spec fn frame_for_gap(gap: u16) -> FrameModel {
    if gap <= 63 {
        FrameModel::SameFrame(gap as u8)
    } else {
        FrameModel::SameFrameExtended(gap)
    }
}

pub open spec fn frame_small(f: FrameModel) -> bool {
    ||| f matches FrameModel::SameFrame(d) && d <= 63
    ||| f is SameFrameExtended
}

/// The maximum number of local-variable slots recorded for each method.
pub const MAX_LOCALS: u16 = 1;

/// Builds one method while holding its class builder: emits instructions at
/// a byte cursor, tracks the operand-stack depth and its peak, places labels,
/// and hands the class builder back when closed.
pub struct MethodBuilder {
    class: ClassBuilder,
    access_flags: u16,
    name_index: u16,
    descriptor_index: u16,
    instructions: Vec<(u16, IntermediateInstruction)>,
    labels: Vec<(String, u16)>,
    stack_index: u16,
    curr_stack_depth: u16,
    max_stack_depth: u16,
    stack_frames: Vec<StackMapFrame>,
    last_stack_frame_index: Option<u16>,
}

pub struct MethodBuilderModel {
    pub class: ClassBuilderModel,
    pub access_flags: u16,
    pub name_index: u16,
    pub descriptor_index: u16,
    /// Each emitted instruction with the byte position it starts at.
    pub code: Seq<(u16, PendingModel)>,
    pub labels: Seq<(Seq<char>, u16)>,
    /// The byte position of the next instruction.
    pub position: u16,
    pub depth: u16,
    pub max_depth: u16,
    pub frames: Seq<FrameModel>,
    pub last_label: Option<u16>,
}

impl MethodBuilderModel {
    pub open spec fn wf(self) -> bool {
        &&& self.class.wf()
        &&& self.position == code_size(self.code)
        &&& forall|i: int| 0 <= i < self.code.len() ==> (#[trigger] self.code[i]).0 == code_size(self.code.take(i))
        &&& forall|i: int| 0 <= i < self.code.len() ==> ((#[trigger] self.code[i]).1 matches PendingModel::Waiting(_, b)
            ==> is_branch(b))
        &&& self.depth <= self.max_depth
        &&& self.frames.len() <= 0xffff
        &&& forall|i: int| 0 <= i < self.frames.len() ==> frame_small(#[trigger] self.frames[i])
        &&& self.last_label matches Some(l) ==> l <= self.position
    }

    /// The builder after emitting `p` at the current position.
    pub open spec fn emit(self, p: PendingModel) -> MethodBuilderModel {
        MethodBuilderModel {
            code: self.code.push((self.position, p)),
            position: (self.position + instruction_size(pending_instruction(p))) as u16,
            ..self
        }
    }

    /// The builder after `n` more values are on the operand stack.
    pub open spec fn pushed(self, n: nat) -> MethodBuilderModel {
        MethodBuilderModel {
            depth: (self.depth + n) as u16,
            max_depth: if self.depth + n > self.max_depth {
                (self.depth + n) as u16
            } else {
                self.max_depth
            },
            ..self
        }
    }

    /// The builder after `n` values left the operand stack.
    pub open spec fn popped(self, n: nat) -> MethodBuilderModel {
        MethodBuilderModel { depth: (self.depth - n) as u16, ..self }
    }

    pub open spec fn with_class(self, class: ClassBuilderModel) -> MethodBuilderModel {
        MethodBuilderModel { class, ..self }
    }

    /// Room for an instruction of `size` bytes.
    pub open spec fn has_room(self, size: nat) -> bool {
        self.position + size <= 0xffff
    }

    /// The method that closing the builder adds to its class, with the
    /// stack-map table named at `table_index` and the code at `code_index`.
    pub open spec fn finished(self, table_index: u16, code_index: u16) -> MethodModel {
        MethodModel {
            access_flags: self.access_flags,
            name_index: self.name_index,
            descriptor_index: self.descriptor_index,
            attributes: seq![
                AttributeModel::Code(
                    code_index,
                    self.max_depth,
                    MAX_LOCALS,
                    resolved(self.code, self.labels),
                    seq![],
                    seq![AttributeModel::StackMapTable(table_index, self.frames)],
                ),
            ],
        }
    }
}

impl View for MethodBuilder {
    type V = MethodBuilderModel;

    closed spec fn view(&self) -> MethodBuilderModel {
        MethodBuilderModel {
            class: self.class@,
            access_flags: self.access_flags,
            name_index: self.name_index,
            descriptor_index: self.descriptor_index,
            code: self.instructions@.map_values(|e: (u16, IntermediateInstruction)| (e.0, e.1@)),
            labels: self.labels@.map_values(|e: (String, u16)| (e.0@, e.1)),
            position: self.stack_index,
            depth: self.curr_stack_depth,
            max_depth: self.max_stack_depth,
            frames: self.stack_frames@.map_values(|f: StackMapFrame| f@),
            last_label: self.last_stack_frame_index,
        }
    }
}

impl ClassBuilder {
    /// Opens a method builder; it holds this class builder until it is
    /// closed. Defines the method's name, then its descriptor.
    pub fn define_method(self, access_flags: u16, name: &str, descriptor: &str) -> (r: MethodBuilder)
        requires
            self@.wf(),
            self@.pool.len() + 2 < 0xffff,
            text_fits(name@),
            text_fits(descriptor@),
        ensures
            r@.wf(),
            r@ == (MethodBuilderModel {
                class: self@.with_constant(ConstantModel::Utf8(name@)).with_constant(ConstantModel::Utf8(descriptor@)),
                access_flags,
                name_index: (self@.pool.len() + 1) as u16,
                descriptor_index: (self@.pool.len() + 2) as u16,
                code: seq![],
                labels: seq![],
                position: 0,
                depth: 0,
                max_depth: 0,
                frames: seq![],
                last_label: None,
            }),
    {
        MethodBuilder::new(self, access_flags, name, descriptor)
    }
}

proof fn lemma_code_size_take(code: Seq<(u16, PendingModel)>, e: (u16, PendingModel))
    ensures
        code.push(e).take(code.len() as int) == code,
        code_size(code.push(e)) == code_size(code) + instruction_size(pending_instruction(e.1)),
{
    assert(code.push(e).take(code.len() as int) =~= code);
    assert(code.push(e).drop_last() =~= code);
}

impl MethodBuilder {
    fn new(class: ClassBuilder, access_flags: u16, name: &str, descriptor: &str) -> (r: MethodBuilder)
        requires
            class@.wf(),
            class@.pool.len() + 2 < 0xffff,
            text_fits(name@),
            text_fits(descriptor@),
        ensures
            r@.wf(),
            r@ == (MethodBuilderModel {
                class: class@.with_constant(ConstantModel::Utf8(name@)).with_constant(ConstantModel::Utf8(descriptor@)),
                access_flags,
                name_index: (class@.pool.len() + 1) as u16,
                descriptor_index: (class@.pool.len() + 2) as u16,
                code: seq![],
                labels: seq![],
                position: 0,
                depth: 0,
                max_depth: 0,
                frames: seq![],
                last_label: None,
            }),
    {
        let mut class = class;
        let name_index = class.define_utf8(name);
        let descriptor_index = class.define_utf8(descriptor);
        let r = MethodBuilder {
            class,
            access_flags,
            name_index,
            descriptor_index,
            instructions: Vec::new(),
            labels: Vec::new(),
            stack_index: 0,
            curr_stack_depth: 0,
            max_stack_depth: 0,
            stack_frames: Vec::new(),
            last_stack_frame_index: None,
        };
        proof {
            assert(r@.code =~= Seq::<(u16, PendingModel)>::empty());
            assert(r@.labels =~= Seq::<(Seq<char>, u16)>::empty());
            assert(r@.frames =~= Seq::<FrameModel>::empty());
        }
        r
    }

    /// The current operand-stack depth; non-zero when the method closes is
    /// an anomaly worth reporting, not an error.
    pub fn stack_depth(&self) -> (r: u16)
        ensures
            r == self@.depth,
    {
        self.curr_stack_depth
    }

    fn push_instruction(&mut self, instruction: Instruction)
        requires
            old(self)@.wf(),
            old(self)@.has_room(instruction_size(instruction)),
        ensures
            final(self)@ == old(self)@.emit(PendingModel::Ready(instruction)),
            final(self)@.wf(),
    {
        let ghost before = self@;
        let index = self.stack_index;
        self.stack_index = self.stack_index + instruction.size() as u16;
        self.instructions.push((index, IntermediateInstruction::Ready(instruction)));
        proof {
            let e = (index, PendingModel::Ready(instruction));
            lemma_code_size_take(before.code, e);
            assert(self@.code =~= before.code.push(e));
            assert forall|i: int| 0 <= i < self@.code.len() implies (#[trigger] self@.code[i]).0 == code_size(
                self@.code.take(i),
            ) by {
                if i < before.code.len() {
                    assert(self@.code.take(i) =~= before.code.take(i));
                }
            }
        }
    }

    fn delay_instruction(&mut self, label: &str, instruction: Instruction)
        requires
            old(self)@.wf(),
            old(self)@.has_room(instruction_size(instruction)),
            is_branch(instruction),
        ensures
            final(self)@ == old(self)@.emit(PendingModel::Waiting(label@, instruction)),
            final(self)@.wf(),
    {
        let ghost before = self@;
        let index = self.stack_index;
        self.stack_index = self.stack_index + instruction.size() as u16;
        self.instructions.push((index, IntermediateInstruction::Waiting(label.to_owned(), instruction)));
        proof {
            let e = (index, PendingModel::Waiting(label@, instruction));
            lemma_code_size_take(before.code, e);
            assert(self@.code =~= before.code.push(e));
            assert forall|i: int| 0 <= i < self@.code.len() implies (#[trigger] self@.code[i]).0 == code_size(
                self@.code.take(i),
            ) by {
                if i < before.code.len() {
                    assert(self@.code.take(i) =~= before.code.take(i));
                }
            }
        }
    }

    fn increase_stack_depth(&mut self)
        requires
            old(self)@.wf(),
            old(self)@.depth < 0xffff,
        ensures
            final(self)@ == old(self)@.pushed(1),
            final(self)@.wf(),
    {
        self.curr_stack_depth = self.curr_stack_depth + 1;
        if self.curr_stack_depth > self.max_stack_depth {
            self.max_stack_depth = self.curr_stack_depth;
        }
    }

    fn decrease_stack_depth_by(&mut self, n: u16)
        requires
            old(self)@.wf(),
            old(self)@.depth >= n,
        ensures
            final(self)@ == old(self)@.popped(n as nat),
            final(self)@.wf(),
    {
        self.curr_stack_depth = self.curr_stack_depth - n;
    }

    /// Pushes a byte-sized integer; its two's-complement byte is the operand.
    pub fn bipush(&mut self, value: i8)
        requires
            old(self)@.wf(),
            old(self)@.has_room(2),
            old(self)@.depth < 0xffff,
        ensures
            final(self)@ == old(self)@.emit(PendingModel::Ready(Instruction::Bipush(value as u8))).pushed(1),
            final(self)@.wf(),
    {
        self.push_instruction(Instruction::Bipush(value as u8));
        self.increase_stack_depth();
    }

    /// Pushes a string constant, defined in the pool as text then string.
    /// Fails, changing nothing, where the string entry's index would not fit
    /// the one-byte operand.
    pub fn load_constant(&mut self, value: &str) -> (r: Result<(), BuildError>)
        requires
            old(self)@.wf(),
            old(self)@.has_room(2),
            old(self)@.depth < 0xffff,
            old(self)@.class.pool.len() + 2 < 0xffff,
            text_fits(value@),
        ensures
            old(self)@.class.pool.len() + 2 > 255 <==> r is Err,
            r matches Err(e) ==> e == BuildError::ConstantIndexTooLarge((old(self)@.class.pool.len() + 2) as u16)
                && final(self)@ == old(self)@,
            r is Ok ==> final(self)@ == old(self)@.with_class(old(self)@.class.with_string(value@)).emit(
                PendingModel::Ready(Instruction::LoadConstant((old(self)@.class.pool.len() + 2) as u8)),
            ).pushed(1),
            final(self)@.wf(),
    {
        let next = self.class.constants.len() + 2;
        if next > 255 {
            return Err(BuildError::ConstantIndexTooLarge(next as u16));
        }
        let string_index = self.class.define_string(value);
        self.push_instruction(Instruction::LoadConstant(string_index as u8));
        self.increase_stack_depth();
        Ok(())
    }

    pub fn aload0(&mut self)
        requires
            old(self)@.wf(),
            old(self)@.has_room(1),
            old(self)@.depth < 0xffff,
        ensures
            final(self)@ == old(self)@.emit(PendingModel::Ready(Instruction::Aload0)).pushed(1),
            final(self)@.wf(),
    {
        self.push_instruction(Instruction::Aload0);
        self.increase_stack_depth();
    }

    pub fn aload1(&mut self)
        requires
            old(self)@.wf(),
            old(self)@.has_room(1),
            old(self)@.depth < 0xffff,
        ensures
            final(self)@ == old(self)@.emit(PendingModel::Ready(Instruction::Aload1)).pushed(1),
            final(self)@.wf(),
    {
        self.push_instruction(Instruction::Aload1);
        self.increase_stack_depth();
    }

    pub fn aload2(&mut self)
        requires
            old(self)@.wf(),
            old(self)@.has_room(1),
            old(self)@.depth < 0xffff,
        ensures
            final(self)@ == old(self)@.emit(PendingModel::Ready(Instruction::Aload2)).pushed(1),
            final(self)@.wf(),
    {
        self.push_instruction(Instruction::Aload2);
        self.increase_stack_depth();
    }

    pub fn aload3(&mut self)
        requires
            old(self)@.wf(),
            old(self)@.has_room(1),
            old(self)@.depth < 0xffff,
        ensures
            final(self)@ == old(self)@.emit(PendingModel::Ready(Instruction::Aload3)).pushed(1),
            final(self)@.wf(),
    {
        self.push_instruction(Instruction::Aload3);
        self.increase_stack_depth();
    }

    pub fn iconst0(&mut self)
        requires
            old(self)@.wf(),
            old(self)@.has_room(1),
            old(self)@.depth < 0xffff,
        ensures
            final(self)@ == old(self)@.emit(PendingModel::Ready(Instruction::Iconst0)).pushed(1),
            final(self)@.wf(),
    {
        self.push_instruction(Instruction::Iconst0);
        self.increase_stack_depth();
    }

    pub fn iconst5(&mut self)
        requires
            old(self)@.wf(),
            old(self)@.has_room(1),
            old(self)@.depth < 0xffff,
        ensures
            final(self)@ == old(self)@.emit(PendingModel::Ready(Instruction::Iconst5)).pushed(1),
            final(self)@.wf(),
    {
        self.push_instruction(Instruction::Iconst5);
        self.increase_stack_depth();
    }

    /// Replaces an array and an index on top of the stack by the element.
    pub fn aaload(&mut self)
        requires
            old(self)@.wf(),
            old(self)@.has_room(1),
            old(self)@.depth >= 1,
        ensures
            final(self)@ == old(self)@.emit(PendingModel::Ready(Instruction::Aaload)).popped(1),
            final(self)@.wf(),
    {
        self.push_instruction(Instruction::Aaload);
        self.decrease_stack_depth_by(1);
    }

    /// Adds the two integers on top of the stack into one.
    pub fn iadd(&mut self)
        requires
            old(self)@.wf(),
            old(self)@.has_room(1),
            old(self)@.depth >= 1,
        ensures
            final(self)@ == old(self)@.emit(PendingModel::Ready(Instruction::Iadd)).popped(1),
            final(self)@.wf(),
    {
        self.push_instruction(Instruction::Iadd);
        self.decrease_stack_depth_by(1);
    }

    /// A conditional branch to `label` that pops the value it tests.
    fn conditional_branch(&mut self, label: &str, instruction: Instruction)
        requires
            old(self)@.wf(),
            old(self)@.has_room(3),
            old(self)@.depth >= 1,
            is_branch(instruction),
            instruction_size(instruction) == 3,
        ensures
            final(self)@ == old(self)@.emit(PendingModel::Waiting(label@, instruction)).popped(1),
            final(self)@.wf(),
    {
        self.delay_instruction(label, instruction);
        self.decrease_stack_depth_by(1);
    }

    pub fn ifeq(&mut self, label: &str)
        requires
            old(self)@.wf(),
            old(self)@.has_room(3),
            old(self)@.depth >= 1,
        ensures
            final(self)@ == old(self)@.emit(PendingModel::Waiting(label@, Instruction::IfEq(0))).popped(1),
            final(self)@.wf(),
    {
        self.conditional_branch(label, Instruction::IfEq(0));
    }

    pub fn ifne(&mut self, label: &str)
        requires
            old(self)@.wf(),
            old(self)@.has_room(3),
            old(self)@.depth >= 1,
        ensures
            final(self)@ == old(self)@.emit(PendingModel::Waiting(label@, Instruction::IfNe(0))).popped(1),
            final(self)@.wf(),
    {
        self.conditional_branch(label, Instruction::IfNe(0));
    }

    pub fn iflt(&mut self, label: &str)
        requires
            old(self)@.wf(),
            old(self)@.has_room(3),
            old(self)@.depth >= 1,
        ensures
            final(self)@ == old(self)@.emit(PendingModel::Waiting(label@, Instruction::IfLt(0))).popped(1),
            final(self)@.wf(),
    {
        self.conditional_branch(label, Instruction::IfLt(0));
    }

    pub fn ifge(&mut self, label: &str)
        requires
            old(self)@.wf(),
            old(self)@.has_room(3),
            old(self)@.depth >= 1,
        ensures
            final(self)@ == old(self)@.emit(PendingModel::Waiting(label@, Instruction::IfGe(0))).popped(1),
            final(self)@.wf(),
    {
        self.conditional_branch(label, Instruction::IfGe(0));
    }

    pub fn ifgt(&mut self, label: &str)
        requires
            old(self)@.wf(),
            old(self)@.has_room(3),
            old(self)@.depth >= 1,
        ensures
            final(self)@ == old(self)@.emit(PendingModel::Waiting(label@, Instruction::IfGt(0))).popped(1),
            final(self)@.wf(),
    {
        self.conditional_branch(label, Instruction::IfGt(0));
    }

    pub fn ifle(&mut self, label: &str)
        requires
            old(self)@.wf(),
            old(self)@.has_room(3),
            old(self)@.depth >= 1,
        ensures
            final(self)@ == old(self)@.emit(PendingModel::Waiting(label@, Instruction::IfLe(0))).popped(1),
            final(self)@.wf(),
    {
        self.conditional_branch(label, Instruction::IfLe(0));
    }

    /// Branches to `label` where the second integer on the stack is less
    /// than the top one; pops both.
    pub fn if_icmp_lt(&mut self, label: &str)
        requires
            old(self)@.wf(),
            old(self)@.has_room(3),
            old(self)@.depth >= 2,
        ensures
            final(self)@ == old(self)@.emit(PendingModel::Waiting(label@, Instruction::IfIcmpLt(0))).popped(2),
            final(self)@.wf(),
    {
        self.delay_instruction(label, Instruction::IfIcmpLt(0));
        self.decrease_stack_depth_by(2);
    }

    /// An unconditional branch to `label`.
    pub fn goto(&mut self, label: &str)
        requires
            old(self)@.wf(),
            old(self)@.has_room(3),
        ensures
            final(self)@ == old(self)@.emit(PendingModel::Waiting(label@, Instruction::Goto(0))),
            final(self)@.wf(),
    {
        self.delay_instruction(label, Instruction::Goto(0));
    }

    pub fn do_return(&mut self)
        requires
            old(self)@.wf(),
            old(self)@.has_room(1),
        ensures
            final(self)@ == old(self)@.emit(PendingModel::Ready(Instruction::Return)),
            final(self)@.wf(),
    {
        self.push_instruction(Instruction::Return);
    }

    /// Pushes a static field, defining its reference in the pool.
    pub fn get_static(&mut self, class: &str, name: &str, descriptor: &str)
        requires
            old(self)@.wf(),
            old(self)@.has_room(3),
            old(self)@.depth < 0xffff,
            old(self)@.class.pool.len() + 6 < 0xffff,
            text_fits(class@),
            text_fits(name@),
            text_fits(descriptor@),
        ensures
            final(self)@ == old(self)@.with_class(old(self)@.class.with_member_ref(class@, name@, descriptor@, false)).emit(
                PendingModel::Ready(Instruction::GetStatic((old(self)@.class.pool.len() + 6) as u16)),
            ).pushed(1),
            final(self)@.wf(),
    {
        let fieldref_index = self.class.define_fieldref(class, name, descriptor);
        self.push_instruction(Instruction::GetStatic(fieldref_index));
        self.increase_stack_depth();
    }

    /// Calls a method on an object: pops the object and `n_args` arguments,
    /// and pushes the result where `has_result` holds.
    pub fn invoke_virtual(&mut self, class: &str, name: &str, descriptor: &str, n_args: u8, has_result: bool)
        requires
            old(self)@.wf(),
            old(self)@.has_room(3),
            old(self)@.depth >= n_args + 1,
            old(self)@.class.pool.len() + 6 < 0xffff,
            text_fits(class@),
            text_fits(name@),
            text_fits(descriptor@),
        ensures
            final(self)@ == ({
                let called = old(self)@.with_class(old(self)@.class.with_member_ref(class@, name@, descriptor@, true)).emit(
                    PendingModel::Ready(Instruction::InvokeVirtual((old(self)@.class.pool.len() + 6) as u16)),
                ).popped((n_args + 1) as nat);
                if has_result {
                    called.pushed(1)
                } else {
                    called
                }
            }),
            final(self)@.wf(),
    {
        let methodref_index = self.class.define_methodref(class, name, descriptor);
        self.push_instruction(Instruction::InvokeVirtual(methodref_index));
        self.decrease_stack_depth_by(n_args as u16 + 1);
        if has_result {
            self.increase_stack_depth();
        }
    }

    /// Like `invoke_virtual`, for constructors and private methods.
    pub fn invoke_special(&mut self, class: &str, name: &str, descriptor: &str, n_args: u8, has_result: bool)
        requires
            old(self)@.wf(),
            old(self)@.has_room(3),
            old(self)@.depth >= n_args + 1,
            old(self)@.class.pool.len() + 6 < 0xffff,
            text_fits(class@),
            text_fits(name@),
            text_fits(descriptor@),
        ensures
            final(self)@ == ({
                let called = old(self)@.with_class(old(self)@.class.with_member_ref(class@, name@, descriptor@, true)).emit(
                    PendingModel::Ready(Instruction::InvokeSpecial((old(self)@.class.pool.len() + 6) as u16)),
                ).popped((n_args + 1) as nat);
                if has_result {
                    called.pushed(1)
                } else {
                    called
                }
            }),
            final(self)@.wf(),
    {
        let methodref_index = self.class.define_methodref(class, name, descriptor);
        self.push_instruction(Instruction::InvokeSpecial(methodref_index));
        self.decrease_stack_depth_by(n_args as u16 + 1);
        if has_result {
            self.increase_stack_depth();
        }
    }

    /// Calls a static method: pops `n_args` arguments, and pushes the result
    /// where `has_result` holds.
    pub fn invoke_static(&mut self, class: &str, name: &str, descriptor: &str, n_args: u8, has_result: bool)
        requires
            old(self)@.wf(),
            old(self)@.has_room(3),
            old(self)@.depth >= n_args,
            has_result ==> old(self)@.depth - n_args < 0xffff,
            old(self)@.class.pool.len() + 6 < 0xffff,
            text_fits(class@),
            text_fits(name@),
            text_fits(descriptor@),
        ensures
            final(self)@ == ({
                let called = old(self)@.with_class(old(self)@.class.with_member_ref(class@, name@, descriptor@, true)).emit(
                    PendingModel::Ready(Instruction::InvokeStatic((old(self)@.class.pool.len() + 6) as u16)),
                ).popped(n_args as nat);
                if has_result {
                    called.pushed(1)
                } else {
                    called
                }
            }),
            final(self)@.wf(),
    {
        let methodref_index = self.class.define_methodref(class, name, descriptor);
        self.push_instruction(Instruction::InvokeStatic(methodref_index));
        self.decrease_stack_depth_by(n_args as u16);
        if has_result {
            self.increase_stack_depth();
        }
    }

    /// Replaces the array on top of the stack by its length.
    pub fn array_length(&mut self)
        requires
            old(self)@.wf(),
            old(self)@.has_room(1),
        ensures
            final(self)@ == old(self)@.emit(PendingModel::Ready(Instruction::ArrayLength)),
            final(self)@.wf(),
    {
        self.push_instruction(Instruction::ArrayLength);
    }

    /// Places the label `name` at the current position, and records a
    /// stack-map frame whose offset delta is the gap from the previous label
    /// (or from the start of the method).
    pub fn label(&mut self, name: &str)
        requires
            old(self)@.wf(),
            old(self)@.frames.len() < 0xffff,
        ensures
            final(self)@ == (MethodBuilderModel {
                labels: old(self)@.labels.push((name@, old(self)@.position)),
                frames: old(self)@.frames.push(
                    frame_for_gap(
                        match old(self)@.last_label {
                            Some(l) => (old(self)@.position - l) as u16,
                            None => old(self)@.position,
                        },
                    ),
                ),
                last_label: Some(old(self)@.position),
                ..old(self)@
            }),
            final(self)@.wf(),
    {
        let ghost before = self@;
        self.labels.push((name.to_owned(), self.stack_index));
        let offset = match self.last_stack_frame_index {
            Some(i) => self.stack_index - i,
            None => self.stack_index,
        };
        let frame = if offset <= 63 {
            StackMapFrame::SameFrame(offset as u8)
        } else {
            StackMapFrame::SameFrameExtended(offset)
        };
        self.stack_frames.push(frame);
        self.last_stack_frame_index = Some(self.stack_index);
        proof {
            assert(self@.labels =~= before.labels.push((name@, before.position)));
            assert(self@.frames =~= before.frames.push(frame@));
            assert(self@.code =~= before.code);
        }
    }
}

/// The labels as text and position.
pub open spec fn labels_model(labels: Seq<(String, u16)>) -> Seq<(Seq<char>, u16)> {
    labels.map_values(|e: (String, u16)| (e.0@, e.1))
}

fn fill_offset(instruction: Instruction, offset: u16) -> (r: Instruction)
    requires
        is_branch(instruction),
    ensures
        r == with_offset(instruction, offset),
{
    match instruction {
        Instruction::IfEq(_) => Instruction::IfEq(offset),
        Instruction::IfNe(_) => Instruction::IfNe(offset),
        Instruction::IfLt(_) => Instruction::IfLt(offset),
        Instruction::IfGe(_) => Instruction::IfGe(offset),
        Instruction::IfGt(_) => Instruction::IfGt(offset),
        Instruction::IfLe(_) => Instruction::IfLe(offset),
        Instruction::IfIcmpEq(_) => Instruction::IfIcmpEq(offset),
        Instruction::IfIcmpNe(_) => Instruction::IfIcmpNe(offset),
        Instruction::IfIcmpLt(_) => Instruction::IfIcmpLt(offset),
        Instruction::IfIcmpGe(_) => Instruction::IfIcmpGe(offset),
        Instruction::IfIcmpGt(_) => Instruction::IfIcmpGt(offset),
        Instruction::IfIcmpLe(_) => Instruction::IfIcmpLe(offset),
        _ => Instruction::Goto(offset),
    }
}

/// The position of the label most recently placed under `name`.
fn find_label(labels: &Vec<(String, u16)>, name: &String) -> (r: Option<u16>)
    ensures
        r == label_position(labels_model(labels@), name@),
{
    let ghost lm = labels_model(labels@);
    let mut i = labels.len();
    proof {
        assert(lm.take(i as int) =~= lm);
    }
    while i > 0
        invariant
            i <= labels@.len(),
            lm == labels_model(labels@),
            label_position(lm, name@) == label_position(lm.take(i as int), name@),
        decreases i,
    {
        i = i - 1;
        proof {
            assert(lm.take(i + 1).drop_last() =~= lm.take(i as int));
            assert(lm.take(i + 1).last() == lm[i as int]);
        }
        if labels[i].0.eq(name) {
            return Some(labels[i].1);
        }
    }
    None
}

pub proof fn lemma_instruction_bytes_len(i: Instruction)
    ensures
        i.bytes().len() == instruction_size(i),
        with_offset(i, 0).bytes().len() == instruction_size(i),
        forall|o: u16| #[trigger] instruction_size(with_offset(i, o)) == instruction_size(i),
{
}

/// The resolved code occupies exactly the bytes the cursor advanced over.
pub proof fn lemma_resolved_size(code: Seq<(u16, PendingModel)>, labels: Seq<(Seq<char>, u16)>)
    ensures
        joined(resolved(code, labels)).len() == code_size(code),
        resolved(code, labels).len() == code.len(),
    decreases code.len(),
{
    if code.len() > 0 {
        lemma_resolved_size(code.drop_last(), labels);
        let i = resolve(code.last(), labels);
        lemma_joined_push(resolved(code.drop_last(), labels), i);
        lemma_instruction_bytes_len(i);
        lemma_instruction_bytes_len(pending_instruction(code.last().1));
    }
}

/// Frames of the two kinds a label records take at most three bytes each.
pub proof fn lemma_small_frames_len(frames: Seq<FrameModel>)
    requires
        forall|i: int| 0 <= i < frames.len() ==> frame_small(#[trigger] frames[i]),
    ensures
        joined(frames).len() <= 3 * frames.len(),
    decreases frames.len(),
{
    if frames.len() > 0 {
        assert forall|i: int| 0 <= i < frames.drop_last().len() implies frame_small(#[trigger] frames.drop_last()[i]) by {
            assert(frames.drop_last()[i] == frames[i]);
        }
        lemma_small_frames_len(frames.drop_last());
        assert(frame_small(frames.last()));
    }
}

/// Every emitted instruction in final form, or the first label that a
/// branch names and that was never placed.
#[verifier::rlimit(60)]
fn resolve_all(instructions: &Vec<(u16, IntermediateInstruction)>, labels: &Vec<(String, u16)>) -> (r: Result<
    Vec<Instruction>,
    BuildError,
>)
    requires
        forall|i: int| 0 <= i < instructions@.len() ==> (#[trigger] instructions@[i].1@ matches PendingModel::Waiting(_, b)
            ==> is_branch(b)),
    ensures
        r is Err <==> has_undefined_label(
            instructions@.map_values(|e: (u16, IntermediateInstruction)| (e.0, e.1@)),
            labels_model(labels@),
        ),
        r matches Err(e) ==> (e matches BuildError::UndefinedLabel(name) && exists|i: int|
            0 <= i < instructions@.len() && (#[trigger] instructions@[i].1@ matches PendingModel::Waiting(l, _) && l
                == name@ && label_position(labels_model(labels@), l) is None)),
        r matches Ok(v) ==> v@ == resolved(
            instructions@.map_values(|e: (u16, IntermediateInstruction)| (e.0, e.1@)),
            labels_model(labels@),
        ),
{
    let ghost code = instructions@.map_values(|e: (u16, IntermediateInstruction)| (e.0, e.1@));
    let ghost lm = labels_model(labels@);
    let mut out: Vec<Instruction> = Vec::new();
    let mut i: usize = 0;
    proof {
        assert(code.take(0) =~= Seq::<(u16, PendingModel)>::empty());
    }
    while i < instructions.len()
        invariant
            i <= instructions@.len(),
            code == instructions@.map_values(|e: (u16, IntermediateInstruction)| (e.0, e.1@)),
            lm == labels_model(labels@),
            forall|j: int| 0 <= j < instructions@.len() ==> (#[trigger] instructions@[j].1@ matches PendingModel::Waiting(_, b)
                ==> is_branch(b)),
            out@ == resolved(code.take(i as int), lm),
            forall|j: int| 0 <= j < i ==> (#[trigger] code[j].1 matches PendingModel::Waiting(l, _) ==> label_position(
                lm,
                l,
            ) is Some),
        decreases instructions@.len() - i,
    {
        let (pos, pending) = &instructions[i];
        proof {
            assert(code[i as int] == (*pos, pending@));
            assert(code.take(i + 1).drop_last() =~= code.take(i as int));
            assert(code.take(i + 1).last() == code[i as int]);
        }
        match pending {
            IntermediateInstruction::Ready(ins) => {
                out.push(*ins);
            },
            IntermediateInstruction::Waiting(l, ins) => {
                match find_label(labels, l) {
                    None => {
                        let name = l.clone();
                        proof {
                            assert(code[i as int].1 == PendingModel::Waiting(l@, *ins));
                            assert(has_undefined_label(code, lm));
                        }
                        return Err(BuildError::UndefinedLabel(name));
                    },
                    Some(target) => {
                        proof {
                            assert(is_branch(*ins));
                        }
                        out.push(fill_offset(*ins, target.wrapping_sub(*pos)));
                    },
                }
            },
        }
        i = i + 1;
    }
    proof {
        assert(code.take(i as int) =~= code);
    }
    Ok(out)
}

impl MethodBuilder {
    /// Closes the method: resolves every branch against its label, adds the
    /// texts "StackMapTable" and "Code" to the pool, and appends the method,
    /// with its Code attribute holding the stack-map table, to the class
    /// builder, which it hands back. Fails where a branch names a label that
    /// was never placed.
    #[verifier::rlimit(100)]
    #[verifier::spinoff_prover]
    pub fn done(self) -> (r: Result<ClassBuilder, BuildError>)
        requires
            self@.wf(),
            self@.class.pool.len() + 2 < 0xffff,
            self@.class.methods.len() < 0xffff,
        ensures
            r is Err <==> has_undefined_label(self@.code, self@.labels),
            r matches Err(e) ==> (e matches BuildError::UndefinedLabel(name) && exists|i: int|
                0 <= i < self@.code.len() && (#[trigger] self@.code[i].1 matches PendingModel::Waiting(l, _) && l
                    == name@ && label_position(self@.labels, l) is None)),
            r matches Ok(c) ==> c@.wf() && c@ == (ClassBuilderModel {
                pool: self@.class.pool.push(ConstantModel::Utf8(stack_map_table_name())).push(
                    ConstantModel::Utf8(code_name()),
                ),
                methods: self@.class.methods.push(
                    self@.finished((self@.class.pool.len() + 1) as u16, (self@.class.pool.len() + 2) as u16),
                ),
                ..self@.class
            }),
    {
        let ghost m = self@;
        proof {
            assert forall|i: int| 0 <= i < self.instructions@.len() implies (#[trigger] self.instructions@[i].1@ matches PendingModel::Waiting(_, b)
                ==> is_branch(b)) by {
                assert(m.code[i] == (self.instructions@[i].0, self.instructions@[i].1@));
            }
        }
        let code = match resolve_all(&self.instructions, &self.labels) {
            Ok(code) => code,
            Err(e) => {
                proof {
                    let k = choose|k: int|
                        0 <= k < self.instructions@.len() && (#[trigger] self.instructions@[k].1@ matches PendingModel::Waiting(l, _)
                            && (e matches BuildError::UndefinedLabel(name) && l == name@) && label_position(
                            labels_model(self.labels@),
                            l,
                        ) is None);
                    assert(m.code[k] == (self.instructions@[k].0, self.instructions@[k].1@));
                }
                return Err(e);
            },
        };
        proof {
            lemma_resolved_size(m.code, m.labels);
            reveal_strlit("StackMapTable");
            reveal_strlit("Code");
            assert("StackMapTable"@ =~= stack_map_table_name());
            assert("Code"@ =~= code_name());
            is_ascii_chars_encode_utf8(stack_map_table_name());
            is_ascii_chars_encode_utf8(code_name());
        }
        let stack_frames = self.stack_frames;
        let mut class = self.class;
        let table_index = class.define_utf8("StackMapTable");
        let code_index = class.define_utf8("Code");
        let mut nested: Vec<Attribute> = Vec::new();
        nested.push(Attribute::StackMapTable(table_index, stack_frames));
        let mut attributes: Vec<Attribute> = Vec::new();
        let no_exceptions: Vec<crate::classfile::ExceptionTableEntry> = Vec::new();
        attributes.push(Attribute::Code(code_index, self.max_stack_depth, MAX_LOCALS, code, no_exceptions, nested));
        let method = Method::new(self.access_flags, self.name_index, self.descriptor_index, attributes);
        let ghost before = class@;
        class.methods.push(method);
        proof {
            let fm = m.finished(table_index, code_index);
            lemma_attrs_view(nested@);
            lemma_attrs_view(attributes@);
            assert(no_exceptions@ =~= Seq::<crate::classfile::ExceptionTableEntry>::empty());
            assert(stack_frames@.map_values(|f: StackMapFrame| f@) == m.frames);
            assert(attributes_model(nested@, 1) =~= seq![AttributeModel::StackMapTable(table_index, m.frames)]);
            assert(method@.attributes =~= fm.attributes);
            assert(method@ == fm);
            let after = class@;
            assert(after.methods =~= before.methods.push(fm));
            assert(after.pool == before.pool);
            let table = AttributeModel::StackMapTable(table_index, m.frames);
            let code_attr = fm.attributes[0];
            lemma_small_frames_len(m.frames);
            assert forall|k: int| 0 <= k < m.frames.len() implies frame_wf(#[trigger] m.frames[k]) by {
                assert(frame_small(m.frames[k]));
            }
            assert(attr_encodable(table));
            assert(attrs_bytes(seq![table], 0) == Seq::<u8>::empty());
            assert(attrs_bytes(seq![table], 1) =~= attr_bytes(table));
            assert(attrs_encodable(seq![table], 0));
            assert(attrs_encodable(seq![table], 1));
            assert(attrs_named(after.pool, seq![table], 0));
            assert(attrs_named(after.pool, fm.attributes, 0));
            assert(attrs_encodable(fm.attributes, 0));
            assert(joined(resolved(m.code, m.labels)).len() <= 0xffff);
            assert(attr_body(table).len() <= 2 + 3 * 0xffff);
            assert(attr_body(code_attr).len() <= 0xffff_ffff);
            assert(attr_encodable(code_attr));
            assert(attrs_encodable(fm.attributes, 1));
            assert(method_encodable(fm));
            assert(attr_named(after.pool, table));
            assert(attrs_named(after.pool, seq![table], 1));
            assert(attr_named(after.pool, code_attr));
            assert(attrs_named(after.pool, fm.attributes, 1));
            assert forall|k: int| 0 <= k < after.methods.len() implies method_encodable(#[trigger] after.methods[k])
                && attrs_named(after.pool, after.methods[k].attributes, after.methods[k].attributes.len()) by {
                if k < before.methods.len() {
                    assert(after.methods[k] == before.methods[k]);
                }
            }
        }
        Ok(class)
    }
}

} // verus!
