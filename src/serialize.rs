//! Encoding a classfile into bytes.
use crate::classfile::{
    attribute_model, attributes_model, lemma_attrs_view, Attribute, AttributeModel, Classfile,
    Constant, ConstantModel, FrameModel, Instruction, LineNumberTableEntry, Method, MethodModel,
    StackMapFrame, VerificationType,
};
use crate::encoding::{
    attr_body, attr_bytes, attr_encodable, attrs_bytes, attrs_encodable, be16, be32, code_bytes,
    constant_wf, counted, frame_wf, joined, lemma_attrs_bytes_step, lemma_attrs_encodable,
    lemma_joined_all, lemma_joined_step, method_encodable, Encoded,
};
use vstd::prelude::*;
use vstd::string::StrSliceExecFns;

verus! {

fn write_u8(buf: &mut Vec<u8>, x: u8)
    ensures
        final(buf)@ == old(buf)@ + seq![x],
{
    buf.push(x);
    assert(buf@ =~= old(buf)@ + seq![x]);
}

fn write_u16(buf: &mut Vec<u8>, x: u16)
    ensures
        final(buf)@ == old(buf)@ + be16(x),
{
    buf.push((x / 256) as u8);
    buf.push((x % 256) as u8);
    assert(buf@ =~= old(buf)@ + be16(x));
}

fn write_u32(buf: &mut Vec<u8>, x: u32)
    ensures
        final(buf)@ == old(buf)@ + be32(x),
{
    buf.push((x / 0x100_0000) as u8);
    buf.push(((x / 0x1_0000) % 256) as u8);
    buf.push(((x / 256) % 256) as u8);
    buf.push((x % 256) as u8);
    assert(buf@ =~= old(buf)@ + be32(x));
}

fn write_instruction(i: &Instruction, buf: &mut Vec<u8>)
    ensures
        final(buf)@ == old(buf)@ + i.bytes(),
{
    write_u8(buf, i.opcode());
    match *i {
        Instruction::Bipush(v) | Instruction::LoadConstant(v) => write_u8(buf, v),
        Instruction::IfEq(o) | Instruction::IfNe(o) | Instruction::IfLt(o) | Instruction::IfGe(o)
        | Instruction::IfGt(o) | Instruction::IfLe(o) | Instruction::IfIcmpEq(o)
        | Instruction::IfIcmpNe(o) | Instruction::IfIcmpLt(o) | Instruction::IfIcmpGe(o)
        | Instruction::IfIcmpGt(o) | Instruction::IfIcmpLe(o) | Instruction::Goto(o)
        | Instruction::GetStatic(o) | Instruction::InvokeVirtual(o)
        | Instruction::InvokeSpecial(o) | Instruction::InvokeStatic(o) => write_u16(buf, o),
        _ => {},
    }
    assert(buf@ =~= old(buf)@ + i.bytes());
}

/// The instruction stream behind its four-byte count.
fn write_code(code: &Vec<Instruction>, buf: &mut Vec<u8>)
    requires
        joined(code@).len() <= 0xffff_ffff,
    ensures
        final(buf)@ == old(buf)@ + code_bytes(code@),
{
    let mut stream: Vec<u8> = Vec::new();
    let mut i: usize = 0;
    while i < code.len()
        invariant
            i <= code@.len(),
            stream@ == joined(code@.take(i as int)),
        decreases code@.len() - i,
    {
        proof {
            lemma_joined_step(code@, i as int);
        }
        write_instruction(&code[i], &mut stream);
        i = i + 1;
    }
    proof {
        lemma_joined_all(code@);
    }
    write_u32(buf, stream.len() as u32);
    buf.append(&mut stream);
    assert(buf@ =~= old(buf)@ + code_bytes(code@));
}

fn write_constant(c: &Constant, buf: &mut Vec<u8>)
    requires
        constant_wf(c@),
    ensures
        final(buf)@ == old(buf)@ + c@.bytes(),
{
    match c {
        Constant::Utf8(s) => {
            let mut text = s.as_str().as_bytes_vec();
            write_u8(buf, 1);
            write_u16(buf, text.len() as u16);
            buf.append(&mut text);
        },
        Constant::Class(i) => {
            write_u8(buf, 7);
            write_u16(buf, *i);
        },
        Constant::String(i) => {
            write_u8(buf, 8);
            write_u16(buf, *i);
        },
        Constant::Fieldref(a, b) => {
            write_u8(buf, 9);
            write_u16(buf, *a);
            write_u16(buf, *b);
        },
        Constant::Methodref(a, b) => {
            write_u8(buf, 10);
            write_u16(buf, *a);
            write_u16(buf, *b);
        },
        Constant::NameAndType(a, b) => {
            write_u8(buf, 12);
            write_u16(buf, *a);
            write_u16(buf, *b);
        },
    }
    assert(buf@ =~= old(buf)@ + c@.bytes());
}

fn write_constants(pool: &Vec<Constant>, buf: &mut Vec<u8>)
    requires
        forall|i: int| 0 <= i < pool@.len() ==> constant_wf(#[trigger] pool@[i]@),
    ensures
        final(buf)@ == old(buf)@ + joined(pool@.map_values(|c: Constant| c@)),
{
    let ghost models = pool@.map_values(|c: Constant| c@);
    let mut i: usize = 0;
    while i < pool.len()
        invariant
            i <= pool@.len(),
            models == pool@.map_values(|c: Constant| c@),
            forall|j: int| 0 <= j < pool@.len() ==> constant_wf(#[trigger] pool@[j]@),
            buf@ == old(buf)@ + joined(models.take(i as int)),
        decreases pool@.len() - i,
    {
        proof {
            lemma_joined_step(models, i as int);
        }
        write_constant(&pool[i], buf);
        i = i + 1;
        assert(buf@ =~= old(buf)@ + joined(models.take(i as int)));
    }
    proof {
        lemma_joined_all(models);
    }
}

fn write_verification_type(t: &VerificationType, buf: &mut Vec<u8>)
    ensures
        final(buf)@ == old(buf)@ + t.bytes(),
{
    match *t {
        VerificationType::Top => write_u8(buf, 0),
        VerificationType::Integer => write_u8(buf, 1),
        VerificationType::Float => write_u8(buf, 2),
        VerificationType::Long => write_u8(buf, 3),
        VerificationType::Double => write_u8(buf, 4),
        VerificationType::Null => write_u8(buf, 5),
        VerificationType::UninitializedThis => write_u8(buf, 6),
        VerificationType::Object(i) => {
            write_u8(buf, 7);
            write_u16(buf, i);
        },
        VerificationType::Uninitialized(o) => {
            write_u8(buf, 8);
            write_u16(buf, o);
        },
    }
    assert(buf@ =~= old(buf)@ + t.bytes());
}

fn write_verification_types(ts: &Vec<VerificationType>, buf: &mut Vec<u8>)
    ensures
        final(buf)@ == old(buf)@ + joined(ts@),
{
    let mut i: usize = 0;
    while i < ts.len()
        invariant
            i <= ts@.len(),
            buf@ == old(buf)@ + joined(ts@.take(i as int)),
        decreases ts@.len() - i,
    {
        proof {
            lemma_joined_step(ts@, i as int);
        }
        write_verification_type(&ts[i], buf);
        i = i + 1;
        assert(buf@ =~= old(buf)@ + joined(ts@.take(i as int)));
    }
    proof {
        lemma_joined_all(ts@);
    }
}

fn write_counted_verification_types(ts: &Vec<VerificationType>, buf: &mut Vec<u8>)
    requires
        ts@.len() <= 0xffff,
    ensures
        final(buf)@ == old(buf)@ + counted(ts@),
{
    write_u16(buf, ts.len() as u16);
    write_verification_types(ts, buf);
    assert(buf@ =~= old(buf)@ + counted(ts@));
}

fn write_frame(f: &StackMapFrame, buf: &mut Vec<u8>)
    requires
        frame_wf(f@),
    ensures
        final(buf)@ == old(buf)@ + f@.bytes(),
{
    match f {
        StackMapFrame::SameFrame(d) => write_u8(buf, *d),
        StackMapFrame::SameLocals1StackItemFrame(d, t) => {
            write_u8(buf, *d + 64);
            write_verification_type(t, buf);
        },
        StackMapFrame::SameLocals1StackItemFrameExtended(d, t) => {
            write_u8(buf, 247);
            write_u16(buf, *d);
            write_verification_type(t, buf);
        },
        StackMapFrame::ChopFrame(k, d) => {
            write_u8(buf, 251 - *k);
            write_u16(buf, *d);
        },
        StackMapFrame::SameFrameExtended(d) => {
            write_u8(buf, 251);
            write_u16(buf, *d);
        },
        StackMapFrame::AppendFrame(k, d, locals) => {
            write_u8(buf, 251 + *k);
            write_u16(buf, *d);
            write_verification_types(locals, buf);
        },
        StackMapFrame::FullFrame(d, locals, stack) => {
            write_u8(buf, 255);
            write_u16(buf, *d);
            write_counted_verification_types(locals, buf);
            write_counted_verification_types(stack, buf);
        },
    }
    assert(buf@ =~= old(buf)@ + f@.bytes());
}

fn write_frames(frames: &Vec<StackMapFrame>, buf: &mut Vec<u8>)
    requires
        frames@.len() <= 0xffff,
        forall|i: int| 0 <= i < frames@.len() ==> frame_wf(#[trigger] frames@[i]@),
    ensures
        final(buf)@ == old(buf)@ + counted(frames@.map_values(|f: StackMapFrame| f@)),
{
    let ghost models = frames@.map_values(|f: StackMapFrame| f@);
    write_u16(buf, frames.len() as u16);
    let ghost start = buf@;
    let mut i: usize = 0;
    while i < frames.len()
        invariant
            i <= frames@.len(),
            models == frames@.map_values(|f: StackMapFrame| f@),
            forall|j: int| 0 <= j < frames@.len() ==> frame_wf(#[trigger] frames@[j]@),
            buf@ == start + joined(models.take(i as int)),
        decreases frames@.len() - i,
    {
        proof {
            lemma_joined_step(models, i as int);
        }
        write_frame(&frames[i], buf);
        i = i + 1;
        assert(buf@ =~= start + joined(models.take(i as int)));
    }
    proof {
        lemma_joined_all(models);
    }
    assert(buf@ =~= old(buf)@ + counted(models));
}

fn write_line_numbers(entries: &Vec<LineNumberTableEntry>, buf: &mut Vec<u8>)
    requires
        entries@.len() <= 0xffff,
    ensures
        final(buf)@ == old(buf)@ + counted(entries@),
{
    write_u16(buf, entries.len() as u16);
    let ghost start = buf@;
    let mut i: usize = 0;
    while i < entries.len()
        invariant
            i <= entries@.len(),
            buf@ == start + joined(entries@.take(i as int)),
        decreases entries@.len() - i,
    {
        proof {
            lemma_joined_step(entries@, i as int);
        }
        write_u16(buf, entries[i].start_pc);
        write_u16(buf, entries[i].line_number);
        i = i + 1;
        assert(buf@ =~= start + joined(entries@.take(i as int)));
    }
    proof {
        lemma_joined_all(entries@);
    }
    assert(buf@ =~= old(buf)@ + counted(entries@));
}

/// The kind-specific fields of an attribute.
fn write_attribute_body(a: &Attribute, body: &mut Vec<u8>)
    requires
        attr_encodable(a@),
    ensures
        final(body)@ == old(body)@ + attr_body(a@),
    decreases a, 1nat,
{
    match a {
        Attribute::Code(n, max_stack, max_locals, code, exceptions, attrs) => {
            let ghost m = a@;
            assert(m == AttributeModel::Code(
                *n,
                *max_stack,
                *max_locals,
                code@,
                exceptions@,
                attributes_model(attrs@, attrs@.len()),
            ));
            proof {
                lemma_attrs_view(attrs@);
            }
            write_u16(body, *max_stack);
            write_u16(body, *max_locals);
            write_code(code, body);
            write_u16(body, exceptions.len() as u16);
            write_attributes(attrs, body);
            assert(body@ =~= old(body)@ + attr_body(m));
        },
        Attribute::LineNumberTable(n, entries) => {
            write_line_numbers(entries, body);
        },
        Attribute::SourceFile(n, index) => {
            write_u16(body, *index);
        },
        Attribute::StackMapTable(n, frames) => {
            let ghost models = frames@.map_values(|f: StackMapFrame| f@);
            assert forall|i: int| 0 <= i < frames@.len() implies frame_wf(#[trigger] frames@[i]@) by {
                assert(models[i] == frames@[i]@);
            }
            write_frames(frames, body);
        },
    }
}

/// An attribute: its name index, then its body framed by a four-byte length.
fn write_attribute(a: &Attribute, buf: &mut Vec<u8>)
    requires
        attr_encodable(a@),
    ensures
        final(buf)@ == old(buf)@ + attr_bytes(a@),
    decreases a, 2nat,
{
    let mut body: Vec<u8> = Vec::new();
    write_attribute_body(a, &mut body);
    assert(body@ =~= attr_body(a@));
    let name_index: u16 = match a {
        Attribute::Code(n, ..) => *n,
        Attribute::LineNumberTable(n, _) => *n,
        Attribute::SourceFile(n, _) => *n,
        Attribute::StackMapTable(n, _) => *n,
    };
    write_u16(buf, name_index);
    write_u32(buf, body.len() as u32);
    buf.append(&mut body);
    assert(buf@ =~= old(buf)@ + attr_bytes(a@));
}

/// A count-prefixed attribute list.
fn write_attributes(attrs: &Vec<Attribute>, buf: &mut Vec<u8>)
    requires
        attrs@.len() <= 0xffff,
        attrs_encodable(attributes_model(attrs@, attrs@.len()), attrs@.len()),
    ensures
        final(buf)@ == old(buf)@ + be16(attrs@.len() as u16) + attrs_bytes(
            attributes_model(attrs@, attrs@.len()),
            attrs@.len(),
        ),
    decreases attrs, 0nat,
{
    let ghost models = attributes_model(attrs@, attrs@.len());
    proof {
        lemma_attrs_view(attrs@);
        lemma_attrs_encodable(models, attrs@.len());
    }
    write_u16(buf, attrs.len() as u16);
    let ghost start = buf@;
    let mut i: usize = 0;
    while i < attrs.len()
        invariant
            i <= attrs@.len(),
            models == attributes_model(attrs@, attrs@.len()),
            models.len() == attrs@.len(),
            forall|j: int| 0 <= j < attrs@.len() ==> #[trigger] models[j] == attribute_model(attrs@[j]),
            forall|j: int| 0 <= j < attrs@.len() ==> attr_encodable(#[trigger] models[j]),
            buf@ == start + attrs_bytes(models, i as nat),
        decreases attrs@.len() - i,
    {
        proof {
            lemma_attrs_bytes_step(models, i as int);
        }
        write_attribute(&attrs[i], buf);
        i = i + 1;
    }
}

fn write_method(m: &Method, buf: &mut Vec<u8>)
    requires
        method_encodable(m@),
    ensures
        final(buf)@ == old(buf)@ + m@.bytes(),
{
    proof {
        lemma_attrs_view(m.attributes@);
    }
    write_u16(buf, m.access_flags);
    write_u16(buf, m.name_index);
    write_u16(buf, m.descriptor_index);
    write_attributes(&m.attributes, buf);
    assert(buf@ =~= old(buf)@ + m@.bytes());
}

fn write_methods(methods: &Vec<Method>, buf: &mut Vec<u8>)
    requires
        methods@.len() <= 0xffff,
        forall|i: int| 0 <= i < methods@.len() ==> method_encodable(#[trigger] methods@[i]@),
    ensures
        final(buf)@ == old(buf)@ + counted(methods@.map_values(|m: Method| m@)),
{
    let ghost models = methods@.map_values(|m: Method| m@);
    write_u16(buf, methods.len() as u16);
    let ghost start = buf@;
    let mut i: usize = 0;
    while i < methods.len()
        invariant
            i <= methods@.len(),
            models == methods@.map_values(|m: Method| m@),
            forall|j: int| 0 <= j < methods@.len() ==> method_encodable(#[trigger] methods@[j]@),
            buf@ == start + joined(models.take(i as int)),
        decreases methods@.len() - i,
    {
        proof {
            lemma_joined_step(models, i as int);
        }
        write_method(&methods[i], buf);
        i = i + 1;
        assert(buf@ =~= start + joined(models.take(i as int)));
    }
    proof {
        lemma_joined_all(models);
    }
    assert(buf@ =~= old(buf)@ + counted(models));
}

impl Classfile {
    /// Appends the classfile's bytes to `buf`.
    pub fn serialize(self, buf: &mut Vec<u8>)
        requires
            self@.encodable(),
        ensures
            final(buf)@ == old(buf)@ + self@.bytes(),
    {
        let ghost model = self@;
        assert forall|i: int| 0 <= i < self.constant_pool@.len() implies constant_wf(
            #[trigger] self.constant_pool@[i]@,
        ) by {
            assert(model.constant_pool[i] == self.constant_pool@[i]@);
        }
        assert forall|i: int| 0 <= i < self.methods@.len() implies method_encodable(
            #[trigger] self.methods@[i]@,
        ) by {
            assert(model.methods[i] == self.methods@[i]@);
        }
        proof {
            lemma_attrs_view(self.attributes@);
        }
        write_u32(buf, self.magic);
        write_u16(buf, self.minor_version);
        write_u16(buf, self.major_version);
        write_u16(buf, (self.constant_pool.len() + 1) as u16);
        write_constants(&self.constant_pool, buf);
        write_u16(buf, self.access_flags);
        write_u16(buf, self.this_class);
        write_u16(buf, self.super_class);
        write_u16(buf, self.interfaces.len() as u16);
        write_u16(buf, self.fields.len() as u16);
        write_methods(&self.methods, buf);
        write_attributes(&self.attributes, buf);
        assert(buf@ =~= old(buf)@ + model.bytes());
    }
}

} // verus!
