//! Decoding a classfile from bytes. Each decoder reads a window `pos..end`
//! of the input, and is proved both sound (what it returns encodes to the
//! bytes it consumed) and complete (any well-formed value whose encoding
//! starts the window is what it returns).
use crate::classfile::{
    attribute_model, attributes_model, lemma_attributes_model_push, lemma_attrs_view, Attribute,
    AttributeModel, Classfile, ClassfileModel, Constant, Method, MethodModel, pool_model, ConstantModel, FrameModel, Instruction, LineNumberTableEntry, StackMapFrame, VerificationType,
};
use crate::encoding::{
    be16, be32, code_bytes, joined, lemma_joined_all, lemma_joined_push, lemma_joined_single, lemma_joined_split,
    lemma_joined_step, opcode,
    operand_bytes, constant_wf, counted, frame_wf, Encoded, attr_body, attr_bytes, attr_encodable,
    attr_kind_name, attr_name_index, attr_named, attrs_bytes, attrs_encodable, attrs_named, code_name,
    lemma_attrs_bytes_joined, lemma_attrs_encodable, lemma_attrs_named, line_number_table_name,
    pool_names, source_file_name, stack_map_table_name, method_encodable,
};
use vstd::utf8::{encode_utf8, valid_utf8, encode_utf8_decode_utf8, encode_utf8_valid_utf8};
use vstd::prelude::*;

verus! {

/// `e` occurs in `b` at `pos`, within the window ending at `end`.
pub open spec fn at(b: Seq<u8>, pos: int, end: int, e: Seq<u8>) -> bool {
    &&& 0 <= pos
    &&& pos + e.len() <= end
    &&& end <= b.len()
    &&& b.subrange(pos, pos + e.len()) == e
}

pub proof fn lemma_at_concat(b: Seq<u8>, pos: int, end: int, e1: Seq<u8>, e2: Seq<u8>)
    ensures
        at(b, pos, end, e1 + e2) <==> (at(b, pos, end, e1) && at(b, pos + e1.len(), end, e2)),
{
    let e = e1 + e2;
    if at(b, pos, end, e) {
        assert forall|i: int| 0 <= i < e1.len() implies b.subrange(pos, pos + e1.len())[i] == e1[i] by {
            assert(b.subrange(pos, pos + e.len())[i] == e[i]);
        }
        assert(b.subrange(pos, pos + e1.len()) =~= e1);
        assert forall|i: int| 0 <= i < e2.len() implies b.subrange(pos + e1.len(), pos + e1.len() + e2.len())[i]
            == e2[i] by {
            assert(b.subrange(pos, pos + e.len())[e1.len() + i] == e[e1.len() + i]);
        }
        assert(b.subrange(pos + e1.len(), pos + e1.len() + e2.len()) =~= e2);
    }
    if at(b, pos, end, e1) && at(b, pos + e1.len(), end, e2) {
        assert forall|i: int| 0 <= i < e.len() implies b.subrange(pos, pos + e.len())[i] == e[i] by {
            if i < e1.len() {
                assert(b.subrange(pos, pos + e1.len())[i] == e1[i]);
            } else {
                assert(b.subrange(pos + e1.len(), pos + e1.len() + e2.len())[i - e1.len()] == e2[i - e1.len()]);
            }
        }
        assert(b.subrange(pos, pos + e.len()) =~= e);
    }
}

pub proof fn lemma_at_single(b: Seq<u8>, pos: int, end: int, x: u8)
    ensures
        at(b, pos, end, seq![x]) <==> (0 <= pos < end <= b.len() && b[pos] == x),
{
    if 0 <= pos < end <= b.len() {
        assert(b.subrange(pos, pos + 1)[0] == b[pos]);
        if b[pos] == x {
            assert(b.subrange(pos, pos + 1) =~= seq![x]);
        }
    }
}

pub proof fn lemma_be16_decode(b0: u8, b1: u8)
    ensures
        be16((b0 as int * 256 + b1 as int) as u16) == seq![b0, b1],
{
    let x = (b0 as int * 256 + b1 as int) as u16;
    assert(x / 256 == b0 && x % 256 == b1) by (nonlinear_arith)
        requires
            x == b0 as int * 256 + b1 as int,
            0 <= b0 < 256,
            0 <= b1 < 256,
    ;
    assert(be16(x) =~= seq![b0, b1]);
}

pub proof fn lemma_be16_injective(x: u16, y: u16)
    ensures
        be16(x) == be16(y) ==> x == y,
{
    if be16(x) == be16(y) {
        assert(be16(x)[0] == be16(y)[0] && be16(x)[1] == be16(y)[1]);
    }
}

pub proof fn lemma_be32_decode(b0: u8, b1: u8, b2: u8, b3: u8)
    ensures
        be32((b0 as int * 0x100_0000 + b1 as int * 0x1_0000 + b2 as int * 256 + b3 as int) as u32)
            == seq![b0, b1, b2, b3],
{
    let x = (b0 as int * 0x100_0000 + b1 as int * 0x1_0000 + b2 as int * 256 + b3 as int) as u32;
    assert(x / 0x100_0000 == b0 && (x / 0x1_0000) % 256 == b1 && (x / 256) % 256 == b2 && x % 256 == b3)
        by (nonlinear_arith)
        requires
            x == b0 as int * 0x100_0000 + b1 as int * 0x1_0000 + b2 as int * 256 + b3 as int,
            0 <= b0 < 256,
            0 <= b1 < 256,
            0 <= b2 < 256,
            0 <= b3 < 256,
    ;
    assert(be32(x) =~= seq![b0, b1, b2, b3]);
}

pub proof fn lemma_be32_injective(x: u32, y: u32)
    ensures
        be32(x) == be32(y) ==> x == y,
{
    if be32(x) == be32(y) {
        assert(be32(x)[0] == be32(y)[0] && be32(x)[1] == be32(y)[1]);
        assert(be32(x)[2] == be32(y)[2] && be32(x)[3] == be32(y)[3]);
        assert(x == y) by (nonlinear_arith)
            requires
                x / 0x100_0000 == y / 0x100_0000,
                (x / 0x1_0000) % 256 == (y / 0x1_0000) % 256,
                (x / 256) % 256 == (y / 256) % 256,
                x % 256 == y % 256,
                0 <= x < 0x1_0000_0000,
                0 <= y < 0x1_0000_0000,
        ;
    }
}

fn read_u8(b: &Vec<u8>, pos: usize, end: usize) -> (r: Option<(u8, usize)>)
    requires
        pos <= end <= b@.len(),
    ensures
        r matches Some((x, p)) ==> p == pos + 1 && at(b@, pos as int, end as int, seq![x]),
        forall|x: u8| at(b@, pos as int, end as int, seq![x]) ==> r == Some((x, (pos + 1) as usize)),
{
    proof {
        assert forall|x: u8| at(b@, pos as int, end as int, seq![x]) implies pos < end && b@[pos as int] == x by {
            lemma_at_single(b@, pos as int, end as int, x);
        }
    }
    if pos < end {
        proof {
            lemma_at_single(b@, pos as int, end as int, b@[pos as int]);
        }
        Some((b[pos], pos + 1))
    } else {
        None
    }
}

fn read_u16(b: &Vec<u8>, pos: usize, end: usize) -> (r: Option<(u16, usize)>)
    requires
        pos <= end <= b@.len(),
    ensures
        r matches Some((x, p)) ==> p == pos + 2 && at(b@, pos as int, end as int, be16(x)),
        forall|x: u16| at(b@, pos as int, end as int, be16(x)) ==> r == Some((x, (pos + 2) as usize)),
{
    if end - pos < 2 {
        return None;
    }
    let b0 = b[pos];
    let b1 = b[pos + 1];
    let x: u16 = b0 as u16 * 256 + b1 as u16;
    proof {
        lemma_be16_decode(b0, b1);
        assert(b@.subrange(pos as int, pos + 2) =~= seq![b0, b1]);
        assert forall|y: u16| at(b@, pos as int, end as int, be16(y)) implies y == x by {
            lemma_be16_injective(x, y);
        }
    }
    Some((x, pos + 2))
}

fn read_u32(b: &Vec<u8>, pos: usize, end: usize) -> (r: Option<(u32, usize)>)
    requires
        pos <= end <= b@.len(),
    ensures
        r matches Some((x, p)) ==> p == pos + 4 && at(b@, pos as int, end as int, be32(x)),
        forall|x: u32| at(b@, pos as int, end as int, be32(x)) ==> r == Some((x, (pos + 4) as usize)),
{
    if end - pos < 4 {
        return None;
    }
    let b0 = b[pos];
    let b1 = b[pos + 1];
    let b2 = b[pos + 2];
    let b3 = b[pos + 3];
    let x: u32 = b0 as u32 * 0x100_0000 + b1 as u32 * 0x1_0000 + b2 as u32 * 256 + b3 as u32;
    proof {
        lemma_be32_decode(b0, b1, b2, b3);
        assert(b@.subrange(pos as int, pos + 4) =~= seq![b0, b1, b2, b3]);
        assert forall|y: u32| at(b@, pos as int, end as int, be32(y)) implies y == x by {
            lemma_be32_injective(x, y);
        }
    }
    Some((x, pos + 4))
}

// ---------------------------------------------------------------------------
// Instructions
/// The numeric operand of an instruction, zero where it has none.
pub open spec fn operand_value(i: Instruction) -> int {
    match i {
        Instruction::Bipush(v) | Instruction::LoadConstant(v) => v as int,
        Instruction::IfEq(o) | Instruction::IfNe(o) | Instruction::IfLt(o) | Instruction::IfGe(o)
        | Instruction::IfGt(o) | Instruction::IfLe(o) | Instruction::IfIcmpEq(o)
        | Instruction::IfIcmpNe(o) | Instruction::IfIcmpLt(o) | Instruction::IfIcmpGe(o)
        | Instruction::IfIcmpGt(o) | Instruction::IfIcmpLe(o) | Instruction::Goto(o)
        | Instruction::GetStatic(o) | Instruction::InvokeVirtual(o)
        | Instruction::InvokeSpecial(o) | Instruction::InvokeStatic(o) => o as int,
        _ => 0,
    }
}

pub proof fn lemma_operand_bytes(i: Instruction)
    ensures
        operand_bytes(i).len() == 0 ==> operand_value(i) == 0,
        operand_bytes(i).len() == 1 ==> operand_bytes(i) == seq![operand_value(i) as u8] && operand_value(i) < 256,
        operand_bytes(i).len() == 2 ==> operand_bytes(i) == be16(operand_value(i) as u16) && operand_value(i)
            < 0x1_0000,
        operand_bytes(i).len() <= 2,
        0 <= operand_value(i),
{
}

/// An instruction is determined by its opcode and its operand.
pub proof fn lemma_instruction_unique(x: Instruction, y: Instruction)
    requires
        opcode(x) == opcode(y),
        operand_value(x) == operand_value(y),
    ensures
        x == y,
{
}

/// The number of operand bytes that follow the opcode `op`; 3 where `op` is
/// no opcode of an instruction.
pub open spec fn width_of(op: u8) -> int {
    match op {
        0x02 | 0x03 | 0x04 | 0x05 | 0x06 | 0x07 | 0x08 | 0x2A | 0x2B | 0x2C | 0x2D | 0x32 | 0x60 | 0xB1
        | 0xBE => 0,
        0x10 | 0x12 => 1,
        0x99 | 0x9A | 0x9B | 0x9C | 0x9D | 0x9E | 0x9F | 0xA0 | 0xA1 | 0xA2 | 0xA3 | 0xA4 | 0xA7 | 0xB2
        | 0xB6 | 0xB7 | 0xB8 => 2,
        _ => 3,
    }
}

fn operand_width(op: u8) -> (w: u8)
    ensures
        w == width_of(op),
        forall|x: Instruction| opcode(x) == op ==> w == operand_bytes(x).len(),
{
    match op {
        0x02 | 0x03 | 0x04 | 0x05 | 0x06 | 0x07 | 0x08 | 0x2A | 0x2B | 0x2C | 0x2D | 0x32 | 0x60 | 0xB1
        | 0xBE => 0,
        0x10 | 0x12 => 1,
        0x99 | 0x9A | 0x9B | 0x9C | 0x9D | 0x9E | 0x9F | 0xA0 | 0xA1 | 0xA2 | 0xA3 | 0xA4 | 0xA7 | 0xB2
        | 0xB6 | 0xB7 | 0xB8 => 2,
        _ => 3,
    }
}

fn instruction_from(op: u8, operand: u16) -> (x: Instruction)
    requires
        width_of(op) < 3,
        width_of(op) == 0 ==> operand == 0,
        width_of(op) == 1 ==> operand < 256,
    ensures
        opcode(x) == op,
        operand_value(x) == operand,
{
    match op {
        0x02 => Instruction::IconstM1,
        0x03 => Instruction::Iconst0,
        0x04 => Instruction::Iconst1,
        0x05 => Instruction::Iconst2,
        0x06 => Instruction::Iconst3,
        0x07 => Instruction::Iconst4,
        0x08 => Instruction::Iconst5,
        0x10 => Instruction::Bipush(operand as u8),
        0x12 => Instruction::LoadConstant(operand as u8),
        0x2A => Instruction::Aload0,
        0x2B => Instruction::Aload1,
        0x2C => Instruction::Aload2,
        0x2D => Instruction::Aload3,
        0x32 => Instruction::Aaload,
        0x60 => Instruction::Iadd,
        0x99 => Instruction::IfEq(operand),
        0x9A => Instruction::IfNe(operand),
        0x9B => Instruction::IfLt(operand),
        0x9C => Instruction::IfGe(operand),
        0x9D => Instruction::IfGt(operand),
        0x9E => Instruction::IfLe(operand),
        0x9F => Instruction::IfIcmpEq(operand),
        0xA0 => Instruction::IfIcmpNe(operand),
        0xA1 => Instruction::IfIcmpLt(operand),
        0xA2 => Instruction::IfIcmpGe(operand),
        0xA3 => Instruction::IfIcmpGt(operand),
        0xA4 => Instruction::IfIcmpLe(operand),
        0xA7 => Instruction::Goto(operand),
        0xB1 => Instruction::Return,
        0xB2 => Instruction::GetStatic(operand),
        0xB6 => Instruction::InvokeVirtual(operand),
        0xB7 => Instruction::InvokeSpecial(operand),
        0xB8 => Instruction::InvokeStatic(operand),
        _ => Instruction::ArrayLength,
    }
}

fn decode_instruction(b: &Vec<u8>, pos: usize, end: usize) -> (r: Option<(Instruction, usize)>)
    requires
        pos <= end <= b@.len(),
    ensures
        r matches Some((x, p)) ==> p == pos + x.bytes().len() && at(b@, pos as int, end as int, x.bytes()),
        forall|x: Instruction| at(b@, pos as int, end as int, x.bytes()) ==> r == Some(
            (x, (pos + x.bytes().len()) as usize),
        ),
{
    proof {
        assert forall|x: Instruction| at(b@, pos as int, end as int, x.bytes()) implies at(
            b@,
            pos as int,
            end as int,
            seq![opcode(x)],
        ) && at(b@, pos + 1, end as int, operand_bytes(x)) by {
            lemma_at_concat(b@, pos as int, end as int, seq![opcode(x)], operand_bytes(x));
        }
    }
    let (op, next) = match read_u8(b, pos, end) {
        Some(v) => v,
        None => return None,
    };
    let width = operand_width(op);
    if width == 3 {
        return None;
    }
    let operand: u16;
    let after: usize;
    if width == 0 {
        operand = 0;
        after = next;
        proof {
            assert(b@.subrange(next as int, next as int) =~= Seq::<u8>::empty());
        }
    } else if width == 1 {
        match read_u8(b, next, end) {
            Some((v, p)) => {
                operand = v as u16;
                after = p;
            },
            None => {
                proof {
                    assert forall|x: Instruction| !at(b@, pos as int, end as int, x.bytes()) by {
                        lemma_operand_bytes(x);
                    }
                }
                return None;
            },
        }
    } else {
        match read_u16(b, next, end) {
            Some((v, p)) => {
                operand = v;
                after = p;
            },
            None => {
                proof {
                    assert forall|x: Instruction| !at(b@, pos as int, end as int, x.bytes()) by {
                        lemma_operand_bytes(x);
                    }
                }
                return None;
            },
        }
    }
    let x = instruction_from(op, operand);
    proof {
        lemma_operand_bytes(x);
        lemma_at_concat(b@, pos as int, end as int, seq![opcode(x)], operand_bytes(x));
        assert forall|y: Instruction| at(b@, pos as int, end as int, y.bytes()) implies x == y by {
            lemma_operand_bytes(y);
            if width == 2 {
                lemma_be16_injective(operand_value(y) as u16, operand);
            }
            lemma_instruction_unique(x, y);
        }
    }
    Some((x, after))
}

// ---------------------------------------------------------------------------
// Sequences of encoded items
/// Where the first `k` items of `s` have been read from `pos` to `cur`, the
/// next item's encoding follows at `cur`.
pub proof fn lemma_next_item<T: Encoded>(b: Seq<u8>, pos: int, cur: int, end: int, s: Seq<T>, k: int)
    requires
        0 <= pos <= cur <= end,
        0 <= k < s.len(),
        joined(s.take(k)) == b.subrange(pos, cur),
        at(b, pos, end, joined(s)),
    ensures
        at(b, cur, end, s[k].bytes()),
{
    lemma_joined_split(s, k);
    let rest = s.skip(k);
    lemma_joined_split(rest, 1);
    assert(rest.take(1) =~= seq![s[k]]);
    lemma_joined_single(s[k]);
    assert(joined(s.take(k)).len() == cur - pos);
    assert(joined(s) == joined(s.take(k)) + joined(rest));
    lemma_at_concat(b, pos, end, joined(s.take(k)), joined(rest));
    assert(joined(rest) == s[k].bytes() + joined(rest.skip(1)));
    lemma_at_concat(b, cur, end, s[k].bytes(), joined(rest.skip(1)));
}

/// Reading one more item extends what has been read.
pub proof fn lemma_read_item<T: Encoded>(b: Seq<u8>, pos: int, cur: int, end: int, s: Seq<T>, x: T)
    requires
        0 <= pos <= cur,
        joined(s) == b.subrange(pos, cur),
        at(b, cur, end, x.bytes()),
    ensures
        joined(s.push(x)) == b.subrange(pos, cur + x.bytes().len()),
{
    lemma_joined_push(s, x);
    assert(b.subrange(pos, cur + x.bytes().len()) =~= b.subrange(pos, cur) + b.subrange(
        cur,
        cur + x.bytes().len(),
    ));
}

/// Read items whose encodings fill the window exactly, one after the other.
fn decode_instructions(b: &Vec<u8>, pos: usize, end: usize) -> (r: Option<Vec<Instruction>>)
    requires
        pos <= end <= b@.len(),
    ensures
        r matches Some(v) ==> joined(v@) == b@.subrange(pos as int, end as int),
        forall|s: Seq<Instruction>| joined(s) == b@.subrange(pos as int, end as int) ==> (r matches Some(v) && v@
            == s),
{
    let mut out: Vec<Instruction> = Vec::new();
    let mut cur = pos;
    proof {
        assert(b@.subrange(pos as int, pos as int) =~= Seq::<u8>::empty());
    }
    while cur < end
        invariant
            pos <= cur <= end <= b@.len(),
            joined(out@) == b@.subrange(pos as int, cur as int),
            forall|s: Seq<Instruction>| joined(s) == b@.subrange(pos as int, end as int) ==> out@.len() <= s.len()
                && out@ == s.take(out@.len() as int),
        decreases end - cur,
    {
        let ghost k = out@.len() as int;
        proof {
            assert forall|s: Seq<Instruction>| joined(s) == b@.subrange(pos as int, end as int) implies k < s.len()
                && at(b@, cur as int, end as int, s[k].bytes()) by {
                if k == s.len() {
                    assert(s.take(k) =~= s);
                    assert(b@.subrange(pos as int, cur as int).len() == cur - pos);
                    assert(b@.subrange(pos as int, end as int).len() == end - pos);
                }
                assert(at(b@, pos as int, end as int, joined(s)));
                lemma_next_item(b@, pos as int, cur as int, end as int, s, k);
            }
        }
        match decode_instruction(b, cur, end) {
            None => return None,
            Some((x, p)) => {
                proof {
                    lemma_read_item(b@, pos as int, cur as int, end as int, out@, x);
                    assert forall|s: Seq<Instruction>| joined(s) == b@.subrange(pos as int, end as int) implies out@.push(
                        x,
                    ) == s.take(k + 1) by {
                        assert(s.take(k + 1) =~= s.take(k).push(s[k]));
                    }
                }
                out.push(x);
                cur = p;
            },
        }
    }
    proof {
        assert forall|s: Seq<Instruction>| joined(s) == b@.subrange(pos as int, end as int) implies out@ == s by {
            let k = out@.len() as int;
            if k < s.len() {
                lemma_joined_split(s, k);
                let rest = s.skip(k);
                lemma_joined_split(rest, 1);
                assert(rest.take(1) =~= seq![s[k]]);
                lemma_joined_single(s[k]);
                assert(false);
            }
            assert(s.take(k) =~= s);
        }
    }
    Some(out)
}

/// The instruction stream: a four-byte count, then exactly that many bytes of
/// instructions.
fn decode_code(b: &Vec<u8>, pos: usize, end: usize) -> (r: Option<(Vec<Instruction>, usize)>)
    requires
        pos <= end <= b@.len(),
    ensures
        r matches Some((v, p)) ==> p == pos + code_bytes(v@).len() && at(b@, pos as int, end as int, code_bytes(v@))
            && joined(v@).len() <= 0xffff_ffff,
        forall|s: Seq<Instruction>| joined(s).len() <= 0xffff_ffff && at(b@, pos as int, end as int, code_bytes(s)) ==> (
        r matches Some((v, p)) && v@ == s),
{
    proof {
        assert forall|s: Seq<Instruction>| joined(s).len() <= 0xffff_ffff && at(b@, pos as int, end as int, code_bytes(s))
        implies at(b@, pos as int, end as int, be32(joined(s).len() as u32)) && at(
            b@,
            pos + 4,
            end as int,
            joined(s),
        ) by {
            lemma_at_concat(b@, pos as int, end as int, be32(joined(s).len() as u32), joined(s));
        }
    }
    let (len, start) = match read_u32(b, pos, end) {
        Some(v) => v,
        None => return None,
    };
    if (end - start) < len as usize {
        return None;
    }
    let stop = start + len as usize;
    match decode_instructions(b, start, stop) {
        None => None,
        Some(v) => {
            proof {
                lemma_at_concat(b@, pos as int, end as int, be32(len), joined(v@));
            }
            Some((v, stop))
        },
    }
}

// ---------------------------------------------------------------------------
// Constants
/// Relies on `String::from_utf8`: it accepts exactly the well-formed UTF-8
/// byte sequences, and the string it returns is made of those bytes.
#[verifier::external_body]
fn string_from_utf8(bytes: Vec<u8>) -> (r: Option<String>)
    ensures
        r matches Some(s) ==> encode_utf8(s@) == bytes@,
        r is None ==> !valid_utf8(bytes@),
{
    String::from_utf8(bytes).ok()
}

/// The tag byte of a constant.
pub open spec fn constant_tag(c: ConstantModel) -> u8 {
    match c {
        ConstantModel::Utf8(_) => 1,
        ConstantModel::Class(_) => 7,
        ConstantModel::String(_) => 8,
        ConstantModel::Fieldref(..) => 9,
        ConstantModel::Methodref(..) => 10,
        ConstantModel::NameAndType(..) => 12,
    }
}

proof fn lemma_constant_at(b: Seq<u8>, pos: int, end: int, c: ConstantModel)
    requires
        at(b, pos, end, c.bytes()),
    ensures
        b[pos] == constant_tag(c),
        at(b, pos + 1, end, c.bytes().skip(1)),
        c.bytes() == seq![constant_tag(c)] + c.bytes().skip(1),
{
    assert(c.bytes() =~= seq![constant_tag(c)] + c.bytes().skip(1));
    lemma_at_concat(b, pos, end, seq![constant_tag(c)], c.bytes().skip(1));
    lemma_at_single(b, pos, end, constant_tag(c));
}

fn decode_text(b: &Vec<u8>, pos: usize, end: usize) -> (r: Option<(String, usize)>)
    requires
        pos <= end <= b@.len(),
    ensures
        r matches Some((t, p)) ==> encode_utf8(t@).len() <= 0xffff && p == pos + 2 + encode_utf8(t@).len() && at(
            b@,
            pos as int,
            end as int,
            be16(encode_utf8(t@).len() as u16) + encode_utf8(t@),
        ),
        forall|s: Seq<char>| encode_utf8(s).len() <= 0xffff && at(
            b@,
            pos as int,
            end as int,
            be16(encode_utf8(s).len() as u16) + encode_utf8(s),
        ) ==> (r matches Some((t, p)) && t@ == s),
{
    proof {
        assert forall|s: Seq<char>| encode_utf8(s).len() <= 0xffff && at(
            b@,
            pos as int,
            end as int,
            be16(encode_utf8(s).len() as u16) + encode_utf8(s),
        ) implies at(b@, pos as int, end as int, be16(encode_utf8(s).len() as u16)) && at(
            b@,
            pos + 2,
            end as int,
            encode_utf8(s),
        ) by {
            lemma_at_concat(b@, pos as int, end as int, be16(encode_utf8(s).len() as u16), encode_utf8(s));
        }
    }
    let (len, start) = match read_u16(b, pos, end) {
        Some(v) => v,
        None => return None,
    };
    if end - start < len as usize {
        return None;
    }
    let stop = start + len as usize;
    let bytes = vstd::slice::slice_to_vec(vstd::slice::slice_subrange(b.as_slice(), start, stop));
    match string_from_utf8(bytes) {
        None => {
            proof {
                assert forall|s: Seq<char>| encode_utf8(s).len() <= 0xffff && at(
                    b@,
                    pos as int,
                    end as int,
                    be16(encode_utf8(s).len() as u16) + encode_utf8(s),
                ) implies false by {
                    encode_utf8_valid_utf8(s);
                }
            }
            None
        },
        Some(t) => {
            proof {
                lemma_at_concat(b@, pos as int, end as int, be16(len), encode_utf8(t@));
                assert forall|s: Seq<char>| encode_utf8(s).len() <= 0xffff && at(
                    b@,
                    pos as int,
                    end as int,
                    be16(encode_utf8(s).len() as u16) + encode_utf8(s),
                ) implies t@ == s by {
                    encode_utf8_decode_utf8(s);
                    encode_utf8_decode_utf8(t@);
                }
            }
            Some((t, stop))
        },
    }
}

#[verifier::rlimit(50)]
fn decode_constant(b: &Vec<u8>, pos: usize, end: usize) -> (r: Option<(Constant, usize)>)
    requires
        pos <= end <= b@.len(),
    ensures
        r matches Some((c, p)) ==> constant_wf(c@) && p == pos + c@.bytes().len() && at(
            b@,
            pos as int,
            end as int,
            c@.bytes(),
        ),
        forall|m: ConstantModel| constant_wf(m) && at(b@, pos as int, end as int, m.bytes()) ==> (r matches Some(
            (c, p),
        ) && c@ == m),
{
    proof {
        assert forall|m: ConstantModel| at(b@, pos as int, end as int, m.bytes()) implies pos < end && b@[pos as int]
            == constant_tag(m) && at(b@, pos + 1, end as int, m.bytes().skip(1)) by {
            lemma_constant_at(b@, pos as int, end as int, m);
        }
    }
    if pos >= end {
        return None;
    }
    let tag = b[pos];
    let next = pos + 1;
    if tag == 1 {
        let ghost text_at = |s: Seq<char>|
            encode_utf8(s).len() <= 0xffff && at(
                b@,
                next as int,
                end as int,
                be16(encode_utf8(s).len() as u16) + encode_utf8(s),
            );
        proof {
            assert forall|m: ConstantModel| constant_wf(m) && at(b@, pos as int, end as int, m.bytes()) implies (
            m matches ConstantModel::Utf8(s) && text_at(s)) by {
                lemma_constant_at(b@, pos as int, end as int, m);
                if let ConstantModel::Utf8(s) = m {
                    assert(m.bytes().skip(1) =~= be16(encode_utf8(s).len() as u16) + encode_utf8(s));
                }
            }
        }
        let r = decode_text(b, next, end);
        match r {
            None => None,
            Some((t, p)) => {
                let c = Constant::Utf8(t);
                proof {
                    lemma_at_single(b@, pos as int, end as int, 1);
                    lemma_at_concat(b@, pos as int, end as int, seq![1u8], c@.bytes().skip(1));
                    assert(c@.bytes() =~= seq![1u8] + c@.bytes().skip(1));
                    assert(c@.bytes().skip(1) =~= be16(encode_utf8(t@).len() as u16) + encode_utf8(t@));
                }
                Some((c, p))
            },
        }
    } else if tag == 7 || tag == 8 {
        match read_u16(b, next, end) {
            None => {
                proof {
                    assert forall|m: ConstantModel| constant_wf(m) && at(b@, pos as int, end as int, m.bytes()) implies false by {
                        lemma_constant_at(b@, pos as int, end as int, m);
                        match m {
                            ConstantModel::Class(j) => assert(m.bytes().skip(1) =~= be16(j)),
                            ConstantModel::String(j) => assert(m.bytes().skip(1) =~= be16(j)),
                            _ => {},
                        }
                    }
                }
                None
            },
            Some((i, p)) => {
                let c = if tag == 7 {
                    Constant::Class(i)
                } else {
                    Constant::String(i)
                };
                proof {
                    lemma_at_single(b@, pos as int, end as int, tag);
                    lemma_at_concat(b@, pos as int, end as int, seq![tag], be16(i));
                    assert(c@.bytes() =~= seq![tag] + be16(i));
                    assert forall|m: ConstantModel| constant_wf(m) && at(b@, pos as int, end as int, m.bytes()) implies c@
                        == m by {
                        lemma_constant_at(b@, pos as int, end as int, m);
                        match m {
                            ConstantModel::Class(j) => assert(m.bytes().skip(1) =~= be16(j)),
                            ConstantModel::String(j) => assert(m.bytes().skip(1) =~= be16(j)),
                            _ => {},
                        }
                    }
                }
                Some((c, p))
            },
        }
    } else if tag == 9 || tag == 10 || tag == 12 {
        let (x, p1) = match read_u16(b, next, end) {
            Some(v) => v,
            None => {
                proof {
                    assert forall|m: ConstantModel| constant_wf(m) && at(b@, pos as int, end as int, m.bytes()) implies false by {
                        lemma_constant_at(b@, pos as int, end as int, m);
                        match m {
                            ConstantModel::Fieldref(i, j) | ConstantModel::Methodref(i, j)
                            | ConstantModel::NameAndType(i, j) => {
                                assert(m.bytes().skip(1) =~= be16(i) + be16(j));
                                lemma_at_concat(b@, pos + 1, end as int, be16(i), be16(j));
                            },
                            _ => {},
                        }
                    }
                }
                return None;
            },
        };
        let (y, p2) = match read_u16(b, p1, end) {
            Some(v) => v,
            None => {
                proof {
                    assert forall|m: ConstantModel| constant_wf(m) && at(b@, pos as int, end as int, m.bytes()) implies false by {
                        lemma_constant_at(b@, pos as int, end as int, m);
                        match m {
                            ConstantModel::Fieldref(i, j) | ConstantModel::Methodref(i, j)
                            | ConstantModel::NameAndType(i, j) => {
                                assert(m.bytes().skip(1) =~= be16(i) + be16(j));
                                lemma_at_concat(b@, pos + 1, end as int, be16(i), be16(j));
                            },
                            _ => {},
                        }
                    }
                }
                return None;
            },
        };
        let c = if tag == 9 {
            Constant::Fieldref(x, y)
        } else if tag == 10 {
            Constant::Methodref(x, y)
        } else {
            Constant::NameAndType(x, y)
        };
        proof {
            lemma_at_single(b@, pos as int, end as int, tag);
            lemma_at_concat(b@, pos + 1, end as int, be16(x), be16(y));
            lemma_at_concat(b@, pos as int, end as int, seq![tag], be16(x) + be16(y));
            assert(c@.bytes() =~= seq![tag] + (be16(x) + be16(y)));
            assert forall|m: ConstantModel| constant_wf(m) && at(b@, pos as int, end as int, m.bytes()) implies c@ == m by {
                lemma_constant_at(b@, pos as int, end as int, m);
                match m {
                    ConstantModel::Fieldref(i, j) | ConstantModel::Methodref(i, j)
                    | ConstantModel::NameAndType(i, j) => {
                        assert(m.bytes().skip(1) =~= be16(i) + be16(j));
                        lemma_at_concat(b@, pos + 1, end as int, be16(i), be16(j));
                    },
                    _ => {},
                }
            }
        }
        Some((c, p2))
    } else {
        proof {
            assert forall|m: ConstantModel| constant_wf(m) && at(b@, pos as int, end as int, m.bytes()) implies false by {
                lemma_constant_at(b@, pos as int, end as int, m);
            }
        }
        None
    }
}

fn decode_pool(b: &Vec<u8>, pos: usize, end: usize, n: usize) -> (r: Option<(Vec<Constant>, usize)>)
    requires
        pos <= end <= b@.len(),
    ensures
        r matches Some((v, p)) ==> v@.len() == n && (forall|i: int| 0 <= i < n ==> constant_wf(#[trigger] v@[i]@))
            && p == pos + joined(v@.map_values(|c: Constant| c@)).len() && at(
            b@,
            pos as int,
            end as int,
            joined(v@.map_values(|c: Constant| c@)),
        ),
        forall|s: Seq<ConstantModel>| s.len() == n && (forall|i: int| 0 <= i < n ==> constant_wf(#[trigger] s[i]))
            && at(b@, pos as int, end as int, joined(s)) ==> (r matches Some((v, p)) && v@.map_values(
            |c: Constant| c@,
        ) == s),
{
    let mut out: Vec<Constant> = Vec::new();
    let mut cur = pos;
    let mut i: usize = 0;
    proof {
        assert(b@.subrange(pos as int, pos as int) =~= Seq::<u8>::empty());
        assert(out@.map_values(|c: Constant| c@) =~= Seq::<ConstantModel>::empty());
    }
    while i < n
        invariant
            pos <= cur <= end <= b@.len(),
            i <= n,
            out@.len() == i,
            forall|j: int| 0 <= j < i ==> constant_wf(#[trigger] out@[j]@),
            joined(out@.map_values(|c: Constant| c@)) == b@.subrange(pos as int, cur as int),
            forall|s: Seq<ConstantModel>| s.len() == n && (forall|j: int| 0 <= j < n ==> constant_wf(#[trigger] s[j]))
                && at(b@, pos as int, end as int, joined(s)) ==> out@.map_values(|c: Constant| c@) == s.take(
                i as int,
            ),
        decreases n - i,
    {
        let ghost models = out@.map_values(|c: Constant| c@);
        proof {
            assert forall|s: Seq<ConstantModel>| s.len() == n && (forall|j: int| 0 <= j < n ==> constant_wf(
                #[trigger] s[j],
            )) && at(b@, pos as int, end as int, joined(s)) implies at(b@, cur as int, end as int, s[i as int].bytes())
                && constant_wf(s[i as int]) by {
                lemma_next_item(b@, pos as int, cur as int, end as int, s, i as int);
            }
        }
        match decode_constant(b, cur, end) {
            None => return None,
            Some((c, p)) => {
                proof {
                    lemma_read_item(b@, pos as int, cur as int, end as int, models, c@);
                    assert(out@.push(c).map_values(|c: Constant| c@) =~= models.push(c@));
                    assert forall|s: Seq<ConstantModel>| s.len() == n && (forall|j: int| 0 <= j < n ==> constant_wf(
                        #[trigger] s[j],
                    )) && at(b@, pos as int, end as int, joined(s)) implies models.push(c@) == s.take(i + 1) by {
                        assert(s.take(i + 1) =~= s.take(i as int).push(s[i as int]));
                    }
                }
                out.push(c);
                cur = p;
                i = i + 1;
            },
        }
    }
    proof {
        assert forall|s: Seq<ConstantModel>| s.len() == n && (forall|j: int| 0 <= j < n ==> constant_wf(#[trigger] s[j]))
            && at(b@, pos as int, end as int, joined(s)) implies out@.map_values(|c: Constant| c@) == s by {
            assert(s.take(n as int) =~= s);
        }
    }
    Some((out, cur))
}

// ---------------------------------------------------------------------------
// Verification types and frames
proof fn lemma_first_byte(b: Seq<u8>, pos: int, end: int, e: Seq<u8>)
    requires
        at(b, pos, end, e),
        e.len() > 0,
    ensures
        b[pos] == e[0],
        at(b, pos + 1, end, e.skip(1)),
        e == seq![e[0]] + e.skip(1),
{
    assert(e =~= seq![e[0]] + e.skip(1));
    lemma_at_concat(b, pos, end, seq![e[0]], e.skip(1));
    lemma_at_single(b, pos, end, e[0]);
}

fn decode_verification_type(b: &Vec<u8>, pos: usize, end: usize) -> (r: Option<(VerificationType, usize)>)
    requires
        pos <= end <= b@.len(),
    ensures
        r matches Some((t, p)) ==> p == pos + t.bytes().len() && at(b@, pos as int, end as int, t.bytes()),
        forall|t: VerificationType| at(b@, pos as int, end as int, t.bytes()) ==> r == Some(
            (t, (pos + t.bytes().len()) as usize),
        ),
{
    if pos >= end {
        return None;
    }
    let tag = b[pos];
    let next = pos + 1;
    let t = match tag {
        0 => VerificationType::Top,
        1 => VerificationType::Integer,
        2 => VerificationType::Float,
        3 => VerificationType::Long,
        4 => VerificationType::Double,
        5 => VerificationType::Null,
        6 => VerificationType::UninitializedThis,
        7 | 8 => {
            match read_u16(b, next, end) {
                None => {
                    proof {
                        assert forall|t: VerificationType| !at(b@, pos as int, end as int, t.bytes()) by {
                            if at(b@, pos as int, end as int, t.bytes()) {
                                lemma_first_byte(b@, pos as int, end as int, t.bytes());
                                match t {
                                    VerificationType::Object(i) | VerificationType::Uninitialized(i) => {
                                        assert(t.bytes().skip(1) =~= be16(i));
                                    },
                                    _ => {},
                                }
                            }
                        }
                    }
                    return None;
                },
                Some((i, p)) => {
                    let t = if tag == 7 {
                        VerificationType::Object(i)
                    } else {
                        VerificationType::Uninitialized(i)
                    };
                    proof {
                        lemma_at_single(b@, pos as int, end as int, tag);
                        lemma_at_concat(b@, pos as int, end as int, seq![tag], be16(i));
                        assert(t.bytes() =~= seq![tag] + be16(i));
                        assert forall|u: VerificationType| at(b@, pos as int, end as int, u.bytes()) implies u == t by {
                            lemma_first_byte(b@, pos as int, end as int, u.bytes());
                            match u {
                                VerificationType::Object(j) | VerificationType::Uninitialized(j) => {
                                    assert(u.bytes().skip(1) =~= be16(j));
                                },
                                _ => {},
                            }
                        }
                    }
                    return Some((t, p));
                },
            }
        },
        _ => {
            proof {
                assert forall|t: VerificationType| !at(b@, pos as int, end as int, t.bytes()) by {
                    if at(b@, pos as int, end as int, t.bytes()) {
                        lemma_first_byte(b@, pos as int, end as int, t.bytes());
                    }
                }
            }
            return None;
        },
    };
    proof {
        lemma_at_single(b@, pos as int, end as int, tag);
        assert(t.bytes() =~= seq![tag]);
        assert forall|u: VerificationType| at(b@, pos as int, end as int, u.bytes()) implies u == t by {
            lemma_first_byte(b@, pos as int, end as int, u.bytes());
        }
    }
    Some((t, next))
}

/// `n` verification types, one after the other.
fn decode_verification_types(b: &Vec<u8>, pos: usize, end: usize, n: usize) -> (r: Option<(Vec<VerificationType>, usize)>)
    requires
        pos <= end <= b@.len(),
    ensures
        r matches Some((v, p)) ==> v@.len() == n && p == pos + joined(v@).len() && at(
            b@,
            pos as int,
            end as int,
            joined(v@),
        ),
        forall|s: Seq<VerificationType>| s.len() == n && at(b@, pos as int, end as int, joined(s)) ==> (r matches Some(
            (v, p),
        ) && v@ == s),
{
    let mut out: Vec<VerificationType> = Vec::new();
    let mut cur = pos;
    let mut i: usize = 0;
    proof {
        assert(b@.subrange(pos as int, pos as int) =~= Seq::<u8>::empty());
    }
    while i < n
        invariant
            pos <= cur <= end <= b@.len(),
            i <= n,
            out@.len() == i,
            joined(out@) == b@.subrange(pos as int, cur as int),
            forall|s: Seq<VerificationType>| s.len() == n && at(b@, pos as int, end as int, joined(s)) ==> out@ == s.take(
                i as int,
            ),
        decreases n - i,
    {
        proof {
            assert forall|s: Seq<VerificationType>| s.len() == n && at(b@, pos as int, end as int, joined(s)) implies at(
                b@,
                cur as int,
                end as int,
                s[i as int].bytes(),
            ) by {
                lemma_next_item(b@, pos as int, cur as int, end as int, s, i as int);
            }
        }
        match decode_verification_type(b, cur, end) {
            None => return None,
            Some((t, p)) => {
                proof {
                    lemma_read_item(b@, pos as int, cur as int, end as int, out@, t);
                    assert forall|s: Seq<VerificationType>| s.len() == n && at(b@, pos as int, end as int, joined(s)) implies out@.push(
                        t,
                    ) == s.take(i + 1) by {
                        assert(s.take(i + 1) =~= s.take(i as int).push(s[i as int]));
                    }
                }
                out.push(t);
                cur = p;
                i = i + 1;
            },
        }
    }
    proof {
        assert forall|s: Seq<VerificationType>| s.len() == n && at(b@, pos as int, end as int, joined(s)) implies out@ == s by {
            assert(s.take(n as int) =~= s);
        }
    }
    Some((out, cur))
}

/// A two-byte count, then that many verification types.
fn decode_counted_verification_types(b: &Vec<u8>, pos: usize, end: usize) -> (r: Option<(Vec<VerificationType>, usize)>)
    requires
        pos <= end <= b@.len(),
    ensures
        r matches Some((v, p)) ==> v@.len() <= 0xffff && p == pos + counted(v@).len() && at(
            b@,
            pos as int,
            end as int,
            counted(v@),
        ),
        forall|s: Seq<VerificationType>| s.len() <= 0xffff && at(b@, pos as int, end as int, counted(s)) ==> (r matches Some(
            (v, p),
        ) && v@ == s),
{
    proof {
        assert forall|s: Seq<VerificationType>| s.len() <= 0xffff && at(b@, pos as int, end as int, counted(s)) implies at(
            b@,
            pos as int,
            end as int,
            be16(s.len() as u16),
        ) && at(b@, pos + 2, end as int, joined(s)) by {
            lemma_at_concat(b@, pos as int, end as int, be16(s.len() as u16), joined(s));
        }
    }
    let (n, next) = match read_u16(b, pos, end) {
        Some(v) => v,
        None => return None,
    };
    match decode_verification_types(b, next, end, n as usize) {
        None => None,
        Some((v, p)) => {
            proof {
                lemma_at_concat(b@, pos as int, end as int, be16(n), joined(v@));
            }
            Some((v, p))
        },
    }
}

/// Where a frame's encoding occurs, its fields' encodings occur in turn.
proof fn lemma_frame_at(b: Seq<u8>, pos: int, end: int, m: FrameModel)
    requires
        at(b, pos, end, m.bytes()),
    ensures
        pos < end,
        match m {
            FrameModel::SameFrame(d) => b[pos] == d,
            FrameModel::SameLocals1StackItemFrame(d, t) => b[pos] == (d + 64) as u8 && at(b, pos + 1, end, t.bytes()),
            FrameModel::SameLocals1StackItemFrameExtended(d, t) => b[pos] == 247 && at(b, pos + 1, end, be16(d)) && at(
                b,
                pos + 3,
                end,
                t.bytes(),
            ),
            FrameModel::ChopFrame(k, d) => b[pos] == (251 - k) as u8 && at(b, pos + 1, end, be16(d)),
            FrameModel::SameFrameExtended(d) => b[pos] == 251 && at(b, pos + 1, end, be16(d)),
            FrameModel::AppendFrame(k, d, l) => b[pos] == (251 + k) as u8 && at(b, pos + 1, end, be16(d)) && at(
                b,
                pos + 3,
                end,
                joined(l),
            ),
            FrameModel::FullFrame(d, l, st) => b[pos] == 255 && at(b, pos + 1, end, be16(d)) && at(
                b,
                pos + 3,
                end,
                counted(l),
            ) && at(b, pos + 3 + counted(l).len(), end, counted(st)),
        },
{
    let e = m.bytes();
    lemma_first_byte(b, pos, end, e);
    let rest = e.skip(1);
    match m {
        FrameModel::SameLocals1StackItemFrame(d, t) => {
            assert(rest =~= t.bytes());
        },
        FrameModel::SameLocals1StackItemFrameExtended(d, t) => {
            assert(rest =~= be16(d) + t.bytes());
            lemma_at_concat(b, pos + 1, end, be16(d), t.bytes());
        },
        FrameModel::ChopFrame(k, d) => {
            assert(rest =~= be16(d));
        },
        FrameModel::SameFrameExtended(d) => {
            assert(rest =~= be16(d));
        },
        FrameModel::AppendFrame(k, d, l) => {
            assert(rest =~= be16(d) + joined(l));
            lemma_at_concat(b, pos + 1, end, be16(d), joined(l));
        },
        FrameModel::FullFrame(d, l, st) => {
            assert(rest =~= be16(d) + (counted(l) + counted(st)));
            lemma_at_concat(b, pos + 1, end, be16(d), counted(l) + counted(st));
            lemma_at_concat(b, pos + 3, end, counted(l), counted(st));
        },
        _ => {},
    }
}

#[verifier::rlimit(50)]
fn decode_frame(b: &Vec<u8>, pos: usize, end: usize) -> (r: Option<(StackMapFrame, usize)>)
    requires
        pos <= end <= b@.len(),
    ensures
        r matches Some((f, p)) ==> frame_wf(f@) && p == pos + f@.bytes().len() && at(
            b@,
            pos as int,
            end as int,
            f@.bytes(),
        ),
        forall|m: FrameModel| frame_wf(m) && at(b@, pos as int, end as int, m.bytes()) ==> (r matches Some((f, p))
            && f@ == m),
{
    proof {
        assert forall|m: FrameModel| frame_wf(m) && at(b@, pos as int, end as int, m.bytes()) implies pos < end && match m {
            FrameModel::SameFrame(d) => b@[pos as int] == d,
            FrameModel::SameLocals1StackItemFrame(d, t) => b@[pos as int] == (d + 64) as u8 && at(
                b@,
                pos + 1,
                end as int,
                t.bytes(),
            ),
            FrameModel::SameLocals1StackItemFrameExtended(d, t) => b@[pos as int] == 247 && at(
                b@,
                pos + 1,
                end as int,
                be16(d),
            ) && at(b@, pos + 3, end as int, t.bytes()),
            FrameModel::ChopFrame(k, d) => b@[pos as int] == (251 - k) as u8 && at(b@, pos + 1, end as int, be16(d)),
            FrameModel::SameFrameExtended(d) => b@[pos as int] == 251 && at(b@, pos + 1, end as int, be16(d)),
            FrameModel::AppendFrame(k, d, l) => b@[pos as int] == (251 + k) as u8 && at(b@, pos + 1, end as int, be16(d))
                && at(b@, pos + 3, end as int, joined(l)),
            FrameModel::FullFrame(d, l, st) => b@[pos as int] == 255 && at(b@, pos + 1, end as int, be16(d)) && at(
                b@,
                pos + 3,
                end as int,
                counted(l),
            ) && at(b@, pos + 3 + counted(l).len(), end as int, counted(st)),
        } by {
            lemma_frame_at(b@, pos as int, end as int, m);
        }
    }
    if pos >= end {
        return None;
    }
    let ft = b[pos];
    let next = pos + 1;
    proof {
        lemma_at_single(b@, pos as int, end as int, ft);
    }
    if ft <= 63 {
        let f = StackMapFrame::SameFrame(ft);
        proof {
            assert(f@.bytes() =~= seq![ft]);
        }
        Some((f, next))
    } else if ft <= 127 {
        match decode_verification_type(b, next, end) {
            None => None,
            Some((t, p)) => {
                let f = StackMapFrame::SameLocals1StackItemFrame(ft - 64, t);
                proof {
                    lemma_at_concat(b@, pos as int, end as int, seq![ft], t.bytes());
                    assert(f@.bytes() =~= seq![ft] + t.bytes());
                }
                Some((f, p))
            },
        }
    } else if ft == 247 {
        let (d, p1) = match read_u16(b, next, end) {
            Some(v) => v,
            None => return None,
        };
        match decode_verification_type(b, p1, end) {
            None => None,
            Some((t, p)) => {
                let f = StackMapFrame::SameLocals1StackItemFrameExtended(d, t);
                proof {
                    lemma_at_concat(b@, pos + 1, end as int, be16(d), t.bytes());
                    lemma_at_concat(b@, pos as int, end as int, seq![ft], be16(d) + t.bytes());
                    assert(f@.bytes() =~= seq![ft] + (be16(d) + t.bytes()));
                }
                Some((f, p))
            },
        }
    } else if 248 <= ft && ft <= 251 {
        match read_u16(b, next, end) {
            None => None,
            Some((d, p)) => {
                let f = if ft == 251 {
                    StackMapFrame::SameFrameExtended(d)
                } else {
                    StackMapFrame::ChopFrame(251 - ft, d)
                };
                proof {
                    lemma_at_concat(b@, pos as int, end as int, seq![ft], be16(d));
                    assert(f@.bytes() =~= seq![ft] + be16(d));
                }
                Some((f, p))
            },
        }
    } else if 252 <= ft && ft <= 254 {
        let (d, p1) = match read_u16(b, next, end) {
            Some(v) => v,
            None => return None,
        };
        let k = ft - 251;
        match decode_verification_types(b, p1, end, k as usize) {
            None => None,
            Some((l, p)) => {
                let f = StackMapFrame::AppendFrame(k, d, l);
                proof {
                    lemma_at_concat(b@, pos + 1, end as int, be16(d), joined(l@));
                    lemma_at_concat(b@, pos as int, end as int, seq![ft], be16(d) + joined(l@));
                    assert(f@.bytes() =~= seq![ft] + (be16(d) + joined(l@)));
                }
                Some((f, p))
            },
        }
    } else if ft == 255 {
        let (d, p1) = match read_u16(b, next, end) {
            Some(v) => v,
            None => return None,
        };
        let (l, p2) = match decode_counted_verification_types(b, p1, end) {
            Some(v) => v,
            None => return None,
        };
        match decode_counted_verification_types(b, p2, end) {
            None => None,
            Some((st, p)) => {
                let f = StackMapFrame::FullFrame(d, l, st);
                proof {
                    lemma_at_concat(b@, p1 as int, end as int, counted(l@), counted(st@));
                    lemma_at_concat(b@, pos + 1, end as int, be16(d), counted(l@) + counted(st@));
                    lemma_at_concat(b@, pos as int, end as int, seq![ft], be16(d) + (counted(l@) + counted(st@)));
                    assert(f@.bytes() =~= seq![ft] + (be16(d) + (counted(l@) + counted(st@))));
                }
                Some((f, p))
            },
        }
    } else {
        None
    }
}

/// A two-byte count, then that many frames.
fn decode_frames(b: &Vec<u8>, pos: usize, end: usize) -> (r: Option<(Vec<StackMapFrame>, usize)>)
    requires
        pos <= end <= b@.len(),
    ensures
        r matches Some((v, p)) ==> v@.len() <= 0xffff && (forall|i: int| 0 <= i < v@.len() ==> frame_wf(
            #[trigger] v@[i]@,
        )) && p == pos + counted(v@.map_values(|f: StackMapFrame| f@)).len() && at(
            b@,
            pos as int,
            end as int,
            counted(v@.map_values(|f: StackMapFrame| f@)),
        ),
        forall|s: Seq<FrameModel>| s.len() <= 0xffff && (forall|i: int| 0 <= i < s.len() ==> frame_wf(#[trigger] s[i]))
            && at(b@, pos as int, end as int, counted(s)) ==> (r matches Some((v, p)) && v@.map_values(
            |f: StackMapFrame| f@,
        ) == s),
{
    proof {
        assert forall|s: Seq<FrameModel>| s.len() <= 0xffff && at(b@, pos as int, end as int, counted(s)) implies at(
            b@,
            pos as int,
            end as int,
            be16(s.len() as u16),
        ) && at(b@, pos + 2, end as int, joined(s)) by {
            lemma_at_concat(b@, pos as int, end as int, be16(s.len() as u16), joined(s));
        }
    }
    let (count, start) = match read_u16(b, pos, end) {
        Some(v) => v,
        None => return None,
    };
    let n = count as usize;
    let mut out: Vec<StackMapFrame> = Vec::new();
    let mut cur = start;
    let mut i: usize = 0;
    proof {
        assert(b@.subrange(start as int, start as int) =~= Seq::<u8>::empty());
        assert(out@.map_values(|f: StackMapFrame| f@) =~= Seq::<FrameModel>::empty());
    }
    while i < n
        invariant
            start <= cur <= end <= b@.len(),
            start == pos + 2,
            n == count,
            i <= n,
            out@.len() == i,
            forall|j: int| 0 <= j < i ==> frame_wf(#[trigger] out@[j]@),
            joined(out@.map_values(|f: StackMapFrame| f@)) == b@.subrange(start as int, cur as int),
            forall|s: Seq<FrameModel>| s.len() <= 0xffff && (forall|j: int| 0 <= j < s.len() ==> frame_wf(#[trigger] s[j]))
                && at(b@, pos as int, end as int, counted(s)) ==> s.len() == n && at(b@, start as int, end as int, joined(s))
                && out@.map_values(|f: StackMapFrame| f@) == s.take(i as int),
        decreases n - i,
    {
        let ghost models = out@.map_values(|f: StackMapFrame| f@);
        proof {
            assert forall|s: Seq<FrameModel>| s.len() <= 0xffff && (forall|j: int| 0 <= j < s.len() ==> frame_wf(
                #[trigger] s[j],
            )) && at(b@, pos as int, end as int, counted(s)) implies at(b@, cur as int, end as int, s[i as int].bytes())
                && frame_wf(s[i as int]) by {
                lemma_next_item(b@, start as int, cur as int, end as int, s, i as int);
            }
        }
        match decode_frame(b, cur, end) {
            None => return None,
            Some((f, p)) => {
                proof {
                    lemma_read_item(b@, start as int, cur as int, end as int, models, f@);
                    assert(out@.push(f).map_values(|f: StackMapFrame| f@) =~= models.push(f@));
                    assert forall|s: Seq<FrameModel>| s.len() <= 0xffff && (forall|j: int| 0 <= j < s.len() ==> frame_wf(
                        #[trigger] s[j],
                    )) && at(b@, pos as int, end as int, counted(s)) implies models.push(f@) == s.take(i + 1) by {
                        assert(s.take(i + 1) =~= s.take(i as int).push(s[i as int]));
                    }
                }
                out.push(f);
                cur = p;
                i = i + 1;
            },
        }
    }
    proof {
        let models = out@.map_values(|f: StackMapFrame| f@);
        assert(models.len() == n);
        lemma_at_concat(b@, pos as int, end as int, be16(count), joined(models));
        assert forall|s: Seq<FrameModel>| s.len() <= 0xffff && (forall|j: int| 0 <= j < s.len() ==> frame_wf(#[trigger] s[j]))
            && at(b@, pos as int, end as int, counted(s)) implies models == s by {
            assert(s.take(n as int) =~= s);
        }
    }
    Some((out, cur))
}

/// A two-byte count, then that many line-number entries.
fn decode_line_numbers(b: &Vec<u8>, pos: usize, end: usize) -> (r: Option<(Vec<LineNumberTableEntry>, usize)>)
    requires
        pos <= end <= b@.len(),
    ensures
        r matches Some((v, p)) ==> v@.len() <= 0xffff && p == pos + counted(v@).len() && at(
            b@,
            pos as int,
            end as int,
            counted(v@),
        ),
        forall|s: Seq<LineNumberTableEntry>| s.len() <= 0xffff && at(b@, pos as int, end as int, counted(s)) ==> (
        r matches Some((v, p)) && v@ == s),
{
    proof {
        assert forall|s: Seq<LineNumberTableEntry>| s.len() <= 0xffff && at(b@, pos as int, end as int, counted(s)) implies at(
            b@,
            pos as int,
            end as int,
            be16(s.len() as u16),
        ) && at(b@, pos + 2, end as int, joined(s)) by {
            lemma_at_concat(b@, pos as int, end as int, be16(s.len() as u16), joined(s));
        }
    }
    let (count, start) = match read_u16(b, pos, end) {
        Some(v) => v,
        None => return None,
    };
    let n = count as usize;
    let mut out: Vec<LineNumberTableEntry> = Vec::new();
    let mut cur = start;
    let mut i: usize = 0;
    proof {
        assert(b@.subrange(start as int, start as int) =~= Seq::<u8>::empty());
    }
    while i < n
        invariant
            start <= cur <= end <= b@.len(),
            start == pos + 2,
            n == count,
            i <= n,
            out@.len() == i,
            joined(out@) == b@.subrange(start as int, cur as int),
            forall|s: Seq<LineNumberTableEntry>| s.len() <= 0xffff && at(b@, pos as int, end as int, counted(s)) ==> s.len()
                == n && at(b@, start as int, end as int, joined(s)) && out@ == s.take(i as int),
        decreases n - i,
    {
        let (start_pc, p1) = match read_u16(b, cur, end) {
            Some(v) => v,
            None => {
                proof {
                    assert forall|s: Seq<LineNumberTableEntry>| s.len() <= 0xffff && at(b@, pos as int, end as int, counted(s)) implies false by {
                        lemma_next_item(b@, start as int, cur as int, end as int, s, i as int);
                        lemma_at_concat(b@, cur as int, end as int, be16(s[i as int].start_pc), be16(s[i as int].line_number));
                    }
                }
                return None;
            },
        };
        let (line_number, p2) = match read_u16(b, p1, end) {
            Some(v) => v,
            None => {
                proof {
                    assert forall|s: Seq<LineNumberTableEntry>| s.len() <= 0xffff && at(b@, pos as int, end as int, counted(s)) implies false by {
                        lemma_next_item(b@, start as int, cur as int, end as int, s, i as int);
                        lemma_at_concat(b@, cur as int, end as int, be16(s[i as int].start_pc), be16(s[i as int].line_number));
                    }
                }
                return None;
            },
        };
        let e = LineNumberTableEntry { start_pc, line_number };
        proof {
            lemma_at_concat(b@, cur as int, end as int, be16(start_pc), be16(line_number));
            lemma_read_item(b@, start as int, cur as int, end as int, out@, e);
            assert forall|s: Seq<LineNumberTableEntry>| s.len() <= 0xffff && at(b@, pos as int, end as int, counted(s)) implies out@.push(
                e,
            ) == s.take(i + 1) by {
                lemma_next_item(b@, start as int, cur as int, end as int, s, i as int);
                lemma_at_concat(b@, cur as int, end as int, be16(s[i as int].start_pc), be16(s[i as int].line_number));
                assert(s.take(i + 1) =~= s.take(i as int).push(s[i as int]));
            }
        }
        out.push(e);
        cur = p2;
        i = i + 1;
    }
    proof {
        lemma_at_concat(b@, pos as int, end as int, be16(count), joined(out@));
        assert forall|s: Seq<LineNumberTableEntry>| s.len() <= 0xffff && at(b@, pos as int, end as int, counted(s)) implies out@
            == s by {
            assert(s.take(n as int) =~= s);
        }
    }
    Some((out, cur))
}

// ---------------------------------------------------------------------------
// Attributes
/// The name's index in the list Code, LineNumberTable, SourceFile,
/// StackMapTable.
pub open spec fn kind_index_name(k: u8) -> Seq<char> {
    if k == 0 {
        code_name()
    } else if k == 1 {
        line_number_table_name()
    } else if k == 2 {
        source_file_name()
    } else {
        stack_map_table_name()
    }
}

/// Which attribute kind the pool entry at `idx` names: 0 to 3 for a known
/// kind, 4 for none.
fn attribute_kind(pool: &Vec<Constant>, idx: u16) -> (k: u8)
    ensures
        k <= 4,
        k < 4 ==> pool_names(pool_model(pool@), idx, kind_index_name(k)),
        k == 4 ==> forall|j: u8| j < 4 ==> !pool_names(pool_model(pool@), idx, #[trigger] kind_index_name(j)),
{
    let ghost pm = pool_model(pool@);
    proof {
        reveal_strlit("Code");
        reveal_strlit("LineNumberTable");
        reveal_strlit("SourceFile");
        reveal_strlit("StackMapTable");
        assert("Code"@ =~= code_name());
        assert("LineNumberTable"@ =~= line_number_table_name());
        assert("SourceFile"@ =~= source_file_name());
        assert("StackMapTable"@ =~= stack_map_table_name());
    }
    if idx == 0 || idx as usize > pool.len() {
        return 4;
    }
    proof {
        assert(pm[idx - 1] == pool@[idx - 1]@);
    }
    match &pool[idx as usize - 1] {
        Constant::Utf8(text) => {
            let code = "Code".to_owned();
            let lines = "LineNumberTable".to_owned();
            let source = "SourceFile".to_owned();
            let frames = "StackMapTable".to_owned();
            if text.eq(&code) {
                0
            } else if text.eq(&lines) {
                1
            } else if text.eq(&source) {
                2
            } else if text.eq(&frames) {
                3
            } else {
                4
            }
        },
        _ => 4,
    }
}

/// Where an attribute's encoding occurs, its name index, its body length and
/// its body occur in turn.
proof fn lemma_attribute_at(b: Seq<u8>, pos: int, end: int, m: AttributeModel)
    requires
        at(b, pos, end, attr_bytes(m)),
        attr_encodable(m),
    ensures
        at(b, pos, end, be16(attr_name_index(m))),
        at(b, pos + 2, end, be32(attr_body(m).len() as u32)),
        at(b, pos + 6, pos + 6 + attr_body(m).len(), attr_body(m)),
        attr_bytes(m).len() == 6 + attr_body(m).len(),
{
    lemma_at_concat(b, pos, end, be16(attr_name_index(m)) + be32(attr_body(m).len() as u32), attr_body(m));
    lemma_at_concat(b, pos, end, be16(attr_name_index(m)), be32(attr_body(m).len() as u32));
}

/// Where a Code body occurs, its fields occur in turn.
proof fn lemma_code_body_at(b: Seq<u8>, pos: int, end: int, m: AttributeModel)
    requires
        m is Code,
        at(b, pos, end, attr_body(m)),
    ensures
        match m {
            AttributeModel::Code(_, ms, ml, code, ex, attrs) => {
                &&& at(b, pos, end, be16(ms))
                &&& at(b, pos + 2, end, be16(ml))
                &&& at(b, pos + 4, end, code_bytes(code))
                &&& at(b, pos + 4 + code_bytes(code).len(), end, be16(ex.len() as u16))
                &&& at(
                    b,
                    pos + 6 + code_bytes(code).len(),
                    end,
                    be16(attrs.len() as u16) + attrs_bytes(attrs, attrs.len()),
                )
                &&& attr_body(m) == be16(ms) + be16(ml) + code_bytes(code) + be16(ex.len() as u16) + (be16(
                    attrs.len() as u16,
                ) + attrs_bytes(attrs, attrs.len()))
            },
            _ => true,
        },
{
    if let AttributeModel::Code(_, ms, ml, code, ex, attrs) = m {
        let tail = be16(attrs.len() as u16) + attrs_bytes(attrs, attrs.len());
        let e1 = be16(ms);
        let e2 = be16(ml);
        let e3 = code_bytes(code);
        let e4 = be16(ex.len() as u16);
        assert(attr_body(m) =~= e1 + e2 + e3 + e4 + tail);
        lemma_at_concat(b, pos, end, e1 + e2 + e3 + e4, tail);
        lemma_at_concat(b, pos, end, e1 + e2 + e3, e4);
        lemma_at_concat(b, pos, end, e1 + e2, e3);
        lemma_at_concat(b, pos, end, e1, e2);
    }
}

/// A Code attribute named `name` whose body fills `start..stop`.
pub open spec fn code_fits(pm: Seq<ConstantModel>, b: Seq<u8>, start: int, stop: int, name: u16, m: AttributeModel) -> bool {
    &&& m is Code
    &&& attr_encodable(m)
    &&& attr_named(pm, m)
    &&& attr_name_index(m) == name
    &&& attr_body(m) == b.subrange(start, stop)
}

/// The body of a Code attribute, filling `start..stop`.
#[verifier::rlimit(100)]
#[verifier::spinoff_prover]
fn decode_code_body(pool: &Vec<Constant>, b: &Vec<u8>, start: usize, stop: usize, name: u16) -> (r: Option<Attribute>)
    requires
        start <= stop <= b@.len(),
        stop - start <= 0xffff_ffff,
        pool_names(pool_model(pool@), name, code_name()),
    ensures
        r matches Some(a) ==> a@ is Code && attr_encodable(a@) && attr_named(pool_model(pool@), a@)
            && attr_name_index(a@) == name && attr_body(a@) == b@.subrange(start as int, stop as int),
        forall|m: AttributeModel| #[trigger]
            code_fits(pool_model(pool@), b@, start as int, stop as int, name, m) ==> (r matches Some(a)
                && a@ == m),
    decreases stop - start, 0nat,
{
    let ghost pm = pool_model(pool@);
    let ghost window = b@.subrange(start as int, stop as int);
    proof {
        assert forall|m: AttributeModel| #[trigger] code_fits(pm, b@, start as int, stop as int, name, m) implies match m {
            AttributeModel::Code(_, ms, ml, code, ex, attrs) => {
                &&& at(b@, start as int, stop as int, be16(ms))
                &&& at(b@, start + 2, stop as int, be16(ml))
                &&& at(b@, start + 4, stop as int, code_bytes(code))
                &&& joined(code).len() <= 0xffff_ffff
                &&& ex.len() == 0
                &&& at(b@, start + 4 + code_bytes(code).len(), stop as int, be16(ex.len() as u16))
                &&& attrs_fit(pm, b@, start + 6 + code_bytes(code).len(), stop as int, attrs)
                &&& window.len() == 6 + code_bytes(code).len() + (be16(attrs.len() as u16) + attrs_bytes(
                    attrs,
                    attrs.len(),
                )).len()
            },
            _ => false,
        } by {
            lemma_code_body_at(b@, start as int, stop as int, m);
        }
    }
    let (max_stack, q1) = match read_u16(b, start, stop) {
        Some(v) => v,
        None => return None,
    };
    let (max_locals, q2) = match read_u16(b, q1, stop) {
        Some(v) => v,
        None => return None,
    };
    let (code, q3) = match decode_code(b, q2, stop) {
        Some(v) => v,
        None => return None,
    };
    let (exceptions, q4) = match read_u16(b, q3, stop) {
        Some(v) => v,
        None => return None,
    };
    if exceptions != 0 {
        proof {
            assert forall|m: AttributeModel| #[trigger] code_fits(pm, b@, start as int, stop as int, name, m) implies false by {
                if let AttributeModel::Code(_, ms, ml, c, ex, at_) = m {
                    assert(code@ == c);
                    assert(q3 == start + 4 + code_bytes(c).len());
                    assert(be16(ex.len() as u16) =~= be16(0));
                    assert(at(b@, q3 as int, stop as int, be16(0u16)));
                }
            }
        }
        return None;
    }
    let (attrs, q5) = match decode_attributes(pool, b, q4, stop) {
        Some(v) => v,
        None => return None,
    };
    if q5 != stop {
        proof {
            assert forall|m: AttributeModel| #[trigger] code_fits(pm, b@, start as int, stop as int, name, m) implies false by {
                if let AttributeModel::Code(_, ms, ml, c, ex, at_) = m {
                    assert(code@ == c);
                    assert(q4 == start + 6 + code_bytes(c).len());
                    assert(attrs_fit(pm, b@, q4 as int, stop as int, at_));
                    assert(attributes_model(attrs@, attrs@.len()) == at_);
                    lemma_attrs_view(attrs@);
                    assert(attrs@.len() == at_.len());
                    assert(window.len() == stop - start);
                }
            }
        }
        return None;
    }
    let a = Attribute::Code(name, max_stack, max_locals, code, Vec::new(), attrs);
    proof {
        let am = a@;
        lemma_attrs_view(attrs@);
        let tail = be16(attrs@.len() as u16) + attrs_bytes(attributes_model(attrs@, attrs@.len()), attrs@.len());
        lemma_at_concat(b@, start as int, stop as int, be16(max_stack), be16(max_locals));
        lemma_at_concat(b@, start as int, stop as int, be16(max_stack) + be16(max_locals), code_bytes(code@));
        lemma_at_concat(b@, start as int, stop as int, be16(max_stack) + be16(max_locals) + code_bytes(code@), be16(0));
        lemma_at_concat(
            b@,
            start as int,
            stop as int,
            be16(max_stack) + be16(max_locals) + code_bytes(code@) + be16(0),
            tail,
        );
        assert(attr_body(am) =~= be16(max_stack) + be16(max_locals) + code_bytes(code@) + be16(0) + tail);
        assert(b@.subrange(start as int, stop as int) == attr_body(am));
        assert forall|m: AttributeModel| #[trigger] code_fits(pm, b@, start as int, stop as int, name, m) implies am == m by {
            if let AttributeModel::Code(_, ms, ml, c, ex, at_) = m {
                assert(ex =~= Seq::<crate::classfile::ExceptionTableEntry>::empty());
            }
        }
    }
    Some(a)
}

/// The body of an attribute of the given name and kind, filling `start..stop`.
fn decode_attribute_body(pool: &Vec<Constant>, b: &Vec<u8>, start: usize, stop: usize, name: u16, kind: u8) -> (r:
    Option<Attribute>)
    requires
        start <= stop <= b@.len(),
        stop - start <= 0xffff_ffff,
        kind < 4,
        pool_names(pool_model(pool@), name, kind_index_name(kind)),
    ensures
        r matches Some(a) ==> attr_encodable(a@) && attr_named(pool_model(pool@), a@)
            && attr_name_index(a@) == name && attr_body(a@) == b@.subrange(start as int, stop as int),
        forall|m: AttributeModel| attr_encodable(m) && attr_named(pool_model(pool@), m)
            && attr_name_index(m) == name && attr_kind_name(m) == kind_index_name(kind) && attr_body(m)
            == b@.subrange(start as int, stop as int) ==> (r matches Some(a) && a@ == m),
    decreases stop - start, 1nat,
{
    let ghost pm = pool_model(pool@);
    let ghost window = b@.subrange(start as int, stop as int);
    proof {
        assert forall|m: AttributeModel| attr_body(m) == window implies at(b@, start as int, stop as int, attr_body(m)) by {}
    }
    if kind == 0 {
        proof {
            assert forall|m: AttributeModel| attr_encodable(m) && attr_named(pm, m) && attr_name_index(m) == name
                && attr_kind_name(m) == kind_index_name(kind) && attr_body(m) == window implies code_fits(
                pm,
                b@,
                start as int,
                stop as int,
                name,
                m,
            ) by {}
        }
        decode_code_body(pool, b, start, stop, name)
    } else if kind == 1 {
        match decode_line_numbers(b, start, stop) {
            Some((entries, p)) => {
                if p != stop {
                    return None;
                }
                Some(Attribute::LineNumberTable(name, entries))
            },
            None => None,
        }
    } else if kind == 2 {
        match read_u16(b, start, stop) {
            Some((index, p)) => {
                if p != stop {
                    return None;
                }
                Some(Attribute::SourceFile(name, index))
            },
            None => None,
        }
    } else {
        match decode_frames(b, start, stop) {
            Some((frames, p)) => {
                if p != stop {
                    return None;
                }
                let a = Attribute::StackMapTable(name, frames);
                proof {
                    let fm = frames@.map_values(|f: StackMapFrame| f@);
                    assert forall|i: int| 0 <= i < fm.len() implies frame_wf(#[trigger] fm[i]) by {
                        assert(fm[i] == frames@[i]@);
                    }
                }
                Some(a)
            },
            None => None,
        }
    }
}

/// An attribute: its name index, its body's length, its body.
fn decode_attribute(pool: &Vec<Constant>, b: &Vec<u8>, pos: usize, end: usize) -> (r: Option<(Attribute, usize)>)
    requires
        pos <= end <= b@.len(),
    ensures
        r matches Some((a, p)) ==> attr_encodable(a@) && attr_named(pool_model(pool@), a@) && p == pos
            + attr_bytes(a@).len() && at(b@, pos as int, end as int, attr_bytes(a@)),
        forall|m: AttributeModel| attr_encodable(m) && attr_named(pool_model(pool@), m) && at(
            b@,
            pos as int,
            end as int,
            attr_bytes(m),
        ) ==> (r matches Some((a, p)) && a@ == m),
    decreases end - pos, 2nat,
{
    let ghost pm = pool_model(pool@);
    proof {
        assert forall|m: AttributeModel| attr_encodable(m) && at(b@, pos as int, end as int, attr_bytes(m)) implies at(
            b@,
            pos as int,
            end as int,
            be16(attr_name_index(m)),
        ) && at(b@, pos + 2, end as int, be32(attr_body(m).len() as u32)) && at(
            b@,
            pos + 6,
            pos + 6 + attr_body(m).len(),
            attr_body(m),
        ) by {
            lemma_attribute_at(b@, pos as int, end as int, m);
        }
    }
    let (name, p1) = match read_u16(b, pos, end) {
        Some(v) => v,
        None => return None,
    };
    let (len, start) = match read_u32(b, p1, end) {
        Some(v) => v,
        None => return None,
    };
    if end - start < len as usize {
        return None;
    }
    let stop = start + len as usize;
    let kind = attribute_kind(pool, name);
    if kind == 4 {
        proof {
            assert forall|m: AttributeModel| attr_encodable(m) && attr_named(pm, m) && at(b@, pos as int, end as int, attr_bytes(m)) implies false by {
                let j: u8 = if m is Code { 0 } else if m is LineNumberTable { 1 } else if m is SourceFile { 2 } else { 3 };
                assert(kind_index_name(j) == attr_kind_name(m));
            }
        }
        return None;
    }
    proof {
        assert forall|m: AttributeModel| attr_encodable(m) && attr_named(pm, m) && at(b@, pos as int, end as int, attr_bytes(m)) implies attr_kind_name(m)
            == kind_index_name(kind) && attr_name_index(m) == name && attr_body(m) == b@.subrange(start as int, stop as int) by {
            assert(pool_names(pm, name, attr_kind_name(m)));
        }
    }
    match decode_attribute_body(pool, b, start, stop, name, kind) {
        None => None,
        Some(a) => {
            proof {
                let am = a@;
                lemma_at_concat(b@, pos as int, end as int, be16(name), be32(len));
                assert(b@.subrange(start as int, stop as int).len() == len);
                assert(at(b@, start as int, end as int, attr_body(am)));
                lemma_at_concat(b@, pos as int, end as int, be16(name) + be32(len), attr_body(am));
                assert(attr_bytes(am) == be16(name) + be32(len) + attr_body(am));
            }
            Some((a, stop))
        },
    }
}

/// `s` is a list of attributes that the format can hold, named in `pm`, whose
/// count-prefixed encoding occurs at `pos`.
pub open spec fn attrs_fit(pm: Seq<ConstantModel>, b: Seq<u8>, pos: int, end: int, s: Seq<AttributeModel>) -> bool {
    &&& s.len() <= 0xffff
    &&& attrs_encodable(s, s.len())
    &&& attrs_named(pm, s, s.len())
    &&& at(b, pos, end, be16(s.len() as u16) + attrs_bytes(s, s.len()))
}

/// A two-byte count, then that many attributes.
#[verifier::rlimit(100)]
#[verifier::spinoff_prover]
fn decode_attributes(pool: &Vec<Constant>, b: &Vec<u8>, pos: usize, end: usize) -> (r: Option<(Vec<Attribute>, usize)>)
    requires
        pos <= end <= b@.len(),
    ensures
        r matches Some((v, p)) ==> v@.len() <= 0xffff && attrs_encodable(attributes_model(v@, v@.len()), v@.len())
            && attrs_named(pool_model(pool@), attributes_model(v@, v@.len()), v@.len()) && p == pos
            + (be16(v@.len() as u16) + attrs_bytes(attributes_model(v@, v@.len()), v@.len())).len() && at(
            b@,
            pos as int,
            end as int,
            be16(v@.len() as u16) + attrs_bytes(attributes_model(v@, v@.len()), v@.len()),
        ),
        forall|s: Seq<AttributeModel>| #[trigger]
            attrs_fit(pool_model(pool@), b@, pos as int, end as int, s) ==> (r matches Some((v, p))
                && attributes_model(v@, v@.len()) == s),
    decreases end - pos, 3nat,
{
    let ghost pm = pool_model(pool@);
    proof {
        assert forall|s: Seq<AttributeModel>| s.len() <= 0xffff && at(
            b@,
            pos as int,
            end as int,
            be16(s.len() as u16) + attrs_bytes(s, s.len()),
        ) implies at(b@, pos as int, end as int, be16(s.len() as u16)) && at(b@, pos + 2, end as int, joined(s)) by {
            lemma_attrs_bytes_joined(s, s.len());
            assert(s.take(s.len() as int) =~= s);
            lemma_at_concat(b@, pos as int, end as int, be16(s.len() as u16), attrs_bytes(s, s.len()));
        }
        assert forall|s: Seq<AttributeModel>| attrs_encodable(s, s.len()) && attrs_named(pm, s, s.len()) implies forall|j: int|
            0 <= j < s.len() ==> attr_encodable(#[trigger] s[j]) && attr_named(pm, s[j]) by {
            lemma_attrs_encodable(s, s.len());
            lemma_attrs_named(pm, s, s.len());
        }
    }
    let (count, start) = match read_u16(b, pos, end) {
        Some(v) => v,
        None => return None,
    };
    let n = count as usize;
    let mut out: Vec<Attribute> = Vec::new();
    let mut cur = start;
    let mut i: usize = 0;
    proof {
        assert(b@.subrange(start as int, start as int) =~= Seq::<u8>::empty());
        assert(attributes_model(out@, 0) =~= Seq::<AttributeModel>::empty());
    }
    while i < n
        invariant
            start <= cur <= end <= b@.len(),
            start == pos + 2,
            n == count,
            i <= n,
            out@.len() == i,
            pm == pool_model(pool@),
            forall|j: int| 0 <= j < i ==> attr_encodable(#[trigger] out@[j]@) && attr_named(pm, out@[j]@),
            joined(attributes_model(out@, out@.len())) == b@.subrange(start as int, cur as int),
            forall|s: Seq<AttributeModel>| #[trigger] attrs_fit(pm, b@, pos as int, end as int, s) ==> s.len() == n && at(
                b@,
                start as int,
                end as int,
                joined(s),
            ) && attributes_model(out@, out@.len()) == s.take(i as int),
        decreases n - i,
    {
        let ghost models = attributes_model(out@, out@.len());
        proof {
            assert forall|s: Seq<AttributeModel>| #[trigger] attrs_fit(pm, b@, pos as int, end as int, s) implies at(
                b@,
                cur as int,
                end as int,
                attr_bytes(s[i as int]),
            ) && attr_encodable(s[i as int]) && attr_named(pm, s[i as int]) by {
                lemma_attrs_encodable(s, s.len());
                lemma_attrs_named(pm, s, s.len());
                lemma_next_item(b@, start as int, cur as int, end as int, s, i as int);
            }
        }
        match decode_attribute(pool, b, cur, end) {
            None => return None,
            Some((a, p)) => {
                proof {
                    lemma_read_item(b@, start as int, cur as int, end as int, models, a@);
                    lemma_attributes_model_push(out@, a);
                    assert forall|s: Seq<AttributeModel>| #[trigger] attrs_fit(pm, b@, pos as int, end as int, s) implies models.push(
                        a@,
                    ) == s.take(i + 1) by {
                        assert(s.take(i + 1) =~= s.take(i as int).push(s[i as int]));
                    }
                }
                out.push(a);
                cur = p;
                i = i + 1;
            },
        }
    }
    proof {
        let models = attributes_model(out@, out@.len());
        lemma_attrs_view(out@);
        assert forall|j: int| 0 <= j < models.len() implies attr_encodable(#[trigger] models[j]) && attr_named(pm, models[j]) by {
            assert(models[j] == out@[j]@);
        }
        lemma_attrs_encodable(models, n as nat);
        lemma_attrs_named(pm, models, n as nat);
        lemma_attrs_bytes_joined(models, n as nat);
        assert(models.take(n as int) =~= models);
        lemma_at_concat(b@, pos as int, end as int, be16(count), joined(models));
        assert forall|s: Seq<AttributeModel>| #[trigger] attrs_fit(pm, b@, pos as int, end as int, s) implies models == s by {
            assert(s.take(n as int) =~= s);
        }
    }
    Some((out, cur))
}

// ---------------------------------------------------------------------------
// Methods and the classfile
/// A method that the format can hold, whose attributes are named in `pm` and
/// whose encoding occurs at `pos`.
pub open spec fn method_fits(pm: Seq<ConstantModel>, b: Seq<u8>, pos: int, end: int, m: MethodModel) -> bool {
    &&& method_encodable(m)
    &&& attrs_named(pm, m.attributes, m.attributes.len())
    &&& at(b, pos, end, m.bytes())
}

fn decode_method(pool: &Vec<Constant>, b: &Vec<u8>, pos: usize, end: usize) -> (r: Option<(Method, usize)>)
    requires
        pos <= end <= b@.len(),
    ensures
        r matches Some((m, p)) ==> p == pos + m@.bytes().len() && method_fits(pool_model(pool@), b@, pos as int, end as int, m@),
        forall|mm: MethodModel| #[trigger] method_fits(pool_model(pool@), b@, pos as int, end as int, mm) ==> (r matches Some(
            (m, p),
        ) && m@ == mm),
{
    let ghost pm = pool_model(pool@);
    proof {
        assert forall|mm: MethodModel| #[trigger] method_fits(pm, b@, pos as int, end as int, mm) implies at(
            b@,
            pos as int,
            end as int,
            be16(mm.access_flags),
        ) && at(b@, pos + 2, end as int, be16(mm.name_index)) && at(b@, pos + 4, end as int, be16(mm.descriptor_index))
            && attrs_fit(pm, b@, pos + 6, end as int, mm.attributes) by {
            let e1 = be16(mm.access_flags);
            let e2 = be16(mm.name_index);
            let e3 = be16(mm.descriptor_index);
            let tail = be16(mm.attributes.len() as u16) + attrs_bytes(mm.attributes, mm.attributes.len());
            assert(mm.bytes() =~= e1 + e2 + e3 + tail);
            lemma_at_concat(b@, pos as int, end as int, e1 + e2 + e3, tail);
            lemma_at_concat(b@, pos as int, end as int, e1 + e2, e3);
            lemma_at_concat(b@, pos as int, end as int, e1, e2);
        }
    }
    let (access_flags, p1) = match read_u16(b, pos, end) {
        Some(v) => v,
        None => return None,
    };
    let (name_index, p2) = match read_u16(b, p1, end) {
        Some(v) => v,
        None => return None,
    };
    let (descriptor_index, p3) = match read_u16(b, p2, end) {
        Some(v) => v,
        None => return None,
    };
    let (attributes, p) = match decode_attributes(pool, b, p3, end) {
        Some(v) => v,
        None => return None,
    };
    let m = Method { access_flags, name_index, descriptor_index, attributes };
    proof {
        let mm = m@;
        lemma_attrs_view(attributes@);
        let e1 = be16(access_flags);
        let e2 = be16(name_index);
        let e3 = be16(descriptor_index);
        let tail = be16(mm.attributes.len() as u16) + attrs_bytes(mm.attributes, mm.attributes.len());
        assert(mm.bytes() =~= e1 + e2 + e3 + tail);
        lemma_at_concat(b@, pos as int, end as int, e1, e2);
        lemma_at_concat(b@, pos as int, end as int, e1 + e2, e3);
        lemma_at_concat(b@, pos as int, end as int, e1 + e2 + e3, tail);
    }
    Some((m, p))
}

/// A two-byte count, then that many methods.
#[verifier::rlimit(60)]
fn decode_methods(pool: &Vec<Constant>, b: &Vec<u8>, pos: usize, end: usize) -> (r: Option<(Vec<Method>, usize)>)
    requires
        pos <= end <= b@.len(),
    ensures
        r matches Some((v, p)) ==> v@.len() <= 0xffff && (forall|i: int| 0 <= i < v@.len() ==> method_encodable(
            #[trigger] v@[i]@,
        ) && attrs_named(pool_model(pool@), v@[i]@.attributes, v@[i]@.attributes.len())) && p == pos + counted(
            v@.map_values(|m: Method| m@),
        ).len() && at(b@, pos as int, end as int, counted(v@.map_values(|m: Method| m@))),
        forall|s: Seq<MethodModel>| #[trigger] methods_fit(pool_model(pool@), b@, pos as int, end as int, s) ==> (
        r matches Some((v, p)) && v@.map_values(|m: Method| m@) == s),
{
    let ghost pm = pool_model(pool@);
    proof {
        assert forall|s: Seq<MethodModel>| #[trigger] methods_fit(pm, b@, pos as int, end as int, s) implies at(
            b@,
            pos as int,
            end as int,
            be16(s.len() as u16),
        ) && at(b@, pos + 2, end as int, joined(s)) by {
            lemma_at_concat(b@, pos as int, end as int, be16(s.len() as u16), joined(s));
        }
    }
    let (count, start) = match read_u16(b, pos, end) {
        Some(v) => v,
        None => return None,
    };
    let n = count as usize;
    let mut out: Vec<Method> = Vec::new();
    let mut cur = start;
    let mut i: usize = 0;
    proof {
        assert(b@.subrange(start as int, start as int) =~= Seq::<u8>::empty());
        assert(out@.map_values(|m: Method| m@) =~= Seq::<MethodModel>::empty());
    }
    while i < n
        invariant
            start <= cur <= end <= b@.len(),
            start == pos + 2,
            n == count,
            i <= n,
            out@.len() == i,
            pm == pool_model(pool@),
            forall|j: int| 0 <= j < i ==> method_encodable(#[trigger] out@[j]@) && attrs_named(
                pm,
                out@[j]@.attributes,
                out@[j]@.attributes.len(),
            ),
            joined(out@.map_values(|m: Method| m@)) == b@.subrange(start as int, cur as int),
            forall|s: Seq<MethodModel>| #[trigger] methods_fit(pm, b@, pos as int, end as int, s) ==> s.len() == n && at(
                b@,
                start as int,
                end as int,
                joined(s),
            ) && out@.map_values(|m: Method| m@) == s.take(i as int),
        decreases n - i,
    {
        let ghost models = out@.map_values(|m: Method| m@);
        proof {
            assert forall|s: Seq<MethodModel>| #[trigger] methods_fit(pm, b@, pos as int, end as int, s) implies method_fits(
                pm,
                b@,
                cur as int,
                end as int,
                s[i as int],
            ) by {
                lemma_next_item(b@, start as int, cur as int, end as int, s, i as int);
            }
        }
        match decode_method(pool, b, cur, end) {
            None => return None,
            Some((m, p)) => {
                proof {
                    lemma_read_item(b@, start as int, cur as int, end as int, models, m@);
                    assert(out@.push(m).map_values(|m: Method| m@) =~= models.push(m@));
                    assert forall|s: Seq<MethodModel>| #[trigger] methods_fit(pm, b@, pos as int, end as int, s) implies models.push(
                        m@,
                    ) == s.take(i + 1) by {
                        assert(method_fits(pm, b@, cur as int, end as int, s[i as int]));
                        assert(s.take(i + 1) =~= s.take(i as int).push(s[i as int]));
                    }
                }
                out.push(m);
                cur = p;
                i = i + 1;
            },
        }
    }
    proof {
        let models = out@.map_values(|m: Method| m@);
        assert(models.len() == n);
        lemma_at_concat(b@, pos as int, end as int, be16(count), joined(models));
        assert forall|s: Seq<MethodModel>| #[trigger] methods_fit(pm, b@, pos as int, end as int, s) implies models == s by {
            assert(s.take(n as int) =~= s);
        }
    }
    Some((out, cur))
}

/// Methods that the format can hold, named in `pm`, whose count-prefixed
/// encoding occurs at `pos`.
pub open spec fn methods_fit(pm: Seq<ConstantModel>, b: Seq<u8>, pos: int, end: int, s: Seq<MethodModel>) -> bool {
    &&& s.len() <= 0xffff
    &&& forall|i: int| 0 <= i < s.len() ==> method_encodable(#[trigger] s[i]) && attrs_named(
        pm,
        s[i].attributes,
        s[i].attributes.len(),
    )
    &&& at(b, pos, end, counted(s))
}

/// Why bytes could not be decoded: they do not start with the encoding of a
/// well-formed classfile (an unknown tag, opcode, frame type or attribute
/// name, a count or length that overruns its input, or text that is not
/// UTF-8).
#[derive(Clone, Copy, Debug, PartialEq, Eq, Structural)]
pub enum DecodeError {
    Malformed,
}

/// `bytes` start with the encoding of the well-formed classfile `m`.
pub open spec fn decodes_to(bytes: Seq<u8>, m: ClassfileModel) -> bool {
    m.wf() && at(bytes, 0, bytes.len() as int, m.bytes())
}

/// The header and the pool of a classfile.
pub open spec fn front_bytes(m: ClassfileModel) -> Seq<u8> {
    be32(m.magic) + be16(m.minor_version) + be16(m.major_version) + be16((m.constant_pool.len() + 1) as u16)
        + joined(m.constant_pool)
}

/// What follows the pool in a classfile.
pub open spec fn back_bytes(m: ClassfileModel) -> Seq<u8> {
    be16(m.access_flags) + be16(m.this_class) + be16(m.super_class) + be16(m.interfaces.len() as u16) + be16(
        m.fields.len() as u16,
    ) + counted(m.methods) + (be16(m.attributes.len() as u16) + attrs_bytes(m.attributes, m.attributes.len()))
}

proof fn lemma_classfile_split(b: Seq<u8>, m: ClassfileModel)
    ensures
        m.bytes() == front_bytes(m) + back_bytes(m),
        front_bytes(m).len() == 10 + joined(m.constant_pool).len(),
        at(b, 0, b.len() as int, m.bytes()) <==> (at(b, 0, b.len() as int, front_bytes(m)) && at(
            b,
            front_bytes(m).len() as int,
            b.len() as int,
            back_bytes(m),
        )),
{
    assert(m.bytes() =~= front_bytes(m) + back_bytes(m));
    lemma_at_concat(b, 0, b.len() as int, front_bytes(m), back_bytes(m));
}

proof fn lemma_front_at(b: Seq<u8>, end: int, m: ClassfileModel)
    ensures
        at(b, 0, end, front_bytes(m)) <==> ({
            &&& at(b, 0, end, be32(m.magic))
            &&& at(b, 4, end, be16(m.minor_version))
            &&& at(b, 6, end, be16(m.major_version))
            &&& at(b, 8, end, be16((m.constant_pool.len() + 1) as u16))
            &&& at(b, 10, end, joined(m.constant_pool))
        }),
{
    let e0 = be32(m.magic);
    let e1 = be16(m.minor_version);
    let e2 = be16(m.major_version);
    let e3 = be16((m.constant_pool.len() + 1) as u16);
    let e4 = joined(m.constant_pool);
    lemma_at_concat(b, 0, end, e0 + e1 + e2 + e3, e4);
    lemma_at_concat(b, 0, end, e0 + e1 + e2, e3);
    lemma_at_concat(b, 0, end, e0 + e1, e2);
    lemma_at_concat(b, 0, end, e0, e1);
}

proof fn lemma_back_at(b: Seq<u8>, pos: int, end: int, m: ClassfileModel)
    ensures
        at(b, pos, end, back_bytes(m)) <==> ({
            let k = counted(m.methods).len() as int;
            &&& at(b, pos, end, be16(m.access_flags))
            &&& at(b, pos + 2, end, be16(m.this_class))
            &&& at(b, pos + 4, end, be16(m.super_class))
            &&& at(b, pos + 6, end, be16(m.interfaces.len() as u16))
            &&& at(b, pos + 8, end, be16(m.fields.len() as u16))
            &&& at(b, pos + 10, end, counted(m.methods))
            &&& at(b, pos + 10 + k, end, be16(m.attributes.len() as u16) + attrs_bytes(m.attributes, m.attributes.len()))
        }),
{
    let e5 = be16(m.access_flags);
    let e6 = be16(m.this_class);
    let e7 = be16(m.super_class);
    let e8 = be16(m.interfaces.len() as u16);
    let e9 = be16(m.fields.len() as u16);
    let e10 = counted(m.methods);
    let e11 = be16(m.attributes.len() as u16) + attrs_bytes(m.attributes, m.attributes.len());
    lemma_at_concat(b, pos, end, e5 + e6 + e7 + e8 + e9 + e10, e11);
    lemma_at_concat(b, pos, end, e5 + e6 + e7 + e8 + e9, e10);
    lemma_at_concat(b, pos, end, e5 + e6 + e7 + e8, e9);
    lemma_at_concat(b, pos, end, e5 + e6 + e7, e8);
    lemma_at_concat(b, pos, end, e5 + e6, e7);
    lemma_at_concat(b, pos, end, e5, e6);
}

/// The header and the pool.
#[verifier::rlimit(60)]
fn decode_front(b: &Vec<u8>) -> (r: Option<(u32, u16, u16, Vec<Constant>, usize)>)
    ensures
        r matches Some((magic, minor, major, pool, p)) ==> {
            let m = ClassfileModel {
                magic,
                minor_version: minor,
                major_version: major,
                constant_pool: pool_model(pool@),
                ..blank_classfile()
            };
            &&& pool@.len() < 0xffff
            &&& forall|i: int| 0 <= i < pool@.len() ==> constant_wf(#[trigger] pool@[i]@)
            &&& at(b@, 0, b@.len() as int, front_bytes(m))
            &&& p == front_bytes(m).len()
        },
        forall|m: ClassfileModel| #[trigger] decodes_to(b@, m) ==> (r matches Some((magic, minor, major, pool, p))
            && magic == m.magic && minor == m.minor_version && major == m.major_version && pool_model(pool@)
            == m.constant_pool),
{
    let end = b.len();
    proof {
        assert forall|m: ClassfileModel| #[trigger] decodes_to(b@, m) implies at(b@, 0, end as int, front_bytes(m)) by {
            lemma_classfile_split(b@, m);
        }
        assert forall|m: ClassfileModel| at(b@, 0, end as int, #[trigger] front_bytes(m)) implies {
            &&& at(b@, 0, end as int, be32(m.magic))
            &&& at(b@, 4, end as int, be16(m.minor_version))
            &&& at(b@, 6, end as int, be16(m.major_version))
            &&& at(b@, 8, end as int, be16((m.constant_pool.len() + 1) as u16))
            &&& at(b@, 10, end as int, joined(m.constant_pool))
        } by {
            lemma_front_at(b@, end as int, m);
        }
    }
    let (magic, p0) = match read_u32(b, 0, end) {
        Some(v) => v,
        None => return None,
    };
    let (minor, p1) = match read_u16(b, p0, end) {
        Some(v) => v,
        None => return None,
    };
    let (major, p2) = match read_u16(b, p1, end) {
        Some(v) => v,
        None => return None,
    };
    let (count, p3) = match read_u16(b, p2, end) {
        Some(v) => v,
        None => return None,
    };
    if count == 0 {
        return None;
    }
    let (pool, p4) = match decode_pool(b, p3, end, (count - 1) as usize) {
        Some(v) => v,
        None => return None,
    };
    proof {
        let m = ClassfileModel {
            magic,
            minor_version: minor,
            major_version: major,
            constant_pool: pool_model(pool@),
            ..blank_classfile()
        };
        assert(be16((m.constant_pool.len() + 1) as u16) == be16(count));
        lemma_front_at(b@, end as int, m);
        assert forall|mm: ClassfileModel| #[trigger] decodes_to(b@, mm) implies pool_model(pool@) == mm.constant_pool by {
            lemma_be16_injective((mm.constant_pool.len() + 1) as u16, count);
        }
    }
    Some((magic, minor, major, pool, p4))
}

/// A classfile model with every field zero or empty.
pub open spec fn blank_classfile() -> ClassfileModel {
    ClassfileModel {
        magic: 0,
        minor_version: 0,
        major_version: 0,
        constant_pool: Seq::empty(),
        access_flags: 0,
        this_class: 0,
        super_class: 0,
        interfaces: Seq::empty(),
        fields: Seq::empty(),
        methods: Seq::empty(),
        attributes: Seq::empty(),
    }
}

impl Classfile {
    /// Decodes a classfile from the start of `bytes`; bytes after it are not
    /// read. Succeeds exactly when `bytes` start with the encoding of a
    /// well-formed classfile, and then returns that classfile.
    #[verifier::rlimit(100)]
    #[verifier::spinoff_prover]
    pub fn deserialize(bytes: &Vec<u8>) -> (r: Result<Classfile, DecodeError>)
        ensures
            r matches Ok(c) ==> decodes_to(bytes@, c@),
            forall|m: ClassfileModel| #[trigger] decodes_to(bytes@, m) ==> (r matches Ok(c) && c@ == m),
    {
        let b = bytes;
        let end = b.len();
        let (magic, minor_version, major_version, constant_pool, pos) = match decode_front(b) {
            Some(v) => v,
            None => return Err(DecodeError::Malformed),
        };
        let ghost pm = pool_model(constant_pool@);
        proof {
            assert forall|m: ClassfileModel| #[trigger] decodes_to(b@, m) implies ({
                let k = counted(m.methods).len() as int;
                &&& at(b@, pos as int, end as int, be16(m.access_flags))
                &&& at(b@, pos + 2, end as int, be16(m.this_class))
                &&& at(b@, pos + 4, end as int, be16(m.super_class))
                &&& at(b@, pos + 6, end as int, be16(0))
                &&& at(b@, pos + 8, end as int, be16(0))
                &&& methods_fit(pm, b@, pos + 10, end as int, m.methods)
                &&& attrs_fit(pm, b@, pos + 10 + k, end as int, m.attributes)
            }) by {
                lemma_classfile_split(b@, m);
                lemma_back_at(b@, pos as int, end as int, m);
            }
        }
        let (access_flags, p5) = match read_u16(b, pos, end) {
            Some(v) => v,
            None => return Err(DecodeError::Malformed),
        };
        let (this_class, p6) = match read_u16(b, p5, end) {
            Some(v) => v,
            None => return Err(DecodeError::Malformed),
        };
        let (super_class, p7) = match read_u16(b, p6, end) {
            Some(v) => v,
            None => return Err(DecodeError::Malformed),
        };
        let (interface_count, p8) = match read_u16(b, p7, end) {
            Some(v) => v,
            None => return Err(DecodeError::Malformed),
        };
        if interface_count != 0 {
            return Err(DecodeError::Malformed);
        }
        let (field_count, p9) = match read_u16(b, p8, end) {
            Some(v) => v,
            None => return Err(DecodeError::Malformed),
        };
        if field_count != 0 {
            return Err(DecodeError::Malformed);
        }
        let (methods, p10) = match decode_methods(&constant_pool, b, p9, end) {
            Some(v) => v,
            None => return Err(DecodeError::Malformed),
        };
        let (attributes, p11) = match decode_attributes(&constant_pool, b, p10, end) {
            Some(v) => v,
            None => return Err(DecodeError::Malformed),
        };
        let c = Classfile {
            magic,
            minor_version,
            major_version,
            constant_pool,
            access_flags,
            this_class,
            super_class,
            interfaces: Vec::new(),
            fields: Vec::new(),
            methods,
            attributes,
        };
        proof {
            let cm = c@;
            lemma_attrs_view(c.attributes@);
            assert forall|i: int| 0 <= i < cm.methods.len() implies method_encodable(#[trigger] cm.methods[i]) by {
                assert(cm.methods[i] == c.methods@[i]@);
            }
            assert forall|i: int| 0 <= i < cm.constant_pool.len() implies constant_wf(#[trigger] cm.constant_pool[i]) by {
                assert(cm.constant_pool[i] == c.constant_pool@[i]@);
            }
            assert forall|i: int| 0 <= i < cm.methods.len() implies attrs_named(
                cm.constant_pool,
                #[trigger] cm.methods[i].attributes,
                cm.methods[i].attributes.len(),
            ) by {
                assert(cm.methods[i] == c.methods@[i]@);
            }
            assert(cm.wf());
            lemma_back_at(b@, pos as int, end as int, cm);
            lemma_classfile_split(b@, cm);
            assert(front_bytes(cm) == front_bytes(ClassfileModel {
                magic,
                minor_version,
                major_version,
                constant_pool: pm,
                ..blank_classfile()
            }));
            assert forall|m: ClassfileModel| #[trigger] decodes_to(b@, m) implies cm == m by {
                assert(cm.interfaces =~= m.interfaces);
                assert(cm.fields =~= m.fields);
            }
        }
        Ok(c)
    }
}

} // verus!
