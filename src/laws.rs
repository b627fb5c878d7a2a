//! Laws that relate the assembler and the codec.
use crate::builder::{branch_offset, with_offset};
use crate::classfile::{ClassfileModel, Instruction};
use crate::deserialize::decodes_to;
use crate::encoding::{be16, instruction_size, Encoded};
use vstd::prelude::*;

verus! {

/// Round trip: the bytes of a well-formed classfile decode to it. Every
/// classfile a class builder produces is well formed (`ClassBuilder::done`),
/// `serialize` appends exactly `c.bytes()`, and `deserialize` returns `Ok` of
/// any classfile `m` with `decodes_to(input, m)`; so on the bytes of `c` it
/// returns a classfile whose model is `c`.
pub proof fn lemma_round_trip(c: ClassfileModel)
    requires
        c.wf(),
    ensures
        decodes_to(c.bytes(), c),
{
    assert(c.bytes().subrange(0, c.bytes().len() as int) =~= c.bytes());
}

/// The pool's count field, at bytes 8 and 9, holds one more than the number
/// of pool entries.
pub proof fn lemma_pool_count_field(c: ClassfileModel)
    requires
        c.encodable(),
    ensures
        c.bytes().subrange(8, 10) == be16((c.constant_pool.len() + 1) as u16),
        c.bytes()[8] as int * 256 + c.bytes()[9] as int == c.constant_pool.len() + 1,
{
    assert(c.bytes().subrange(8, 10) =~= be16((c.constant_pool.len() + 1) as u16));
    let n = (c.constant_pool.len() + 1) as u16;
    assert(n / 256 * 256 + n % 256 == n);
}

/// The two's-complement reading of a 16-bit offset.
pub open spec fn signed16(o: u16) -> int {
    if o < 0x8000 {
        o as int
    } else {
        o - 0x1_0000
    }
}

/// A branch at `pos` resolved against a label at `target` lands on the label:
/// its position plus its offset, modulo 2^16, is `target`; read as a signed
/// value the offset is `target - pos` (negative for a backward branch)
/// wherever that difference fits in 16 signed bits.
pub proof fn lemma_branch_offset(pos: u16, target: u16)
    ensures
        (pos + branch_offset(pos, target)) % 0x1_0000 == target,
        -0x8000 <= target - pos < 0x8000 ==> signed16(branch_offset(pos, target)) == target - pos,
{
}

/// Each instruction encodes to as many bytes as the assembler advances its
/// cursor by, whatever offset a branch is given.
pub proof fn lemma_instruction_size(i: Instruction, o: u16)
    ensures
        i.bytes().len() == instruction_size(i),
        with_offset(i, o).bytes().len() == instruction_size(i),
{
}

} // verus!
