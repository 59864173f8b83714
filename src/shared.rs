//! The instruction set shared by the assembler and the machine: every
//! operation, its opcode byte, the order of its operand bytes on the wire,
//! and the table the decoder reads those bytes back with.
use vstd::prelude::*;

verus! {

/// The bytes of memory, and so the largest program there is.
pub const MEMORY_SIZE: usize = 256;

/// An absolute memory address.
pub type CAddress = u8;

/// The index of a register whose value is used as a memory address.
pub type VAddress = u8;

/// The index of a register, in `0..=7` in any program the assembler emits.
pub type Register = u8;

/// An immediate byte.
pub type Numeral = u8;

/// The comparison carried by a conditional jump, over two register indices.
#[derive(Debug, Clone, Copy, PartialEq, Eq, Structural)]
pub enum Case {
    EQ(Register, Register),
    NEQ(Register, Register),
    LSR(Register, Register),
    GRT(Register, Register),
    LSREQ(Register, Register),
    GRTEQ(Register, Register),
}

impl Case {
    /// The discriminator byte of the comparison.
    pub open spec fn spec_opcode(&self) -> u8 {
        match *self {
            Case::EQ(_, _) => 0x00,
            Case::NEQ(_, _) => 0x01,
            Case::LSR(_, _) => 0x02,
            Case::GRT(_, _) => 0x03,
            Case::LSREQ(_, _) => 0x04,
            Case::GRTEQ(_, _) => 0x05,
        }
    }

    /// The two register indices the comparison reads, left then right.
    pub open spec fn operands(&self) -> (u8, u8) {
        match *self {
            Case::EQ(x, y) => (x, y),
            Case::NEQ(x, y) => (x, y),
            Case::LSR(x, y) => (x, y),
            Case::GRT(x, y) => (x, y),
            Case::LSREQ(x, y) => (x, y),
            Case::GRTEQ(x, y) => (x, y),
        }
    }

    #[verifier::when_used_as_spec(spec_opcode)]
    pub fn get_opcode(&self) -> (r: u8)
        ensures
            r == self.spec_opcode(),
    {
        match *self {
            Case::EQ(_, _) => 0x00,
            Case::NEQ(_, _) => 0x01,
            Case::LSR(_, _) => 0x02,
            Case::GRT(_, _) => 0x03,
            Case::LSREQ(_, _) => 0x04,
            Case::GRTEQ(_, _) => 0x05,
        }
    }
}

/// The comparison with discriminator `disc` over `x` and `y`, if `disc` names one.
pub open spec fn case_from(disc: u8, x: u8, y: u8) -> Option<Case> {
    if disc == 0x00 {
        Some(Case::EQ(x, y))
    } else if disc == 0x01 {
        Some(Case::NEQ(x, y))
    } else if disc == 0x02 {
        Some(Case::LSR(x, y))
    } else if disc == 0x03 {
        Some(Case::GRT(x, y))
    } else if disc == 0x04 {
        Some(Case::LSREQ(x, y))
    } else if disc == 0x05 {
        Some(Case::GRTEQ(x, y))
    } else {
        None
    }
}

/// One machine instruction. The letters after `MOV` give the destination
/// kind, then the source kind: `R` a register, `A` an absolute address,
/// `X` an address held in a register, `N` an immediate byte.
#[derive(Debug, Clone, Copy, PartialEq, Eq, Structural)]
pub enum Op {
    HALT,
    NOOP,
    MOVRN(Register, Numeral),
    MOVRR(Register, Register),
    MOVRA(Register, CAddress),
    MOVRX(Register, VAddress),
    MOVAN(CAddress, Numeral),
    MOVAR(CAddress, Register),
    MOVAA(CAddress, CAddress),
    MOVAX(CAddress, VAddress),
    MOVXN(VAddress, Numeral),
    MOVXR(VAddress, Register),
    MOVXA(VAddress, CAddress),
    MOVXX(VAddress, VAddress),
    ADDRN(Register, Numeral),
    ADDRR(Register, Register),
    SUBRN(Register, Numeral),
    SUBRR(Register, Register),
    MULRN(Register, Numeral),
    MULRR(Register, Register),
    DIVRN(Register, Numeral),
    DIVRR(Register, Register),
    ANDRR(Register, Register),
    ANDRN(Register, Numeral),
    XORRR(Register, Register),
    XORRN(Register, Numeral),
    ORRR(Register, Register),
    ORRN(Register, Numeral),
    SHR(Register),
    SHL(Register),
    PRINT(Register),
    JMP(CAddress),
    JMPIF(Case, CAddress),
}

impl Op {
    pub open spec fn spec_opcode(&self) -> u8 {
        match *self {
            Op::HALT => 0xFF,
            Op::NOOP => 0x00,
            Op::MOVRN(_, _) => 0x0E,
            Op::MOVRR(_, _) => 0x1E,
            Op::MOVRA(_, _) => 0xAE,
            Op::MOVRX(_, _) => 0xBE,
            Op::MOVAN(_, _) => 0xE1,
            Op::MOVAR(_, _) => 0xE2,
            Op::MOVAA(_, _) => 0xE3,
            Op::MOVAX(_, _) => 0xE4,
            Op::MOVXN(_, _) => 0xEA,
            Op::MOVXR(_, _) => 0xEB,
            Op::MOVXA(_, _) => 0xEC,
            Op::MOVXX(_, _) => 0xED,
            Op::ADDRN(_, _) => 0x0A,
            Op::ADDRR(_, _) => 0x1A,
            Op::SUBRN(_, _) => 0x0B,
            Op::SUBRR(_, _) => 0x1B,
            Op::MULRN(_, _) => 0x0C,
            Op::MULRR(_, _) => 0x1C,
            Op::DIVRN(_, _) => 0x0D,
            Op::DIVRR(_, _) => 0x1D,
            Op::ANDRR(_, _) => 0xC5,
            Op::ANDRN(_, _) => 0xC6,
            Op::XORRR(_, _) => 0xD5,
            Op::XORRN(_, _) => 0xD6,
            Op::ORRR(_, _) => 0xE5,
            Op::ORRN(_, _) => 0xE6,
            Op::SHR(_) => 0x2D,
            Op::SHL(_) => 0x3D,
            Op::PRINT(_) => 0xA0,
            Op::JMP(_) => 0x0F,
            Op::JMPIF(_, _) => 0x1F,
        }
    }

    /// The bytes that follow the opcode, in the order of the variant's fields;
    /// a comparison contributes its discriminator and its two registers.
    pub open spec fn operand_bytes(&self) -> Seq<u8> {
        match *self {
            Op::HALT => seq![],
            Op::NOOP => seq![],
            Op::MOVRN(a, b) => seq![a, b],
            Op::MOVRR(a, b) => seq![a, b],
            Op::MOVRA(a, b) => seq![a, b],
            Op::MOVRX(a, b) => seq![a, b],
            Op::MOVAN(a, b) => seq![a, b],
            Op::MOVAR(a, b) => seq![a, b],
            Op::MOVAA(a, b) => seq![a, b],
            Op::MOVAX(a, b) => seq![a, b],
            Op::MOVXN(a, b) => seq![a, b],
            Op::MOVXR(a, b) => seq![a, b],
            Op::MOVXA(a, b) => seq![a, b],
            Op::MOVXX(a, b) => seq![a, b],
            Op::ADDRN(a, b) => seq![a, b],
            Op::ADDRR(a, b) => seq![a, b],
            Op::SUBRN(a, b) => seq![a, b],
            Op::SUBRR(a, b) => seq![a, b],
            Op::MULRN(a, b) => seq![a, b],
            Op::MULRR(a, b) => seq![a, b],
            Op::DIVRN(a, b) => seq![a, b],
            Op::DIVRR(a, b) => seq![a, b],
            Op::ANDRR(a, b) => seq![a, b],
            Op::ANDRN(a, b) => seq![a, b],
            Op::XORRR(a, b) => seq![a, b],
            Op::XORRN(a, b) => seq![a, b],
            Op::ORRR(a, b) => seq![a, b],
            Op::ORRN(a, b) => seq![a, b],
            Op::SHR(a) => seq![a],
            Op::SHL(a) => seq![a],
            Op::PRINT(a) => seq![a],
            Op::JMP(a) => seq![a],
            Op::JMPIF(c, to) => seq![c.spec_opcode(), c.operands().0, c.operands().1, to],
        }
    }

    /// The serialized instruction: opcode, then operand bytes.
    pub open spec fn bytes(&self) -> Seq<u8> {
        seq![self.spec_opcode()] + self.operand_bytes()
    }

    /// The serialized size, taken from the serialization itself.
    pub open spec fn spec_size(&self) -> nat {
        self.bytes().len()
    }

    #[verifier::when_used_as_spec(spec_opcode)]
    pub fn get_opcode(&self) -> (r: u8)
        ensures
            r == self.spec_opcode(),
    {
        match *self {
            Op::HALT => 0xFF,
            Op::NOOP => 0x00,
            Op::MOVRN(_, _) => 0x0E,
            Op::MOVRR(_, _) => 0x1E,
            Op::MOVRA(_, _) => 0xAE,
            Op::MOVRX(_, _) => 0xBE,
            Op::MOVAN(_, _) => 0xE1,
            Op::MOVAR(_, _) => 0xE2,
            Op::MOVAA(_, _) => 0xE3,
            Op::MOVAX(_, _) => 0xE4,
            Op::MOVXN(_, _) => 0xEA,
            Op::MOVXR(_, _) => 0xEB,
            Op::MOVXA(_, _) => 0xEC,
            Op::MOVXX(_, _) => 0xED,
            Op::ADDRN(_, _) => 0x0A,
            Op::ADDRR(_, _) => 0x1A,
            Op::SUBRN(_, _) => 0x0B,
            Op::SUBRR(_, _) => 0x1B,
            Op::MULRN(_, _) => 0x0C,
            Op::MULRR(_, _) => 0x1C,
            Op::DIVRN(_, _) => 0x0D,
            Op::DIVRR(_, _) => 0x1D,
            Op::ANDRR(_, _) => 0xC5,
            Op::ANDRN(_, _) => 0xC6,
            Op::XORRR(_, _) => 0xD5,
            Op::XORRN(_, _) => 0xD6,
            Op::ORRR(_, _) => 0xE5,
            Op::ORRN(_, _) => 0xE6,
            Op::SHR(_) => 0x2D,
            Op::SHL(_) => 0x3D,
            Op::PRINT(_) => 0xA0,
            Op::JMP(_) => 0x0F,
            Op::JMPIF(_, _) => 0x1F,
        }
    }

    pub fn get_size(&self) -> (r: usize)
        ensures
            r == self.spec_size(),
            1 <= r <= 5,
    {
        match *self {
            Op::HALT | Op::NOOP => 1,
            Op::SHR(_) | Op::SHL(_) | Op::PRINT(_) | Op::JMP(_) => 2,
            Op::JMPIF(_, _) => 5,
            _ => 3,
        }
    }
}

/// The serialization of a sequence of operations, one after the other.
pub open spec fn encode(ops: Seq<Op>) -> Seq<u8>
    decreases ops.len(),
{
    if ops.len() == 0 {
        seq![]
    } else {
        encode(ops.drop_last()) + ops.last().bytes()
    }
}

/// The sum of the sizes of a sequence of operations.
pub open spec fn ops_size(ops: Seq<Op>) -> nat
    decreases ops.len(),
{
    if ops.len() == 0 {
        0
    } else {
        ops_size(ops.drop_last()) + ops.last().spec_size()
    }
}

/// The length of an encoding is the sum of the sizes of the operations encoded.
pub proof fn lemma_encode_len(ops: Seq<Op>)
    ensures
        encode(ops).len() == ops_size(ops),
    decreases ops.len(),
{
    if ops.len() > 0 {
        lemma_encode_len(ops.drop_last());
    }
}

/// An operation takes one to five bytes.
pub proof fn lemma_size_bounds(op: Op)
    ensures
        1 <= op.spec_size() <= 5,
{
}

/// Every operation takes at least one byte.
pub proof fn lemma_ops_size_bounds_len(ops: Seq<Op>)
    ensures
        ops.len() <= ops_size(ops),
    decreases ops.len(),
{
    if ops.len() > 0 {
        lemma_ops_size_bounds_len(ops.drop_last());
    }
}

/// Two sequences of operations whose sizes agree one by one have the same
/// total size over every prefix.
pub proof fn lemma_ops_size_same_sizes(a: Seq<Op>, b: Seq<Op>, n: int)
    requires
        a.len() == b.len(),
        0 <= n <= a.len(),
        forall|x: int| 0 <= x < a.len() ==> (#[trigger] a[x]).spec_size() == b[x].spec_size(),
    ensures
        ops_size(a.take(n)) == ops_size(b.take(n)),
    decreases n,
{
    if n > 0 {
        lemma_ops_size_same_sizes(a, b, n - 1);
        assert(a.take(n).drop_last() =~= a.take(n - 1));
        assert(b.take(n).drop_last() =~= b.take(n - 1));
    }
}

/// The encoding of a prefix of the operations is a prefix of the encoding.
pub proof fn lemma_encode_prefix(ops: Seq<Op>, n: int)
    requires
        0 <= n <= ops.len(),
    ensures
        encode(ops.take(n)).len() <= encode(ops).len(),
        encode(ops).take(encode(ops.take(n)).len() as int) == encode(ops.take(n)),
    decreases ops.len(),
{
    if n == ops.len() {
        assert(ops.take(n) =~= ops);
        assert(encode(ops).take(encode(ops).len() as int) =~= encode(ops));
    } else {
        lemma_encode_prefix(ops.drop_last(), n);
        assert(ops.drop_last().take(n) =~= ops.take(n));
        let e = encode(ops.drop_last());
        assert(encode(ops).take(encode(ops.take(n)).len() as int) =~= e.take(
            encode(ops.take(n)).len() as int,
        ));
    }
}

/// Operation `i` stands in the encoding at the offset given by the sizes
/// of the operations before it, and takes its own size there.
pub proof fn lemma_encode_slice(ops: Seq<Op>, i: int)
    requires
        0 <= i < ops.len(),
    ensures
        ops_size(ops.take(i + 1)) == ops_size(ops.take(i)) + ops[i].spec_size(),
        ops_size(ops.take(i + 1)) <= encode(ops).len(),
        encode(ops).subrange(ops_size(ops.take(i)) as int, ops_size(ops.take(i + 1)) as int)
            == ops[i].bytes(),
{
    let pre = ops.take(i + 1);
    assert(pre.drop_last() =~= ops.take(i));
    lemma_encode_prefix(ops, i + 1);
    lemma_encode_len(pre);
    lemma_encode_len(ops.take(i));
    let e = encode(ops);
    let ep = encode(pre);
    assert(ep == encode(ops.take(i)) + ops[i].bytes());
    assert(e.subrange(ops_size(ops.take(i)) as int, ops_size(pre) as int) =~= ep.subrange(
        ops_size(ops.take(i)) as int,
        ops_size(pre) as int,
    ));
    assert(ep.subrange(ops_size(ops.take(i)) as int, ops_size(pre) as int) =~= ops[i].bytes());
}

/// The number of operand bytes that follow `opcode`, or `None` for a byte
/// that is no opcode. This is the decoder's half of the operand layout.
pub open spec fn arity(opcode: u8) -> Option<nat> {
    if opcode == 0x00 || opcode == 0xFF {
        Some(0)
    } else if opcode == 0x2D || opcode == 0x3D || opcode == 0xA0 || opcode == 0x0F {
        Some(1)
    } else if opcode == 0x1F {
        Some(4)
    } else if opcode == 0x0E || opcode == 0x1E || opcode == 0xAE || opcode == 0xBE
        || opcode == 0xE1 || opcode == 0xE2 || opcode == 0xE3 || opcode == 0xE4
        || opcode == 0xEA || opcode == 0xEB || opcode == 0xEC || opcode == 0xED
        || opcode == 0x0A || opcode == 0x1A || opcode == 0x0B || opcode == 0x1B
        || opcode == 0x0C || opcode == 0x1C || opcode == 0x0D || opcode == 0x1D
        || opcode == 0xC5 || opcode == 0xC6 || opcode == 0xD5 || opcode == 0xD6
        || opcode == 0xE5 || opcode == 0xE6 {
        Some(2)
    } else {
        None
    }
}

/// The operation that `opcode` followed by the operand bytes `args` stands
/// for; `None` when the opcode, or the discriminator of a comparison, is unknown.
pub open spec fn assemble_op(opcode: u8, args: Seq<u8>) -> Option<Op> {
    if opcode == 0x00 {
        Some(Op::NOOP)
    } else if opcode == 0xFF {
        Some(Op::HALT)
    } else if opcode == 0x2D {
        Some(Op::SHR(args[0]))
    } else if opcode == 0x3D {
        Some(Op::SHL(args[0]))
    } else if opcode == 0xA0 {
        Some(Op::PRINT(args[0]))
    } else if opcode == 0x0F {
        Some(Op::JMP(args[0]))
    } else if opcode == 0x1F {
        match case_from(args[0], args[1], args[2]) {
            Some(c) => Some(Op::JMPIF(c, args[3])),
            None => None,
        }
    } else {
        binary_op(opcode, args[0], args[1])
    }
}

/// The two-operand operation with this opcode, if there is one.
pub open spec fn binary_op(opcode: u8, a: u8, b: u8) -> Option<Op> {
    if opcode == 0x0E {
        Some(Op::MOVRN(a, b))
    } else if opcode == 0x1E {
        Some(Op::MOVRR(a, b))
    } else if opcode == 0xAE {
        Some(Op::MOVRA(a, b))
    } else if opcode == 0xBE {
        Some(Op::MOVRX(a, b))
    } else if opcode == 0xE1 {
        Some(Op::MOVAN(a, b))
    } else if opcode == 0xE2 {
        Some(Op::MOVAR(a, b))
    } else if opcode == 0xE3 {
        Some(Op::MOVAA(a, b))
    } else if opcode == 0xE4 {
        Some(Op::MOVAX(a, b))
    } else if opcode == 0xEA {
        Some(Op::MOVXN(a, b))
    } else if opcode == 0xEB {
        Some(Op::MOVXR(a, b))
    } else if opcode == 0xEC {
        Some(Op::MOVXA(a, b))
    } else if opcode == 0xED {
        Some(Op::MOVXX(a, b))
    } else if opcode == 0x0A {
        Some(Op::ADDRN(a, b))
    } else if opcode == 0x1A {
        Some(Op::ADDRR(a, b))
    } else if opcode == 0x0B {
        Some(Op::SUBRN(a, b))
    } else if opcode == 0x1B {
        Some(Op::SUBRR(a, b))
    } else if opcode == 0x0C {
        Some(Op::MULRN(a, b))
    } else if opcode == 0x1C {
        Some(Op::MULRR(a, b))
    } else if opcode == 0x0D {
        Some(Op::DIVRN(a, b))
    } else if opcode == 0x1D {
        Some(Op::DIVRR(a, b))
    } else if opcode == 0xC5 {
        Some(Op::ANDRR(a, b))
    } else if opcode == 0xC6 {
        Some(Op::ANDRN(a, b))
    } else if opcode == 0xD5 {
        Some(Op::XORRR(a, b))
    } else if opcode == 0xD6 {
        Some(Op::XORRN(a, b))
    } else if opcode == 0xE5 {
        Some(Op::ORRR(a, b))
    } else if opcode == 0xE6 {
        Some(Op::ORRN(a, b))
    } else {
        None
    }
}

/// Every operation reads back from its own serialization: the decoder's
/// table gives its opcode exactly as many operand bytes as the encoder
/// writes, and rebuilds the same operation from them.
pub proof fn lemma_decode_inverts_encode(op: Op)
    ensures
        arity(op.spec_opcode()) == Some(op.operand_bytes().len()),
        assemble_op(op.spec_opcode(), op.operand_bytes()) == Some(op),
        op.bytes()[0] == op.spec_opcode(),
        op.bytes().subrange(1, op.bytes().len() as int) == op.operand_bytes(),
{
    assert(op.bytes().subrange(1, op.bytes().len() as int) =~= op.operand_bytes());
}

/// The operand count of an opcode, as `arity` gives it.
pub fn operand_count(opcode: u8) -> (r: Option<usize>)
    ensures
        r matches Some(k) ==> arity(opcode) == Some(k as nat),
        r is None ==> arity(opcode) is None,
{
    match opcode {
        0x00 | 0xFF => Some(0),
        0x2D | 0x3D | 0xA0 | 0x0F => Some(1),
        0x1F => Some(4),
        0x0E | 0x1E | 0xAE | 0xBE | 0xE1 | 0xE2 | 0xE3 | 0xE4 | 0xEA | 0xEB | 0xEC | 0xED
        | 0x0A | 0x1A | 0x0B | 0x1B | 0x0C | 0x1C | 0x0D | 0x1D | 0xC5 | 0xC6 | 0xD5 | 0xD6
        | 0xE5 | 0xE6 => Some(2),
        _ => None,
    }
}

/// Rebuilds the operation that `opcode` and its operand bytes stand for.
pub fn decode_op(opcode: u8, args: &Vec<u8>) -> (r: Option<Op>)
    requires
        arity(opcode) == Some(args@.len()),
    ensures
        r == assemble_op(opcode, args@),
{
    match opcode {
        0x00 => Some(Op::NOOP),
        0xFF => Some(Op::HALT),
        0x2D => Some(Op::SHR(args[0])),
        0x3D => Some(Op::SHL(args[0])),
        0xA0 => Some(Op::PRINT(args[0])),
        0x0F => Some(Op::JMP(args[0])),
        0x1F => {
            let (x, y) = (args[1], args[2]);
            let case = match args[0] {
                0x00 => Case::EQ(x, y),
                0x01 => Case::NEQ(x, y),
                0x02 => Case::LSR(x, y),
                0x03 => Case::GRT(x, y),
                0x04 => Case::LSREQ(x, y),
                0x05 => Case::GRTEQ(x, y),
                _ => {
                    return None;
                },
            };
            Some(Op::JMPIF(case, args[3]))
        },
        0x0E => Some(Op::MOVRN(args[0], args[1])),
        0x1E => Some(Op::MOVRR(args[0], args[1])),
        0xAE => Some(Op::MOVRA(args[0], args[1])),
        0xBE => Some(Op::MOVRX(args[0], args[1])),
        0xE1 => Some(Op::MOVAN(args[0], args[1])),
        0xE2 => Some(Op::MOVAR(args[0], args[1])),
        0xE3 => Some(Op::MOVAA(args[0], args[1])),
        0xE4 => Some(Op::MOVAX(args[0], args[1])),
        0xEA => Some(Op::MOVXN(args[0], args[1])),
        0xEB => Some(Op::MOVXR(args[0], args[1])),
        0xEC => Some(Op::MOVXA(args[0], args[1])),
        0xED => Some(Op::MOVXX(args[0], args[1])),
        0x0A => Some(Op::ADDRN(args[0], args[1])),
        0x1A => Some(Op::ADDRR(args[0], args[1])),
        0x0B => Some(Op::SUBRN(args[0], args[1])),
        0x1B => Some(Op::SUBRR(args[0], args[1])),
        0x0C => Some(Op::MULRN(args[0], args[1])),
        0x1C => Some(Op::MULRR(args[0], args[1])),
        0x0D => Some(Op::DIVRN(args[0], args[1])),
        0x1D => Some(Op::DIVRR(args[0], args[1])),
        0xC5 => Some(Op::ANDRR(args[0], args[1])),
        0xC6 => Some(Op::ANDRN(args[0], args[1])),
        0xD5 => Some(Op::XORRR(args[0], args[1])),
        0xD6 => Some(Op::XORRN(args[0], args[1])),
        0xE5 => Some(Op::ORRR(args[0], args[1])),
        0xE6 => Some(Op::ORRN(args[0], args[1])),
        _ => None,
    }
}

} // verus!
