//! The instruction set: every opcode, its byte, the operands it takes and the
//! number of bytes its encoding occupies.
//!
//! The assembler and the machine both read this one table, so they cannot
//! disagree on how many operand bytes follow an opcode.
use vstd::prelude::*;
use vstd::std_specs::convert::FromSpecImpl;

verus! {

/// How many registers the machine has; a register operand is valid below this.
pub const REGISTER_COUNT: usize = 32;

/// The kind of one operand.
#[derive(Debug, PartialEq, Eq, Clone, Copy, Structural)]
pub enum OperandType {
    /// A register index, encoded as one unsigned byte.
    Register,
    /// An immediate number, encoded as two bytes, high byte first.
    Number,
}

impl OperandType {
    /// The number of bytes an operand of this kind occupies.
    pub open spec fn encoded_width(self) -> nat {
        match self {
            OperandType::Register => 1,
            OperandType::Number => 2,
        }
    }

    /// The number of bytes an operand of this kind occupies.
    pub fn width(&self) -> (w: usize)
        ensures
            w == self.encoded_width(),
    {
        match self {
            OperandType::Register => 1,
            OperandType::Number => 2,
        }
    }
}

/// The bytes that operands of the kinds `shape` occupy together.
pub open spec fn total_width(shape: Seq<OperandType>) -> nat
    decreases shape.len(),
{
    if shape.len() == 0 {
        0
    } else {
        total_width(shape.drop_last()) + shape.last().encoded_width()
    }
}

/// The operands of one opcode, in the order in which they are written and encoded.
#[derive(Debug)]
pub struct Operands {
    pub operands: Vec<OperandType>,
}

/// What an instruction does.
#[derive(Debug, PartialEq, Eq, Clone, Copy, Structural)]
pub enum Opcode {
    /// `HLT`: stop.
    Hlt,
    /// `LOAD reg imm`: put the sign-extended immediate into the register.
    Load,
    /// `ADD a b dst`: `dst = a + b`, wrapping.
    Add,
    /// `SUB a b dst`: `dst = a - b`, wrapping.
    Sub,
    /// `MUL a b dst`: `dst = a * b`, wrapping.
    Mul,
    /// `DIV a b dst`: `dst = a / b` rounded toward zero; the remainder register
    /// takes what is left over.
    Div,
    /// `JMP reg`: continue at the byte offset held in the register.
    Jmp,
    /// `JMPF reg`: move the program counter forward by the register's value.
    Jmpf,
    /// `JMPB reg`: move the program counter backward by the register's value.
    Jmpb,
    /// `EQ a b`: set the comparison flag to `a == b`.
    Eq,
    /// `NEQ a b`: set the comparison flag to `a != b`.
    Neq,
    /// `GT a b`: set the comparison flag to `a > b`.
    Gt,
    /// `LT a b`: set the comparison flag to `a < b`.
    Lt,
    /// `GTQ a b`: set the comparison flag to `a >= b`.
    Gtq,
    /// `LTQ a b`: set the comparison flag to `a <= b`.
    Ltq,
    /// `JEQ reg`: jump as `JMP` does if the comparison flag is 1.
    Jeq,
    /// `JNEQ reg`: jump as `JMP` does if the comparison flag is 0.
    Jneq,
    /// `ALLOC reg`: grow the heap by the register's value, in zero bytes.
    Alloc,
    /// `INC reg`: add one to the register, wrapping.
    Inc,
    /// `DEC reg`: subtract one from the register, wrapping.
    Dec,
    /// What every byte without a meaning decodes to. It is never encoded and
    /// never executed.
    Igl,
}

/// The opcode that the byte `b` stands for; `Igl` where it stands for none.
pub open spec fn opcode_from_byte(b: u8) -> Opcode {
    if b == 0 {
        Opcode::Hlt
    } else if b == 1 {
        Opcode::Load
    } else if b == 2 {
        Opcode::Add
    } else if b == 3 {
        Opcode::Sub
    } else if b == 4 {
        Opcode::Mul
    } else if b == 5 {
        Opcode::Div
    } else if b == 6 {
        Opcode::Jmp
    } else if b == 7 {
        Opcode::Jmpf
    } else if b == 8 {
        Opcode::Jmpb
    } else if b == 9 {
        Opcode::Eq
    } else if b == 10 {
        Opcode::Neq
    } else if b == 11 {
        Opcode::Gt
    } else if b == 12 {
        Opcode::Lt
    } else if b == 13 {
        Opcode::Gtq
    } else if b == 14 {
        Opcode::Ltq
    } else if b == 15 {
        Opcode::Jeq
    } else if b == 16 {
        Opcode::Jneq
    } else if b == 17 {
        Opcode::Alloc
    } else if b == 18 {
        Opcode::Inc
    } else if b == 19 {
        Opcode::Dec
    } else {
        Opcode::Igl
    }
}

/// The byte that encodes `op`. `Igl` has no byte: the value given for it here
/// decodes to `Igl` again and is never written by the encoder.
pub open spec fn byte_from_opcode(op: Opcode) -> u8 {
    match op {
        Opcode::Hlt => 0,
        Opcode::Load => 1,
        Opcode::Add => 2,
        Opcode::Sub => 3,
        Opcode::Mul => 4,
        Opcode::Div => 5,
        Opcode::Jmp => 6,
        Opcode::Jmpf => 7,
        Opcode::Jmpb => 8,
        Opcode::Eq => 9,
        Opcode::Neq => 10,
        Opcode::Gt => 11,
        Opcode::Lt => 12,
        Opcode::Gtq => 13,
        Opcode::Ltq => 14,
        Opcode::Jeq => 15,
        Opcode::Jneq => 16,
        Opcode::Alloc => 17,
        Opcode::Inc => 18,
        Opcode::Dec => 19,
        Opcode::Igl => 255,
    }
}

impl From<u8> for Opcode {
    fn from(v: u8) -> (op: Opcode) {
        match v {
            0 => Opcode::Hlt,
            1 => Opcode::Load,
            2 => Opcode::Add,
            3 => Opcode::Sub,
            4 => Opcode::Mul,
            5 => Opcode::Div,
            6 => Opcode::Jmp,
            7 => Opcode::Jmpf,
            8 => Opcode::Jmpb,
            9 => Opcode::Eq,
            10 => Opcode::Neq,
            11 => Opcode::Gt,
            12 => Opcode::Lt,
            13 => Opcode::Gtq,
            14 => Opcode::Ltq,
            15 => Opcode::Jeq,
            16 => Opcode::Jneq,
            17 => Opcode::Alloc,
            18 => Opcode::Inc,
            19 => Opcode::Dec,
            _ => Opcode::Igl,
        }
    }
}

impl FromSpecImpl<u8> for Opcode {
    open spec fn obeys_from_spec() -> bool {
        true
    }

    open spec fn from_spec(v: u8) -> Opcode {
        opcode_from_byte(v)
    }
}

impl Opcode {
    /// The kinds of the operands of this opcode, in order. `Igl` takes none.
    pub open spec fn operand_spec(self) -> Seq<OperandType> {
        match self {
            Opcode::Hlt | Opcode::Igl => seq![],
            Opcode::Load => seq![OperandType::Register, OperandType::Number],
            Opcode::Add | Opcode::Sub | Opcode::Mul | Opcode::Div => seq![
                OperandType::Register,
                OperandType::Register,
                OperandType::Register,
            ],
            Opcode::Eq | Opcode::Neq | Opcode::Gt | Opcode::Lt | Opcode::Gtq | Opcode::Ltq => seq![
                OperandType::Register,
                OperandType::Register,
            ],
            Opcode::Jmp
            | Opcode::Jmpf
            | Opcode::Jmpb
            | Opcode::Jeq
            | Opcode::Jneq
            | Opcode::Alloc
            | Opcode::Inc
            | Opcode::Dec => seq![OperandType::Register],
        }
    }

    /// The length of an encoded instruction with this opcode: one byte for the
    /// opcode and the widths of its operands.
    pub open spec fn encoded_size(self) -> nat {
        1 + total_width(self.operand_spec())
    }

    /// The byte that encodes this opcode.
    pub fn to_byte(self) -> (b: u8)
        requires
            self != Opcode::Igl,
        ensures
            b == byte_from_opcode(self),
            opcode_from_byte(b) == self,
    {
        match self {
            Opcode::Hlt => 0,
            Opcode::Load => 1,
            Opcode::Add => 2,
            Opcode::Sub => 3,
            Opcode::Mul => 4,
            Opcode::Div => 5,
            Opcode::Jmp => 6,
            Opcode::Jmpf => 7,
            Opcode::Jmpb => 8,
            Opcode::Eq => 9,
            Opcode::Neq => 10,
            Opcode::Gt => 11,
            Opcode::Lt => 12,
            Opcode::Gtq => 13,
            Opcode::Ltq => 14,
            Opcode::Jeq => 15,
            Opcode::Jneq => 16,
            Opcode::Alloc => 17,
            Opcode::Inc => 18,
            Opcode::Dec => 19,
            Opcode::Igl => 255,
        }
    }

    /// The length in bytes of an encoded instruction with this opcode.
    pub fn size(&self) -> (n: usize)
        requires
            *self != Opcode::Igl,
        ensures
            n == self.encoded_size(),
            1 <= n <= 4,
    {
        proof {
            lemma_encoded_size(*self);
        }
        match self {
            Opcode::Hlt => 1,
            Opcode::Load | Opcode::Add | Opcode::Sub | Opcode::Mul | Opcode::Div => 4,
            Opcode::Eq | Opcode::Neq | Opcode::Gt | Opcode::Lt | Opcode::Gtq | Opcode::Ltq => 3,
            _ => 2,
        }
    }

    /// The operands of this opcode.
    pub fn operands(&self) -> (r: Operands)
        requires
            *self != Opcode::Igl,
        ensures
            r.operands@ == self.operand_spec(),
    {
        let mut operands: Vec<OperandType> = Vec::new();
        match self {
            Opcode::Hlt => {},
            Opcode::Load => {
                operands.push(OperandType::Register);
                operands.push(OperandType::Number);
            },
            Opcode::Add | Opcode::Sub | Opcode::Mul | Opcode::Div => {
                operands.push(OperandType::Register);
                operands.push(OperandType::Register);
                operands.push(OperandType::Register);
            },
            Opcode::Eq | Opcode::Neq | Opcode::Gt | Opcode::Lt | Opcode::Gtq | Opcode::Ltq => {
                operands.push(OperandType::Register);
                operands.push(OperandType::Register);
            },
            _ => {
                operands.push(OperandType::Register);
            },
        }
        assert(operands@ =~= self.operand_spec());
        Operands { operands }
    }
}

/// The width of up to three operands, as a sum.
proof fn lemma_total_width_small(shape: Seq<OperandType>)
    ensures
        shape.len() == 0 ==> total_width(shape) == 0,
        shape.len() == 1 ==> total_width(shape) == shape[0].encoded_width(),
        shape.len() == 2 ==> total_width(shape) == shape[0].encoded_width()
            + shape[1].encoded_width(),
        shape.len() == 3 ==> total_width(shape) == shape[0].encoded_width()
            + shape[1].encoded_width() + shape[2].encoded_width(),
{
    reveal_with_fuel(total_width, 4);
    if shape.len() >= 2 {
        assert(shape.drop_last().drop_last().len() == shape.len() - 2);
    }
}

/// The encoded size of each opcode, in numbers: one byte for the opcode, one
/// for each register operand and two for each number.
pub proof fn lemma_encoded_size(op: Opcode)
    ensures
        op.encoded_size() == match op {
            Opcode::Hlt | Opcode::Igl => 1nat,
            Opcode::Load | Opcode::Add | Opcode::Sub | Opcode::Mul | Opcode::Div => 4nat,
            Opcode::Eq | Opcode::Neq | Opcode::Gt | Opcode::Lt | Opcode::Gtq | Opcode::Ltq => 3nat,
            Opcode::Jmp
            | Opcode::Jmpf
            | Opcode::Jmpb
            | Opcode::Jeq
            | Opcode::Jneq
            | Opcode::Alloc
            | Opcode::Inc
            | Opcode::Dec => 2nat,
        },
{
    lemma_total_width_small(op.operand_spec());
}

/// The bytes that stand for no opcode are those above 19; every other byte is
/// the byte of the opcode it stands for, and every opcode but `Igl` is the
/// opcode that its byte stands for.
pub proof fn lemma_opcode_bytes(b: u8, op: Opcode)
    ensures
        opcode_from_byte(b) == Opcode::Igl <==> b > 19,
        opcode_from_byte(b) != Opcode::Igl ==> byte_from_opcode(opcode_from_byte(b)) == b,
        op != Opcode::Igl ==> opcode_from_byte(byte_from_opcode(op)) == op,
{
}

/// An instruction that is only an opcode.
#[derive(Debug, PartialEq, Eq, Clone, Copy, Structural)]
pub struct Instruction {
    pub opcode: Opcode,
}

impl Instruction {
    /// The instruction with the opcode `opcode`.
    pub fn new(opcode: Opcode) -> (instruction: Instruction)
        ensures
            instruction.opcode == opcode,
    {
        Instruction { opcode }
    }
}

} // verus!
