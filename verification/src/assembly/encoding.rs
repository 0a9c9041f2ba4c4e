//! The binary form of an instruction: the opcode byte, then each operand in
//! the order in which it is written. A register is one byte; a number is its
//! low sixteen bits, high byte first.
use crate::instruction::{byte_from_opcode, total_width, Opcode, OperandType};
use crate::word::{high_byte, lemma_truncate16, low_byte, sign_extend16, truncate16};
use vstd::prelude::*;

verus! {

/// One operand of an instruction.
#[derive(Debug, PartialEq, Eq, Clone, Copy, Structural)]
pub enum Token {
    /// `$N` in the source text: the register with index `reg`.
    Register { reg: u8 },
    /// A decimal number in the source text.
    Number { num: i32 },
}

impl Token {
    /// Which kind of operand this is.
    pub open spec fn kind(self) -> OperandType {
        match self {
            Token::Register { .. } => OperandType::Register,
            Token::Number { .. } => OperandType::Number,
        }
    }

    /// The bytes that encode this operand.
    pub open spec fn encoding(self) -> Seq<u8> {
        match self {
            Token::Register { reg } => seq![reg],
            Token::Number { num } => seq![high_byte(num), low_byte(num)],
        }
    }

    /// What this operand is after it has been encoded and read back: a
    /// register is unchanged, a number keeps its low sixteen bits, sign-extended.
    pub open spec fn normalized(self) -> Token {
        match self {
            Token::Register { reg } => Token::Register { reg },
            Token::Number { num } => Token::Number { num: truncate16(num) },
        }
    }
}

/// The kinds of the operands `operands`, in order.
pub open spec fn kinds(operands: Seq<Token>) -> Seq<OperandType> {
    Seq::new(operands.len(), |i: int| operands[i].kind())
}

/// `operands` after encoding and decoding.
pub open spec fn normalized(operands: Seq<Token>) -> Seq<Token> {
    Seq::new(operands.len(), |i: int| operands[i].normalized())
}

/// An instruction is well formed if its opcode can be encoded and its operands
/// are the ones that the opcode takes.
pub open spec fn well_formed(opcode: Opcode, operands: Seq<Token>) -> bool {
    opcode != Opcode::Igl && kinds(operands) == opcode.operand_spec()
}

/// The encodings of `operands`, one after the other.
pub open spec fn encode_operands(operands: Seq<Token>) -> Seq<u8>
    decreases operands.len(),
{
    if operands.len() == 0 {
        seq![]
    } else {
        encode_operands(operands.drop_last()) + operands.last().encoding()
    }
}

/// The encoding of one instruction.
pub open spec fn encode(opcode: Opcode, operands: Seq<Token>) -> Seq<u8> {
    seq![byte_from_opcode(opcode)] + encode_operands(operands)
}

/// The operand of kind `kind` whose encoding starts at `bytes[at]`.
pub open spec fn decode_operand(bytes: Seq<u8>, at: int, kind: OperandType) -> Token {
    match kind {
        OperandType::Register => Token::Register { reg: bytes[at] },
        OperandType::Number => Token::Number { num: sign_extend16(bytes[at], bytes[at + 1]) },
    }
}

/// The operands of kinds `shape` whose encodings start at `bytes[at]`.
pub open spec fn decode_operands(bytes: Seq<u8>, at: int, shape: Seq<OperandType>) -> Seq<Token>
    decreases shape.len(),
{
    if shape.len() == 0 {
        seq![]
    } else {
        decode_operands(bytes, at, shape.drop_last()).push(
            decode_operand(bytes, at + total_width(shape.drop_last()), shape.last()),
        )
    }
}

/// The encoding of a program: the encodings of its instructions, one after
/// the other, with nothing between them, before them or after them.
pub open spec fn encode_program(program: Seq<(Opcode, Seq<Token>)>) -> Seq<u8>
    decreases program.len(),
{
    if program.len() == 0 {
        seq![]
    } else {
        encode_program(program.drop_last()) + encode(program.last().0, program.last().1)
    }
}

/// The encoding of operands is as long as the widths of their kinds say.
pub proof fn lemma_encode_operands_len(operands: Seq<Token>)
    ensures
        encode_operands(operands).len() == total_width(kinds(operands)),
    decreases operands.len(),
{
    if operands.len() > 0 {
        lemma_encode_operands_len(operands.drop_last());
        assert(kinds(operands).drop_last() =~= kinds(operands.drop_last()));
    }
}

/// The encoding of a well-formed instruction has the size of its opcode.
pub proof fn lemma_encode_len(opcode: Opcode, operands: Seq<Token>)
    requires
        well_formed(opcode, operands),
    ensures
        encode(opcode, operands).len() == opcode.encoded_size(),
{
    lemma_encode_operands_len(operands);
}

/// Decoding inverts encoding: wherever the encoding of `operands` stands in a
/// byte sequence, reading operands of the same kinds there gives `operands`
/// back, each number cut to sixteen bits.
pub proof fn lemma_decode_inverts_encode(before: Seq<u8>, operands: Seq<Token>, after: Seq<u8>)
    ensures
        decode_operands(
            before + encode_operands(operands) + after,
            before.len() as int,
            kinds(operands),
        ) == normalized(operands),
    decreases operands.len(),
{
    let bytes = before + encode_operands(operands) + after;
    let shape = kinds(operands);
    if operands.len() == 0 {
        assert(decode_operands(bytes, before.len() as int, shape) =~= normalized(operands));
    } else {
        let front = operands.drop_last();
        let last = operands.last();
        let rest = last.encoding() + after;
        lemma_decode_inverts_encode(before, front, rest);
        lemma_encode_operands_len(front);
        assert(shape.drop_last() =~= kinds(front));
        assert(before + encode_operands(front) + rest =~= bytes);
        let here = (before.len() + total_width(kinds(front))) as int;
        assert(decode_operand(bytes, here, shape.last()) == last.normalized()) by {
            match last {
                Token::Register { reg } => {
                    assert(bytes[here] == reg);
                },
                Token::Number { num } => {
                    assert(bytes[here] == high_byte(num));
                    assert(bytes[here + 1] == low_byte(num));
                },
            }
        }
        assert(normalized(front).push(last.normalized()) =~= normalized(operands));
    }
}

/// The encoding of a program, cut at instruction `k`: what comes before it,
/// the instruction itself, and what comes after it.
pub proof fn lemma_encode_program_split(program: Seq<(Opcode, Seq<Token>)>, k: int)
    requires
        0 <= k < program.len(),
    ensures
        encode_program(program) == encode_program(program.take(k)) + encode(
            program[k].0,
            program[k].1,
        ) + encode_program(program.skip(k + 1)),
    decreases program.len(),
{
    let front = program.drop_last();
    let last = encode(program.last().0, program.last().1);
    if k == program.len() - 1 {
        assert(program.take(k) =~= front);
        assert(program.skip(k + 1) =~= Seq::<(Opcode, Seq<Token>)>::empty());
        assert(encode_program(program) =~= encode_program(front) + last + encode_program(
            program.skip(k + 1),
        ));
    } else {
        lemma_encode_program_split(front, k);
        assert(front.take(k) =~= program.take(k));
        assert(front[k] == program[k]);
        assert(program.skip(k + 1).drop_last() =~= front.skip(k + 1));
        assert(program.skip(k + 1).last() == program.last());
        assert(encode_program(program) =~= encode_program(program.take(k)) + encode(
            program[k].0,
            program[k].1,
        ) + encode_program(program.skip(k + 1)));
    }
}

/// A number that fits in sixteen signed bits survives encoding and decoding.
pub proof fn lemma_small_number_survives(num: i32)
    requires
        -0x8000 <= num < 0x8000,
    ensures
        (Token::Number { num }).normalized() == (Token::Number { num }),
{
    lemma_truncate16(num);
}

} // verus!
