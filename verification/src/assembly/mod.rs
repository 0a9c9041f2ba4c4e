//! The assembler: from source text to instructions, and from instructions to
//! bytes.
//!
//! Source text holds one instruction on each line: a mnemonic, then the
//! operands that its opcode takes, separated by spaces. A register is written
//! `$N`, a number in digits, with a `-` in front if it is negative. Every
//! line ends with a line terminator.
pub mod encoding;
pub mod grammar;
pub mod source;
pub mod text;

use crate::instruction::{Opcode, OperandType};
use crate::word::immediate_bytes;
use vstd::prelude::*;
use vstd::string::StringSliceAdditionalSpecFns;

pub use encoding::Token;
pub use grammar::{AssembleFault, ParseFault};

use encoding::{encode, encode_program, kinds, lemma_encode_operands_len, well_formed};
use grammar::{
    assemble, assemble_lines, lemma_assemble_lines_fault, lookup_mnemonic, opcode_named,
    parse_operand, parse_prefix, scan_instruction, scan_operand,
};
use source::{between, cut_point, tail};
use text::{
    lemma_line_end, lemma_skip_spaces, lemma_token_end, line_end, lines, lines_from, newline,
    scan_token, skip_spaces, terminated, token_end,
};

verus! {

/// One instruction of a program: an opcode with the operands it takes.
#[derive(Debug, PartialEq)]
pub struct Instruction {
    opcode: Opcode,
    operands: Vec<Token>,
}

impl View for Instruction {
    type V = (Opcode, Seq<Token>);

    closed spec fn view(&self) -> (Opcode, Seq<Token>) {
        (self.opcode, self.operands@)
    }
}

impl Instruction {
    #[verifier::type_invariant]
    spec fn is_well_formed(&self) -> bool {
        well_formed(self.opcode, self.operands@)
    }

    /// The instruction with this opcode and these operands, if the operands
    /// are the ones that the opcode takes.
    pub fn new(opcode: Opcode, operands: Vec<Token>) -> (r: Option<Instruction>)
        ensures
            match r {
                Some(instruction) => well_formed(opcode, operands@) && instruction@ == (
                    opcode,
                    operands@,
                ),
                None => !well_formed(opcode, operands@),
            },
    {
        if opcode == Opcode::Igl {
            return None;
        }
        let shape = opcode.operands().operands;
        if shape.len() != operands.len() {
            assert(kinds(operands@).len() != opcode.operand_spec().len());
            return None;
        }
        let mut i: usize = 0;
        while i < shape.len()
            invariant
                i <= shape.len(),
                shape.len() == operands.len(),
                shape@ == opcode.operand_spec(),
                opcode != Opcode::Igl,
                forall|j: int| 0 <= j < i ==> operands@[j].kind() == shape@[j],
            decreases shape.len() - i,
        {
            let matches = match operands[i] {
                Token::Register { .. } => shape[i] == OperandType::Register,
                Token::Number { .. } => shape[i] == OperandType::Number,
            };
            if !matches {
                assert(kinds(operands@)[i as int] != shape@[i as int]);
                return None;
            }
            i = i + 1;
        }
        assert(kinds(operands@) =~= shape@);
        Some(Instruction { opcode, operands })
    }

    /// The opcode of this instruction.
    pub fn opcode(&self) -> (opcode: Opcode)
        ensures
            opcode == self@.0,
            well_formed(self@.0, self@.1),
    {
        proof {
            use_type_invariant(self);
        }
        self.opcode
    }

    /// The operands of this instruction.
    pub fn operands(&self) -> (operands: &Vec<Token>)
        ensures
            operands@ == self@.1,
    {
        &self.operands
    }

    /// The encoding of this instruction: the opcode byte, then the operands in
    /// order, a register as one byte and a number as the two bytes of its low
    /// sixteen bits, high byte first.
    pub fn to_bytes(&self) -> (bytes: Vec<u8>)
        ensures
            bytes@ == encode(self@.0, self@.1),
            bytes.len() == self@.0.encoded_size(),
            well_formed(self@.0, self@.1),
    {
        proof {
            use_type_invariant(self);
            lemma_encode_operands_len(self.operands@);
        }
        let mut bytes: Vec<u8> = Vec::new();
        bytes.push(self.opcode.to_byte());
        let mut i: usize = 0;
        while i < self.operands.len()
            invariant
                i <= self.operands.len(),
                bytes@ == encode(self.opcode, self.operands@.take(i as int)),
            decreases self.operands.len() - i,
        {
            let ghost before = self.operands@.take(i as int);
            let ghost now = self.operands@.take(i + 1);
            assert(now.drop_last() =~= before);
            match self.operands[i] {
                Token::Register { reg } => {
                    bytes.push(reg);
                    assert(bytes@ =~= encode(self.opcode, now));
                },
                Token::Number { num } => {
                    let (high, low) = immediate_bytes(num);
                    bytes.push(high);
                    bytes.push(low);
                    assert(bytes@ =~= encode(self.opcode, now));
                },
            }
            i = i + 1;
        }
        assert(self.operands@.take(i as int) =~= self.operands@);
        bytes
    }
}

/// The abstract instructions that `instructions` stand for.
pub open spec fn instruction_views(instructions: Seq<Instruction>) -> Seq<(Opcode, Seq<Token>)> {
    Seq::new(instructions.len(), |i: int| instructions[i]@)
}

/// A program: instructions in the order in which they run.
pub struct Program {
    instructions: Vec<Instruction>,
}

impl View for Program {
    type V = Seq<(Opcode, Seq<Token>)>;

    closed spec fn view(&self) -> Seq<(Opcode, Seq<Token>)> {
        instruction_views(self.instructions@)
    }
}

impl Program {
    /// The program without instructions.
    pub fn new() -> (program: Program)
        ensures
            program@ == Seq::<(Opcode, Seq<Token>)>::empty(),
    {
        let program = Program { instructions: Vec::new() };
        assert(program@ =~= Seq::<(Opcode, Seq<Token>)>::empty());
        program
    }

    /// Puts `instruction` at the end of the program.
    pub fn add_instruction(&mut self, instruction: Instruction)
        ensures
            final(self)@ == old(self)@.push(instruction@),
    {
        self.instructions.push(instruction);
        assert(self@ =~= old(self)@.push(instruction@));
    }

    /// The number of instructions.
    pub fn len(&self) -> (n: usize)
        ensures
            n == self@.len(),
    {
        self.instructions.len()
    }

    /// The program that `input` writes, or what is wrong with `input`.
    pub fn from_str(input: &str) -> (r: Result<Program, AssembleFault>)
        ensures
            match assemble(input.spec_bytes()) {
                Ok(program) => r matches Ok(assembled) && assembled@ == program,
                Err(fault) => r matches Err(found) && found == fault,
            },
    {
        match parse_assembly(input) {
            Ok((_, instructions)) => Ok(Program { instructions }),
            Err(fault) => Err(fault),
        }
    }

    /// The bytecode of the program: the encodings of its instructions, each
    /// of them well formed, one after the other.
    pub fn to_bytes(&self) -> (bytes: Vec<u8>)
        ensures
            bytes@ == encode_program(self@),
            forall|i: int| 0 <= i < self@.len() ==> well_formed((#[trigger] self@[i]).0, self@[i].1),
    {
        let mut bytes: Vec<u8> = Vec::new();
        let mut i: usize = 0;
        while i < self.instructions.len()
            invariant
                i <= self.instructions.len(),
                bytes@ == encode_program(self@.take(i as int)),
                forall|j: int| 0 <= j < i ==> well_formed((#[trigger] self@[j]).0, self@[j].1),
            decreases self.instructions.len() - i,
        {
            assert(self@.take(i + 1).drop_last() =~= self@.take(i as int));
            let mut encoded = self.instructions[i].to_bytes();
            assert(self@[i as int] == self.instructions@[i as int]@);
            bytes.append(&mut encoded);
            i = i + 1;
        }
        assert(self@.take(i as int) =~= self@);
        bytes
    }
}

/// The first token of `s`.
pub open spec fn first_token(s: Seq<u8>) -> Seq<u8> {
    s.subrange(0, token_end(s, 0))
}

/// What follows the first token of `s`.
pub open spec fn after_first_token(s: Seq<u8>) -> Seq<u8> {
    s.subrange(token_end(s, 0), s.len() as int)
}

/// The opcode that the first token of `input` names, and the text after that
/// token.
pub fn parse_opcode(input: &str) -> (r: Result<(&str, Opcode), ParseFault>)
    ensures
        match opcode_named(first_token(input.spec_bytes())) {
            Some(opcode) => r matches Ok((rest, found)) && found == opcode && rest.spec_bytes()
                == after_first_token(input.spec_bytes()),
            None => r matches Err(fault) && fault == ParseFault::UnknownMnemonic,
        },
{
    let bytes = input.as_bytes();
    let end = scan_token(bytes, 0);
    proof {
        lemma_token_end(bytes@, 0);
    }
    match lookup_mnemonic(bytes, 0, end) {
        Some(opcode) => Ok((tail(input, end), opcode)),
        None => Err(ParseFault::UnknownMnemonic),
    }
}

/// The operand of kind `kind` that the first token of `input` writes, and the
/// text after that token.
fn parse_token(input: &str, kind: OperandType) -> (r: Result<(&str, Token), ParseFault>)
    ensures
        match parse_operand(first_token(input.spec_bytes()), kind) {
            Ok(token) => r matches Ok((rest, found)) && found == token && rest.spec_bytes()
                == after_first_token(input.spec_bytes()),
            Err(fault) => r matches Err(found) && found == fault,
        },
{
    let bytes = input.as_bytes();
    let end = scan_token(bytes, 0);
    proof {
        lemma_token_end(bytes@, 0);
    }
    match scan_operand(bytes, 0, end, kind) {
        Ok(token) => Ok((tail(input, end), token)),
        Err(fault) => Err(fault),
    }
}

/// The register that the first token of `input` writes, and the text after
/// that token. A token that writes a number is a mismatch of kinds; any other
/// is malformed.
pub fn parse_register(input: &str) -> (r: Result<(&str, Token), ParseFault>)
    ensures
        match parse_operand(first_token(input.spec_bytes()), OperandType::Register) {
            Ok(token) => r matches Ok((rest, found)) && found == token && rest.spec_bytes()
                == after_first_token(input.spec_bytes()),
            Err(fault) => r matches Err(found) && found == fault,
        },
{
    parse_token(input, OperandType::Register)
}

/// The number that the first token of `input` writes, and the text after that
/// token. A token that writes a register is a mismatch of kinds; any other is
/// malformed.
pub fn parse_number(input: &str) -> (r: Result<(&str, Token), ParseFault>)
    ensures
        match parse_operand(first_token(input.spec_bytes()), OperandType::Number) {
            Ok(token) => r matches Ok((rest, found)) && found == token && rest.spec_bytes()
                == after_first_token(input.spec_bytes()),
            Err(fault) => r matches Err(found) && found == fault,
        },
{
    parse_token(input, OperandType::Number)
}

/// The instruction that `input` starts with, and the text after its last
/// operand.
pub fn parse_instruction(input: &str) -> (r: Result<(&str, Instruction), ParseFault>)
    ensures
        match parse_prefix(input.spec_bytes()) {
            Ok((at, opcode, operands)) => r matches Ok((rest, instruction)) && instruction@ == (
                opcode,
                operands,
            ) && rest.spec_bytes() == input.spec_bytes().subrange(
                at,
                input.spec_bytes().len() as int,
            ),
            Err(fault) => r matches Err(found) && found == fault,
        },
{
    let bytes = input.as_bytes();
    match scan_instruction(bytes) {
        Err(fault) => Err(fault),
        Ok((at, opcode, operands)) => {
            proof {
                lemma_prefix_ends_at_cut_point(bytes@);
            }
            Ok((tail(input, at), Instruction { opcode, operands }))
        },
    }
}

/// An instruction ends where its last token ends: at the end of the text or
/// before a separator.
proof fn lemma_prefix_ends_at_cut_point(s: Seq<u8>)
    ensures
        parse_prefix(s) matches Ok((at, opcode, operands)) ==> cut_point(s, at),
{
    lemma_token_end(s, 0);
    let end = token_end(s, 0);
    match opcode_named(s.subrange(0, end)) {
        None => {},
        Some(op) => {
            lemma_operands_end_at_cut_point(s, end, op.operand_spec());
        },
    }
}

/// Operands end where their last token ends.
proof fn lemma_operands_end_at_cut_point(s: Seq<u8>, from: int, shape: Seq<OperandType>)
    requires
        cut_point(s, from),
    ensures
        grammar::parse_operands(s, from, shape) matches Ok((at, operands)) ==> cut_point(s, at)
            && from <= at,
    decreases shape.len(),
{
    if shape.len() > 0 {
        lemma_operands_end_at_cut_point(s, from, shape.drop_last());
        match grammar::parse_operands(s, from, shape.drop_last()) {
            Err(fault) => {},
            Ok((at, front)) => {
                lemma_skip_spaces(s, at);
                lemma_token_end(s, skip_spaces(s, at));
            },
        }
    }
}

/// The texts of `pieces`, as bytes.
pub open spec fn bytes_of(pieces: Seq<&str>) -> Seq<Seq<u8>> {
    Seq::new(pieces.len(), |i: int| pieces[i].spec_bytes())
}

/// The number of lines in `bytes`.
fn count_lines(bytes: &[u8]) -> (count: usize)
    ensures
        count == lines(bytes@).len(),
{
    let mut count: usize = 0;
    let mut from: usize = 0;
    loop
        invariant
            from <= bytes.len(),
            count <= from,
            lines(bytes@).len() == count + lines_from(bytes@, from as int).len(),
        ensures
            count == lines(bytes@).len(),
        decreases bytes.len() - from,
    {
        let end = scan_line(bytes, from);
        if end >= bytes.len() {
            break ;
        }
        count = count + 1;
        from = end + 1;
    }
    count
}

/// The end of the line that starts at `from`.
fn scan_line(bytes: &[u8], from: usize) -> (end: usize)
    requires
        from <= bytes.len(),
    ensures
        end == line_end(bytes@, from as int),
        from <= end <= bytes.len(),
        end < bytes.len() ==> bytes@[end as int] == newline(),
{
    proof {
        lemma_line_end(bytes@, from as int);
    }
    text::scan_line(bytes, from)
}

/// The lines of `input`, each without its terminator, and the text after the
/// last of them, which is empty.
///
/// Text that does not end with a line terminator is a fault. The line named is
/// the one that lacks the terminator.
pub fn parse_lines(input: &str) -> (r: Result<(&str, Vec<&str>), AssembleFault>)
    ensures
        match r {
            Ok((rest, found)) => terminated(input.spec_bytes()) && rest.spec_bytes().len() == 0
                && bytes_of(found@) == lines(input.spec_bytes()),
            Err(fault) => !terminated(input.spec_bytes()) && fault == (AssembleFault {
                line: lines(input.spec_bytes()).len() as usize,
                fault: ParseFault::MissingLineTerminator,
                expected: None,
            }),
        },
{
    let bytes = input.as_bytes();
    let n = bytes.len();
    if n == 0 || bytes[n - 1] != '\n' as u8 {
        return Err(
            AssembleFault {
                line: count_lines(bytes),
                fault: ParseFault::MissingLineTerminator,
                expected: None,
            },
        );
    }
    let mut found: Vec<&str> = Vec::new();
    let mut from: usize = 0;
    while from < n
        invariant
            bytes@ == input.spec_bytes(),
            n == bytes.len(),
            terminated(bytes@),
            from <= n,
            from == 0 || bytes@[from - 1] == newline(),
            lines(bytes@) == bytes_of(found@) + lines_from(bytes@, from as int),
        decreases n - from,
    {
        let end = scan_line(bytes, from);
        proof {
            lemma_line_end(bytes@, from as int);
        }
        let line = between(input, from, end);
        let ghost before = bytes_of(found@);
        found.push(line);
        assert(bytes_of(found@) =~= before.push(line.spec_bytes()));
        assert(bytes_of(found@) + lines_from(bytes@, end + 1) =~= before + lines_from(
            bytes@,
            from as int,
        ));
        from = end + 1;
    }
    assert(lines_from(bytes@, n as int) =~= Seq::<Seq<u8>>::empty());
    assert(bytes_of(found@) + Seq::<Seq<u8>>::empty() =~= bytes_of(found@));
    Ok((tail(input, n), found))
}

/// The instructions that the lines of `input` hold, and the text after the
/// last line, which is empty.
pub fn parse_assembly(input: &str) -> (r: Result<(&str, Vec<Instruction>), AssembleFault>)
    ensures
        match assemble(input.spec_bytes()) {
            Ok(program) => r matches Ok((rest, instructions)) && rest.spec_bytes().len() == 0
                && instruction_views(instructions@) == program,
            Err(fault) => r matches Err(found) && found == fault,
        },
{
    let (rest, found) = match parse_lines(input) {
        Ok(parsed) => parsed,
        Err(fault) => {
            return Err(fault);
        },
    };
    let ghost all = lines(input.spec_bytes());
    let mut instructions: Vec<Instruction> = Vec::new();
    let mut i: usize = 0;
    assert(all.take(0) =~= Seq::<Seq<u8>>::empty());
    assert(instruction_views(instructions@) =~= Seq::<(Opcode, Seq<Token>)>::empty());
    while i < found.len()
        invariant
            i <= found.len(),
            terminated(input.spec_bytes()),
            all == lines(input.spec_bytes()),
            rest.spec_bytes().len() == 0,
            bytes_of(found@) == all,
            assemble_lines(all.take(i as int)) == Ok::<Seq<(Opcode, Seq<Token>)>, AssembleFault>(
                instruction_views(instructions@),
            ),
        decreases found.len() - i,
    {
        let line = found[i].as_bytes();
        assert(line@ == all[i as int]);
        assert(all.take(i + 1).drop_last() =~= all.take(i as int));
        match grammar::scan_line(line) {
            Ok((opcode, operands)) => {
                let ghost before = instruction_views(instructions@);
                instructions.push(Instruction { opcode, operands });
                assert(instruction_views(instructions@) =~= before.push((opcode, operands@)));
            },
            Err(fault) => {
                let end = scan_token(line, 0);
                let expected = lookup_mnemonic(line, 0, end);
                proof {
                    lemma_assemble_lines_fault(all, i + 1);
                }
                return Err(AssembleFault { line: i, fault, expected });
            },
        }
        i = i + 1;
    }
    assert(all.take(i as int) =~= all);
    Ok((rest, instructions))
}

} // verus!
