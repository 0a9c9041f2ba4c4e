//! The grammar of one line of source text: a mnemonic, then the operands that
//! its opcode takes, each a token of its own.
use crate::assembly::encoding::{kinds, well_formed, Token};
use crate::assembly::text::{
    lemma_skip_spaces, lemma_token_end, lines, natural_literal, same_bytes, scan_natural,
    scan_spaces, scan_token, skip_spaces, terminated, token_end,
};
use crate::instruction::{Opcode, OperandType};
use vstd::prelude::*;

verus! {

/// What is wrong with a piece of source text.
#[derive(Debug, PartialEq, Eq, Clone, Copy, Structural)]
pub enum ParseFault {
    /// The first token of the line names no opcode.
    UnknownMnemonic,
    /// The line holds fewer or more operands than the opcode takes.
    OperandCountMismatch,
    /// An operand is a register where a number belongs, or a number where a
    /// register belongs.
    OperandKindMismatch,
    /// An operand is neither a register nor a number.
    MalformedOperandLiteral,
    /// The text does not end with a line terminator.
    MissingLineTerminator,
}

/// Why a source text could not be assembled.
#[derive(Debug, PartialEq, Eq, Clone, Copy, Structural)]
pub struct AssembleFault {
    /// The index of the offending line, counted from zero.
    pub line: usize,
    /// What is wrong with that line.
    pub fault: ParseFault,
    /// The opcode that the line names, whose operands were expected; `None`
    /// where the line names no opcode.
    pub expected: Option<Opcode>,
}

/// The name of `op` in source text. `Igl` has none.
pub open spec fn mnemonic(op: Opcode) -> Seq<u8> {
    match op {
        Opcode::Hlt => seq!['H' as u8, 'L' as u8, 'T' as u8],
        Opcode::Load => seq!['L' as u8, 'O' as u8, 'A' as u8, 'D' as u8],
        Opcode::Add => seq!['A' as u8, 'D' as u8, 'D' as u8],
        Opcode::Sub => seq!['S' as u8, 'U' as u8, 'B' as u8],
        Opcode::Mul => seq!['M' as u8, 'U' as u8, 'L' as u8],
        Opcode::Div => seq!['D' as u8, 'I' as u8, 'V' as u8],
        Opcode::Jmp => seq!['J' as u8, 'M' as u8, 'P' as u8],
        Opcode::Jmpf => seq!['J' as u8, 'M' as u8, 'P' as u8, 'F' as u8],
        Opcode::Jmpb => seq!['J' as u8, 'M' as u8, 'P' as u8, 'B' as u8],
        Opcode::Eq => seq!['E' as u8, 'Q' as u8],
        Opcode::Neq => seq!['N' as u8, 'E' as u8, 'Q' as u8],
        Opcode::Gt => seq!['G' as u8, 'T' as u8],
        Opcode::Lt => seq!['L' as u8, 'T' as u8],
        Opcode::Gtq => seq!['G' as u8, 'T' as u8, 'Q' as u8],
        Opcode::Ltq => seq!['L' as u8, 'T' as u8, 'Q' as u8],
        Opcode::Jeq => seq!['J' as u8, 'E' as u8, 'Q' as u8],
        Opcode::Jneq => seq!['J' as u8, 'N' as u8, 'E' as u8, 'Q' as u8],
        Opcode::Alloc => seq!['A' as u8, 'L' as u8, 'L' as u8, 'O' as u8, 'C' as u8],
        Opcode::Inc => seq!['I' as u8, 'N' as u8, 'C' as u8],
        Opcode::Dec => seq!['D' as u8, 'E' as u8, 'C' as u8],
        Opcode::Igl => seq![],
    }
}

/// Whether the token `token` is the name of `op`.
pub open spec fn names(token: Seq<u8>, op: Opcode) -> bool {
    op != Opcode::Igl && token == mnemonic(op)
}

/// The opcode that the token `token` names, if it names one.
pub open spec fn opcode_named(token: Seq<u8>) -> Option<Opcode> {
    if exists|op: Opcode| names(token, op) {
        Some(choose|op: Opcode| names(token, op))
    } else {
        None
    }
}

/// No two opcodes share a name.
pub proof fn lemma_names_are_distinct(a: Opcode, b: Opcode)
    requires
        a != Opcode::Igl,
        b != Opcode::Igl,
        mnemonic(a) == mnemonic(b),
    ensures
        a == b,
{
    let x = mnemonic(a);
    let y = mnemonic(b);
    assert(x.len() == y.len());
    assert(x[0] == y[0]);
    assert(x[1] == y[1]);
    if x.len() > 2 {
        assert(x[2] == y[2]);
    }
    if x.len() > 3 {
        assert(x[3] == y[3]);
    }
}

/// A token that is the name of `op` names `op` and nothing else.
pub proof fn lemma_opcode_named(token: Seq<u8>, op: Opcode)
    requires
        names(token, op),
    ensures
        opcode_named(token) == Some(op),
{
    let found = choose|other: Opcode| names(token, other);
    lemma_names_are_distinct(found, op);
}

/// The register that `token` writes: a `$` and then the index in digits, which
/// is at most 255.
pub open spec fn register_literal(token: Seq<u8>) -> Option<u8> {
    if token.len() > 0 && token[0] == '$' as u8 {
        match natural_literal(token.subrange(1, token.len() as int), u8::MAX as nat) {
            Some(index) => Some(index as u8),
            None => None,
        }
    } else {
        None
    }
}

/// The number that `token` writes: one or more digits, with or without a `-`
/// in front, that write a number from `i32::MIN` to `i32::MAX`.
pub open spec fn number_literal(token: Seq<u8>) -> Option<i32> {
    if token.len() > 0 && token[0] == '-' as u8 {
        match natural_literal(token.subrange(1, token.len() as int), 0x8000_0000) {
            Some(value) => Some((-(value as int)) as i32),
            None => None,
        }
    } else {
        match natural_literal(token, i32::MAX as nat) {
            Some(value) => Some(value as i32),
            None => None,
        }
    }
}

/// The operand of kind `kind` that `token` writes. A token that writes an
/// operand of the other kind is a mismatch; one that writes no operand at all
/// is malformed.
pub open spec fn parse_operand(token: Seq<u8>, kind: OperandType) -> Result<Token, ParseFault> {
    match kind {
        OperandType::Register => match register_literal(token) {
            Some(reg) => Ok(Token::Register { reg }),
            None => if number_literal(token) is Some {
                Err(ParseFault::OperandKindMismatch)
            } else {
                Err(ParseFault::MalformedOperandLiteral)
            },
        },
        OperandType::Number => match number_literal(token) {
            Some(num) => Ok(Token::Number { num }),
            None => if register_literal(token) is Some {
                Err(ParseFault::OperandKindMismatch)
            } else {
                Err(ParseFault::MalformedOperandLiteral)
            },
        },
    }
}

/// The operands of kinds `shape` that `s` holds from `from` on, left to right,
/// and the index at which the last of them ends. Separators before a token are
/// passed over. The first operand that is missing or wrong decides the fault.
pub open spec fn parse_operands(s: Seq<u8>, from: int, shape: Seq<OperandType>) -> Result<
    (int, Seq<Token>),
    ParseFault,
>
    decreases shape.len(),
{
    if shape.len() == 0 {
        Ok((from, seq![]))
    } else {
        match parse_operands(s, from, shape.drop_last()) {
            Err(fault) => Err(fault),
            Ok((at, front)) => {
                let start = skip_spaces(s, at);
                let end = token_end(s, start);
                if start >= s.len() {
                    Err(ParseFault::OperandCountMismatch)
                } else {
                    match parse_operand(s.subrange(start, end), shape.last()) {
                        Err(fault) => Err(fault),
                        Ok(token) => Ok((end, front.push(token))),
                    }
                }
            },
        }
    }
}

/// The instruction that `s` starts with, and the index at which it ends: the
/// first token names the opcode, and the operands that the opcode takes follow.
/// What comes after the last operand is not looked at.
pub open spec fn parse_prefix(s: Seq<u8>) -> Result<(int, Opcode, Seq<Token>), ParseFault> {
    let end = token_end(s, 0);
    match opcode_named(s.subrange(0, end)) {
        None => Err(ParseFault::UnknownMnemonic),
        Some(op) => match parse_operands(s, end, op.operand_spec()) {
            Err(fault) => Err(fault),
            Ok((at, operands)) => Ok((at, op, operands)),
        },
    }
}

/// The instruction that the line `line` holds: an instruction, and nothing
/// after it but separators.
pub open spec fn parse_line(line: Seq<u8>) -> Result<(Opcode, Seq<Token>), ParseFault> {
    match parse_prefix(line) {
        Err(fault) => Err(fault),
        Ok((at, op, operands)) => if skip_spaces(line, at) >= line.len() {
            Ok((op, operands))
        } else {
            Err(ParseFault::OperandCountMismatch)
        },
    }
}

/// The opcode that the line `line` names, if its first token names one.
pub open spec fn line_opcode(line: Seq<u8>) -> Option<Opcode> {
    opcode_named(line.subrange(0, token_end(line, 0)))
}

/// The instructions that the lines `lines` hold, in order, or the fault of the
/// first line that holds none.
pub open spec fn assemble_lines(lines: Seq<Seq<u8>>) -> Result<
    Seq<(Opcode, Seq<Token>)>,
    AssembleFault,
>
    decreases lines.len(),
{
    if lines.len() == 0 {
        Ok(seq![])
    } else {
        match assemble_lines(lines.drop_last()) {
            Err(fault) => Err(fault),
            Ok(front) => match parse_line(lines.last()) {
                Err(fault) => Err(
                    AssembleFault {
                        line: (lines.len() - 1) as usize,
                        fault,
                        expected: line_opcode(lines.last()),
                    },
                ),
                Ok(instruction) => Ok(front.push(instruction)),
            },
        }
    }
}

/// The program that the source text `text` writes.
///
/// The text must end with a line terminator; if it does not, that is the
/// fault, whatever its lines hold, and the line named is the one that lacks
/// the terminator. Otherwise every line holds one instruction, and the first
/// line that does not decides the fault.
pub open spec fn assemble(text: Seq<u8>) -> Result<Seq<(Opcode, Seq<Token>)>, AssembleFault> {
    if !terminated(text) {
        Err(
            AssembleFault {
                line: lines(text).len() as usize,
                fault: ParseFault::MissingLineTerminator,
                expected: None,
            },
        )
    } else {
        assemble_lines(lines(text))
    }
}

/// A fault among the first lines is the fault of them all.
pub proof fn lemma_assemble_lines_fault(lines: Seq<Seq<u8>>, k: int)
    requires
        0 <= k <= lines.len(),
        assemble_lines(lines.take(k)) is Err,
    ensures
        assemble_lines(lines) == assemble_lines(lines.take(k)),
    decreases lines.len() - k,
{
    if k < lines.len() {
        assert(lines.take(k + 1).drop_last() =~= lines.take(k));
        lemma_assemble_lines_fault(lines, k + 1);
    } else {
        assert(lines.take(k) =~= lines);
    }
}

/// The first fault decides: where lines are not assembled, the fault names a
/// line that holds no instruction, says what is wrong with it and which opcode
/// it names, and every line before it holds an instruction.
pub proof fn lemma_first_fault_decides(lines: Seq<Seq<u8>>)
    requires
        lines.len() <= usize::MAX,
    ensures
        assemble_lines(lines) matches Err(fault) ==> {
            &&& fault.line < lines.len()
            &&& parse_line(lines[fault.line as int]) == Err::<(Opcode, Seq<Token>), ParseFault>(
                fault.fault,
            )
            &&& fault.expected == line_opcode(lines[fault.line as int])
            &&& forall|i: int| 0 <= i < fault.line ==> (#[trigger] parse_line(lines[i])) is Ok
        },
    decreases lines.len(),
{
    if lines.len() > 0 {
        let front = lines.drop_last();
        lemma_first_fault_decides(front);
        lemma_assembled_is_well_formed(front);
        match assemble_lines(front) {
            Err(fault) => {
                assert(lines[fault.line as int] == front[fault.line as int]);
                assert forall|i: int| 0 <= i < fault.line implies (#[trigger] parse_line(
                    lines[i],
                )) is Ok by {
                    assert(front[i] == lines[i]);
                }
            },
            Ok(program) => {
                assert forall|i: int| 0 <= i < lines.len() - 1 implies (#[trigger] parse_line(
                    lines[i],
                )) is Ok by {
                    assert(front[i] == lines[i]);
                    assert(parse_line(front[i]) == Ok::<(Opcode, Seq<Token>), ParseFault>(
                        program[i],
                    ));
                }
            },
        }
    }
}

/// Every instruction of an assembled program is well formed, and there is one
/// for each line.
pub proof fn lemma_assembled_is_well_formed(lines: Seq<Seq<u8>>)
    ensures
        assemble_lines(lines) matches Ok(program) ==> {
            &&& program.len() == lines.len()
            &&& forall|i: int|
                0 <= i < program.len() ==> parse_line(lines[i]) == Ok::<
                    (Opcode, Seq<Token>),
                    ParseFault,
                >(#[trigger] program[i])
            &&& forall|i: int|
                0 <= i < program.len() ==> well_formed((#[trigger] program[i]).0, program[i].1)
        },
    decreases lines.len(),
{
    if lines.len() > 0 {
        lemma_assembled_is_well_formed(lines.drop_last());
        match assemble_lines(lines) {
            Err(fault) => {},
            Ok(program) => {
                let line = lines.last();
                lemma_token_end(line, 0);
                let end = token_end(line, 0);
                let op = opcode_named(line.subrange(0, end))->0;
                assert(names(line.subrange(0, end), op));
                lemma_parse_operands(line, end, op.operand_spec());
                assert forall|i: int| 0 <= i < program.len() implies parse_line(lines[i]) == Ok::<
                    (Opcode, Seq<Token>),
                    ParseFault,
                >(#[trigger] program[i]) && well_formed(program[i].0, program[i].1) by {
                    if i < program.len() - 1 {
                        assert(lines.drop_last()[i] == lines[i]);
                    }
                }
            },
        }
    }
}

/// Operands that were parsed are of the kinds asked for, and end within the
/// text.
pub proof fn lemma_parse_operands(s: Seq<u8>, from: int, shape: Seq<OperandType>)
    requires
        0 <= from <= s.len(),
    ensures
        parse_operands(s, from, shape) matches Ok((at, operands)) ==> {
            &&& from <= at <= s.len()
            &&& kinds(operands) == shape
        },
    decreases shape.len(),
{
    if shape.len() > 0 {
        lemma_parse_operands(s, from, shape.drop_last());
        match parse_operands(s, from, shape.drop_last()) {
            Err(fault) => {},
            Ok((at, front)) => {
                lemma_skip_spaces(s, at);
                let start = skip_spaces(s, at);
                lemma_token_end(s, start);
                match parse_operands(s, from, shape) {
                    Err(fault) => {},
                    Ok((end, operands)) => {
                        let token = operands.last();
                        assert(operands == front.push(token));
                        assert(token.kind() == shape.last());
                        assert forall|i: int| 0 <= i < shape.len() implies kinds(operands)[i]
                            == shape[i] by {
                            if i < front.len() {
                                assert(kinds(front)[i] == shape.drop_last()[i]);
                            }
                        }
                        assert(kinds(operands) =~= shape);
                    },
                }
            },
        }
    } else {
        assert(kinds(Seq::<Token>::empty()) =~= shape);
    }
}

/// A fault among the first operands is the fault of them all.
pub proof fn lemma_parse_operands_fault(s: Seq<u8>, from: int, shape: Seq<OperandType>, k: int)
    requires
        0 <= k <= shape.len(),
        parse_operands(s, from, shape.take(k)) is Err,
    ensures
        parse_operands(s, from, shape) == parse_operands(s, from, shape.take(k)),
    decreases shape.len() - k,
{
    if k < shape.len() {
        assert(shape.take(k + 1).drop_last() =~= shape.take(k));
        lemma_parse_operands_fault(s, from, shape, k + 1);
    } else {
        assert(shape.take(k) =~= shape);
    }
}

/// The opcode that `s[from..to]` names, if it names one.
pub fn lookup_mnemonic(s: &[u8], from: usize, to: usize) -> (found: Option<Opcode>)
    requires
        from <= to <= s.len(),
    ensures
        found == opcode_named(s@.subrange(from as int, to as int)),
{
    let ghost token = s@.subrange(from as int, to as int);
    let found = if same_bytes(s, from, to, &['H' as u8, 'L' as u8, 'T' as u8]) {
        Some(Opcode::Hlt)
    } else if same_bytes(s, from, to, &['L' as u8, 'O' as u8, 'A' as u8, 'D' as u8]) {
        Some(Opcode::Load)
    } else if same_bytes(s, from, to, &['A' as u8, 'D' as u8, 'D' as u8]) {
        Some(Opcode::Add)
    } else if same_bytes(s, from, to, &['S' as u8, 'U' as u8, 'B' as u8]) {
        Some(Opcode::Sub)
    } else if same_bytes(s, from, to, &['M' as u8, 'U' as u8, 'L' as u8]) {
        Some(Opcode::Mul)
    } else if same_bytes(s, from, to, &['D' as u8, 'I' as u8, 'V' as u8]) {
        Some(Opcode::Div)
    } else if same_bytes(s, from, to, &['J' as u8, 'M' as u8, 'P' as u8]) {
        Some(Opcode::Jmp)
    } else if same_bytes(s, from, to, &['J' as u8, 'M' as u8, 'P' as u8, 'F' as u8]) {
        Some(Opcode::Jmpf)
    } else if same_bytes(s, from, to, &['J' as u8, 'M' as u8, 'P' as u8, 'B' as u8]) {
        Some(Opcode::Jmpb)
    } else if same_bytes(s, from, to, &['E' as u8, 'Q' as u8]) {
        Some(Opcode::Eq)
    } else if same_bytes(s, from, to, &['N' as u8, 'E' as u8, 'Q' as u8]) {
        Some(Opcode::Neq)
    } else if same_bytes(s, from, to, &['G' as u8, 'T' as u8]) {
        Some(Opcode::Gt)
    } else if same_bytes(s, from, to, &['L' as u8, 'T' as u8]) {
        Some(Opcode::Lt)
    } else if same_bytes(s, from, to, &['G' as u8, 'T' as u8, 'Q' as u8]) {
        Some(Opcode::Gtq)
    } else if same_bytes(s, from, to, &['L' as u8, 'T' as u8, 'Q' as u8]) {
        Some(Opcode::Ltq)
    } else if same_bytes(s, from, to, &['J' as u8, 'E' as u8, 'Q' as u8]) {
        Some(Opcode::Jeq)
    } else if same_bytes(s, from, to, &['J' as u8, 'N' as u8, 'E' as u8, 'Q' as u8]) {
        Some(Opcode::Jneq)
    } else if same_bytes(s, from, to, &['A' as u8, 'L' as u8, 'L' as u8, 'O' as u8, 'C' as u8]) {
        Some(Opcode::Alloc)
    } else if same_bytes(s, from, to, &['I' as u8, 'N' as u8, 'C' as u8]) {
        Some(Opcode::Inc)
    } else if same_bytes(s, from, to, &['D' as u8, 'E' as u8, 'C' as u8]) {
        Some(Opcode::Dec)
    } else {
        None
    };
    proof {
        match found {
            Some(op) => {
                assert(token =~= mnemonic(op));
                lemma_opcode_named(token, op);
            },
            None => {
                assert forall|op: Opcode| !names(token, op) by {
                    if op != Opcode::Igl {
                        assert(!(token =~= mnemonic(op)));
                    }
                }
            },
        }
    }
    found
}

/// The operand of kind `kind` that `s[from..to]` writes.
pub fn scan_operand(s: &[u8], from: usize, to: usize, kind: OperandType) -> (r: Result<
    Token,
    ParseFault,
>)
    requires
        from <= to <= s.len(),
    ensures
        r == parse_operand(s@.subrange(from as int, to as int), kind),
{
    let ghost token = s@.subrange(from as int, to as int);
    let register = if from < to && s[from] == '$' as u8 {
        assert(token.subrange(1, token.len() as int) =~= s@.subrange(from + 1, to as int));
        scan_natural(s, from + 1, to, 255)
    } else {
        None
    };
    let number: Option<i32> = if from < to && s[from] == '-' as u8 {
        assert(token.subrange(1, token.len() as int) =~= s@.subrange(from + 1, to as int));
        match scan_natural(s, from + 1, to, 0x8000_0000) {
            Some(value) => Some((-(value as i64)) as i32),
            None => None,
        }
    } else {
        match scan_natural(s, from, to, 0x7fff_ffff) {
            Some(value) => Some(value as i32),
            None => None,
        }
    };
    match kind {
        OperandType::Register => match register {
            Some(index) => Ok(Token::Register { reg: index as u8 }),
            None => if number.is_some() {
                Err(ParseFault::OperandKindMismatch)
            } else {
                Err(ParseFault::MalformedOperandLiteral)
            },
        },
        OperandType::Number => match number {
            Some(num) => Ok(Token::Number { num }),
            None => if register.is_some() {
                Err(ParseFault::OperandKindMismatch)
            } else {
                Err(ParseFault::MalformedOperandLiteral)
            },
        },
    }
}

/// The instruction that `s` starts with, and where it ends.
pub fn scan_instruction(s: &[u8]) -> (r: Result<(usize, Opcode, Vec<Token>), ParseFault>)
    ensures
        match parse_prefix(s@) {
            Ok((at, op, operands)) => r matches Ok((n, o, v)) && n == at && o == op && v@
                == operands,
            Err(fault) => r == Err::<(usize, Opcode, Vec<Token>), ParseFault>(fault),
        },
        r matches Ok((n, o, v)) ==> n <= s.len() && well_formed(o, v@),
{
    let end = scan_token(s, 0);
    let opcode = match lookup_mnemonic(s, 0, end) {
        Some(opcode) => opcode,
        None => {
            return Err(ParseFault::UnknownMnemonic);
        },
    };
    let shape = opcode.operands().operands;
    let mut operands: Vec<Token> = Vec::new();
    let mut at = end;
    let mut k: usize = 0;
    while k < shape.len()
        invariant
            k <= shape.len(),
            end <= at <= s.len(),
            end == token_end(s@, 0),
            opcode_named(s@.subrange(0, end as int)) == Some(opcode),
            shape@ == opcode.operand_spec(),
            parse_operands(s@, end as int, shape@.take(k as int)) == Ok::<
                (int, Seq<Token>),
                ParseFault,
            >((at as int, operands@)),
        decreases shape.len() - k,
    {
        let start = scan_spaces(s, at);
        let ghost now = shape@.take(k + 1);
        assert(now.drop_last() =~= shape@.take(k as int));
        assert(now.last() == shape@[k as int]);
        if start >= s.len() {
            proof {
                assert(parse_operands(s@, end as int, now) == Err::<(int, Seq<Token>), ParseFault>(
                    ParseFault::OperandCountMismatch,
                ));
                lemma_parse_operands_fault(s@, end as int, shape@, k + 1);
            }
            return Err(ParseFault::OperandCountMismatch);
        }
        let stop = scan_token(s, start);
        match scan_operand(s, start, stop, shape[k]) {
            Err(fault) => {
                proof {
                    assert(parse_operands(s@, end as int, now) == Err::<
                        (int, Seq<Token>),
                        ParseFault,
                    >(fault));
                    lemma_parse_operands_fault(s@, end as int, shape@, k + 1);
                }
                return Err(fault);
            },
            Ok(token) => {
                operands.push(token);
                at = stop;
            },
        }
        k = k + 1;
    }
    proof {
        assert(shape@.take(k as int) =~= shape@);
        lemma_parse_operands(s@, end as int, shape@);
    }
    Ok((at, opcode, operands))
}

/// The instruction that the line `s` holds.
pub fn scan_line(s: &[u8]) -> (r: Result<(Opcode, Vec<Token>), ParseFault>)
    ensures
        match parse_line(s@) {
            Ok((op, operands)) => r matches Ok((o, v)) && o == op && v@ == operands,
            Err(fault) => r == Err::<(Opcode, Vec<Token>), ParseFault>(fault),
        },
        r matches Ok((o, v)) ==> well_formed(o, v@),
{
    match scan_instruction(s) {
        Err(fault) => Err(fault),
        Ok((at, opcode, operands)) => {
            if scan_spaces(s, at) >= s.len() {
                Ok((opcode, operands))
            } else {
                Err(ParseFault::OperandCountMismatch)
            }
        },
    }
}

} // verus!
