use regvm::assembly::{
    parse_assembly, parse_instruction, parse_lines, parse_number, parse_opcode, parse_register,
    AssembleFault, Instruction, ParseFault, Program, Token,
};
use regvm::instruction::Opcode;

fn instruction(opcode: Opcode, operands: Vec<Token>) -> Instruction {
    Instruction::new(opcode, operands).unwrap()
}

#[test]
fn test_parse_opcode() {
    let result = parse_opcode("LOAD $0 1");
    assert_eq!(result, Ok((" $0 1", Opcode::Load)));
}

#[test]
fn test_parse_register() {
    let result = parse_register("$0 1");
    assert_eq!(result, Ok((" 1", Token::Register { reg: 0 })));
}

#[test]
fn test_parse_number() {
    let result = parse_number("01");
    assert_eq!(result, Ok(("", Token::Number { num: 1 })));
}

#[test]
fn test_parse_instruction() {
    let result = parse_instruction("LOAD $0 1");

    assert_eq!(
        result,
        Ok((
            "",
            instruction(
                Opcode::Load,
                vec![Token::Register { reg: 0 }, Token::Number { num: 1 }]
            )
        ))
    );
}

#[test]
fn test_parse_lines() {
    let result = parse_lines("LOAD $0 1\nLOAD $1 2\n");

    assert_eq!(result, Ok(("", vec!["LOAD $0 1", "LOAD $1 2"])));
}

#[test]
fn test_parse_assembly() {
    let result = parse_assembly("LOAD $0 1\nLOAD $1 2\n");

    assert_eq!(
        result,
        Ok((
            "",
            vec![
                instruction(
                    Opcode::Load,
                    vec![Token::Register { reg: 0 }, Token::Number { num: 1 }]
                ),
                instruction(
                    Opcode::Load,
                    vec![Token::Register { reg: 1 }, Token::Number { num: 2 }]
                )
            ]
        ))
    );
}

#[test]
fn every_mnemonic_is_recognised() {
    let table = [
        ("HLT", Opcode::Hlt),
        ("LOAD", Opcode::Load),
        ("ADD", Opcode::Add),
        ("SUB", Opcode::Sub),
        ("MUL", Opcode::Mul),
        ("DIV", Opcode::Div),
        ("JMP", Opcode::Jmp),
        ("JMPF", Opcode::Jmpf),
        ("JMPB", Opcode::Jmpb),
        ("EQ", Opcode::Eq),
        ("NEQ", Opcode::Neq),
        ("GT", Opcode::Gt),
        ("LT", Opcode::Lt),
        ("GTQ", Opcode::Gtq),
        ("LTQ", Opcode::Ltq),
        ("JEQ", Opcode::Jeq),
        ("JNEQ", Opcode::Jneq),
        ("ALLOC", Opcode::Alloc),
        ("INC", Opcode::Inc),
        ("DEC", Opcode::Dec),
    ];
    for (name, opcode) in table {
        assert_eq!(parse_opcode(name), Ok(("", opcode)));
    }
}

#[test]
fn a_mnemonic_is_a_whole_token() {
    assert_eq!(parse_opcode("JMPF $1"), Ok((" $1", Opcode::Jmpf)));
    assert_eq!(parse_opcode("GTQ $1 $2"), Ok((" $1 $2", Opcode::Gtq)));
    assert_eq!(parse_opcode("LOADER"), Err(ParseFault::UnknownMnemonic));
    assert_eq!(parse_opcode("LOA"), Err(ParseFault::UnknownMnemonic));
    assert_eq!(parse_opcode("load"), Err(ParseFault::UnknownMnemonic));
    assert_eq!(parse_opcode(""), Err(ParseFault::UnknownMnemonic));
    assert_eq!(parse_opcode(" LOAD"), Err(ParseFault::UnknownMnemonic));
    assert_eq!(parse_opcode("IGL"), Err(ParseFault::UnknownMnemonic));
    assert_eq!(parse_opcode("LOAD\t$1"), Ok(("\t$1", Opcode::Load)));
}

#[test]
fn register_literals() {
    assert_eq!(parse_register("$255"), Ok(("", Token::Register { reg: 255 })));
    assert_eq!(parse_register("$007"), Ok(("", Token::Register { reg: 7 })));
    assert_eq!(parse_register("$31 $32"), Ok((" $32", Token::Register { reg: 31 })));
    assert_eq!(parse_register("$256"), Err(ParseFault::MalformedOperandLiteral));
    assert_eq!(parse_register("$"), Err(ParseFault::MalformedOperandLiteral));
    assert_eq!(parse_register("$1x"), Err(ParseFault::MalformedOperandLiteral));
    assert_eq!(parse_register("$-1"), Err(ParseFault::MalformedOperandLiteral));
    assert_eq!(parse_register("$1$2"), Err(ParseFault::MalformedOperandLiteral));
    assert_eq!(parse_register(""), Err(ParseFault::MalformedOperandLiteral));
    assert_eq!(parse_register("x"), Err(ParseFault::MalformedOperandLiteral));
    assert_eq!(parse_register("12"), Err(ParseFault::OperandKindMismatch));
    assert_eq!(parse_register("-12"), Err(ParseFault::OperandKindMismatch));
    assert_eq!(parse_register("-"), Err(ParseFault::MalformedOperandLiteral));
}

#[test]
fn negative_number_literals() {
    assert_eq!(parse_number("-1"), Ok(("", Token::Number { num: -1 })));
    assert_eq!(parse_number("-5 rest"), Ok((" rest", Token::Number { num: -5 })));
    assert_eq!(parse_number("-0"), Ok(("", Token::Number { num: 0 })));
    assert_eq!(parse_number("-007"), Ok(("", Token::Number { num: -7 })));
    assert_eq!(
        parse_number("-2147483648"),
        Ok(("", Token::Number { num: i32::MIN }))
    );
    assert_eq!(
        parse_number("-2147483647"),
        Ok(("", Token::Number { num: -i32::MAX }))
    );
    assert_eq!(parse_number("-2147483649"), Err(ParseFault::MalformedOperandLiteral));
    assert_eq!(
        parse_number("-99999999999999999999"),
        Err(ParseFault::MalformedOperandLiteral)
    );
    assert_eq!(parse_number("-"), Err(ParseFault::MalformedOperandLiteral));
    assert_eq!(parse_number("--1"), Err(ParseFault::MalformedOperandLiteral));
    assert_eq!(parse_number("-+1"), Err(ParseFault::MalformedOperandLiteral));
    assert_eq!(parse_number("1-"), Err(ParseFault::MalformedOperandLiteral));
    assert_eq!(parse_number("-1x"), Err(ParseFault::MalformedOperandLiteral));
    assert_eq!(parse_number("-$1"), Err(ParseFault::MalformedOperandLiteral));
    assert_eq!(parse_number("- 1"), Err(ParseFault::MalformedOperandLiteral));
}

#[test]
fn a_negative_number_is_no_register() {
    assert_eq!(parse_instruction("INC -1"), Err(ParseFault::OperandKindMismatch));
    assert_eq!(parse_instruction("LOAD -1 -1"), Err(ParseFault::OperandKindMismatch));
    assert_eq!(
        parse_assembly("LOAD $0 -1\nADD $0 -1 $2\n"),
        Err(AssembleFault {
            line: 1,
            fault: ParseFault::OperandKindMismatch,
            expected: Some(Opcode::Add)
        })
    );
    assert_eq!(
        parse_instruction("LOAD $3 -500"),
        Ok((
            "",
            instruction(
                Opcode::Load,
                vec![Token::Register { reg: 3 }, Token::Number { num: -500 }]
            )
        ))
    );
    let program = Program::from_str("LOAD $3 -500\n").ok().unwrap();
    assert_eq!(program.to_bytes(), vec![1, 3, 254, 12]);
}

#[test]
fn number_literals() {
    assert_eq!(parse_number("0"), Ok(("", Token::Number { num: 0 })));
    assert_eq!(parse_number("500 "), Ok((" ", Token::Number { num: 500 })));
    assert_eq!(
        parse_number("2147483647"),
        Ok(("", Token::Number { num: i32::MAX }))
    );
    assert_eq!(
        parse_number("0000000000002147483647"),
        Ok(("", Token::Number { num: i32::MAX }))
    );
    assert_eq!(parse_number("2147483648"), Err(ParseFault::MalformedOperandLiteral));
    assert_eq!(
        parse_number("99999999999999999999999999"),
        Err(ParseFault::MalformedOperandLiteral)
    );
    assert_eq!(parse_number("+5"), Err(ParseFault::MalformedOperandLiteral));
    assert_eq!(parse_number("12ab"), Err(ParseFault::MalformedOperandLiteral));
    assert_eq!(parse_number("1E"), Err(ParseFault::MalformedOperandLiteral));
    assert_eq!(parse_number(""), Err(ParseFault::MalformedOperandLiteral));
    assert_eq!(parse_number("$3"), Err(ParseFault::OperandKindMismatch));
    assert_eq!(parse_number("$300"), Err(ParseFault::MalformedOperandLiteral));
}

#[test]
fn an_instruction_is_a_prefix() {
    assert_eq!(
        parse_instruction("HLT"),
        Ok(("", instruction(Opcode::Hlt, vec![])))
    );
    assert_eq!(
        parse_instruction("INC $3 rest"),
        Ok((" rest", instruction(Opcode::Inc, vec![Token::Register { reg: 3 }])))
    );
    assert_eq!(
        parse_instruction("ADD  $0\t$1   $2  "),
        Ok((
            "  ",
            instruction(
                Opcode::Add,
                vec![
                    Token::Register { reg: 0 },
                    Token::Register { reg: 1 },
                    Token::Register { reg: 2 }
                ]
            )
        ))
    );
    assert_eq!(parse_instruction("NOP"), Err(ParseFault::UnknownMnemonic));
    assert_eq!(parse_instruction("ADD $0 $1"), Err(ParseFault::OperandCountMismatch));
    assert_eq!(parse_instruction("LOAD"), Err(ParseFault::OperandCountMismatch));
    assert_eq!(parse_instruction("LOAD $0 $1"), Err(ParseFault::OperandKindMismatch));
    assert_eq!(parse_instruction("LOAD 0 1"), Err(ParseFault::OperandKindMismatch));
    assert_eq!(parse_instruction("LOAD $0 one"), Err(ParseFault::MalformedOperandLiteral));
    // the first operand that is wrong decides
    assert_eq!(parse_instruction("ADD $x 1"), Err(ParseFault::MalformedOperandLiteral));
    assert_eq!(parse_instruction("ADD 1 $x"), Err(ParseFault::OperandKindMismatch));
}

#[test]
fn text_without_a_final_terminator_is_refused() {
    let missing = |line| AssembleFault {
        line,
        fault: ParseFault::MissingLineTerminator,
        expected: None,
    };
    assert_eq!(parse_lines(""), Err(missing(0)));
    assert_eq!(parse_lines("HLT"), Err(missing(0)));
    assert_eq!(parse_lines("HLT\nHLT"), Err(missing(1)));
    assert_eq!(parse_lines("HLT\n\nHLT\nLOAD $0"), Err(missing(3)));
    // the terminator is asked for before any line is read
    assert_eq!(parse_assembly("NOP\nHLT"), Err(missing(1)));
    assert_eq!(Program::from_str("LOAD $0 500").err(), Some(missing(0)));
}

#[test]
fn lines_are_split_at_every_terminator() {
    assert_eq!(parse_lines("\n"), Ok(("", vec![""])));
    assert_eq!(parse_lines("a\n\nb\n"), Ok(("", vec!["a", "", "b"])));
    assert_eq!(parse_lines("HLT\r\n"), Ok(("", vec!["HLT\r"])));
    assert_eq!(parse_lines("é ü\nz\n"), Ok(("", vec!["é ü", "z"])));
}

#[test]
fn the_first_faulty_line_is_named() {
    assert_eq!(
        parse_assembly("LOAD $0 1\nNOP\nADD\n"),
        Err(AssembleFault {
            line: 1,
            fault: ParseFault::UnknownMnemonic,
            expected: None
        })
    );
    assert_eq!(
        parse_assembly("LOAD $0 1\nADD $0 $1\nNOP\n"),
        Err(AssembleFault {
            line: 1,
            fault: ParseFault::OperandCountMismatch,
            expected: Some(Opcode::Add)
        })
    );
    assert_eq!(
        parse_assembly("HLT extra\n"),
        Err(AssembleFault {
            line: 0,
            fault: ParseFault::OperandCountMismatch,
            expected: Some(Opcode::Hlt)
        })
    );
    assert_eq!(
        parse_assembly("HLT\nHLT\nEQ $1 2\n"),
        Err(AssembleFault {
            line: 2,
            fault: ParseFault::OperandKindMismatch,
            expected: Some(Opcode::Eq)
        })
    );
    assert_eq!(
        parse_assembly("JMP $999\n"),
        Err(AssembleFault {
            line: 0,
            fault: ParseFault::MalformedOperandLiteral,
            expected: Some(Opcode::Jmp)
        })
    );
    assert_eq!(
        parse_assembly("\n"),
        Err(AssembleFault {
            line: 0,
            fault: ParseFault::UnknownMnemonic,
            expected: None
        })
    );
    assert_eq!(
        parse_assembly(" HLT\n"),
        Err(AssembleFault {
            line: 0,
            fault: ParseFault::UnknownMnemonic,
            expected: None
        })
    );
}

#[test]
fn separators_at_the_end_of_a_line_are_passed_over() {
    let program = Program::from_str("LOAD $0 1 \t\nHLT\r\n").ok().unwrap();
    assert_eq!(program.len(), 2);
    assert_eq!(program.to_bytes(), vec![1, 0, 0, 1, 0]);
}

#[test]
fn an_instruction_is_built_only_with_the_operands_it_takes() {
    assert!(Instruction::new(Opcode::Hlt, vec![]).is_some());
    assert!(Instruction::new(Opcode::Hlt, vec![Token::Register { reg: 0 }]).is_none());
    assert!(Instruction::new(Opcode::Igl, vec![]).is_none());
    assert!(Instruction::new(Opcode::Load, vec![Token::Register { reg: 0 }]).is_none());
    assert!(Instruction::new(
        Opcode::Load,
        vec![Token::Number { num: 0 }, Token::Register { reg: 0 }]
    )
    .is_none());
    let load = Instruction::new(
        Opcode::Load,
        vec![Token::Register { reg: 40 }, Token::Number { num: 7 }],
    )
    .unwrap();
    assert_eq!(load.opcode(), Opcode::Load);
    assert_eq!(
        load.operands(),
        &vec![Token::Register { reg: 40 }, Token::Number { num: 7 }]
    );
}

#[test]
fn instructions_are_encoded_byte_by_byte() {
    let bytes = |opcode, operands| instruction(opcode, operands).to_bytes();
    assert_eq!(bytes(Opcode::Hlt, vec![]), vec![0]);
    assert_eq!(
        bytes(
            Opcode::Load,
            vec![Token::Register { reg: 0 }, Token::Number { num: 500 }]
        ),
        vec![1, 0, 1, 244]
    );
    assert_eq!(
        bytes(
            Opcode::Div,
            vec![
                Token::Register { reg: 9 },
                Token::Register { reg: 8 },
                Token::Register { reg: 255 }
            ]
        ),
        vec![5, 9, 8, 255]
    );
    assert_eq!(
        bytes(
            Opcode::Ltq,
            vec![Token::Register { reg: 1 }, Token::Register { reg: 2 }]
        ),
        vec![14, 1, 2]
    );
    assert_eq!(bytes(Opcode::Jneq, vec![Token::Register { reg: 3 }]), vec![16, 3]);
    assert_eq!(bytes(Opcode::Dec, vec![Token::Register { reg: 3 }]), vec![19, 3]);
}

#[test]
fn a_number_keeps_its_low_sixteen_bits() {
    let load = |num| {
        instruction(
            Opcode::Load,
            vec![Token::Register { reg: 1 }, Token::Number { num }],
        )
        .to_bytes()
    };
    assert_eq!(load(0), vec![1, 1, 0, 0]);
    assert_eq!(load(255), vec![1, 1, 0, 255]);
    assert_eq!(load(256), vec![1, 1, 1, 0]);
    assert_eq!(load(32767), vec![1, 1, 127, 255]);
    assert_eq!(load(32768), vec![1, 1, 128, 0]);
    assert_eq!(load(65535), vec![1, 1, 255, 255]);
    assert_eq!(load(65536), vec![1, 1, 0, 0]);
    assert_eq!(load(70000), vec![1, 1, 17, 112]);
    assert_eq!(load(i32::MAX), vec![1, 1, 255, 255]);
    assert_eq!(load(-1), vec![1, 1, 255, 255]);
    assert_eq!(load(-2), vec![1, 1, 255, 254]);
    assert_eq!(load(-32768), vec![1, 1, 128, 0]);
    assert_eq!(load(-32769), vec![1, 1, 127, 255]);
    assert_eq!(load(i32::MIN), vec![1, 1, 0, 0]);
}

#[test]
fn a_program_is_its_instructions_in_order() {
    let mut program = Program::new();
    assert_eq!(program.len(), 0);
    assert_eq!(program.to_bytes(), Vec::<u8>::new());
    program.add_instruction(instruction(
        Opcode::Load,
        vec![Token::Register { reg: 0 }, Token::Number { num: 10 }],
    ));
    program.add_instruction(instruction(Opcode::Alloc, vec![Token::Register { reg: 0 }]));
    program.add_instruction(instruction(Opcode::Hlt, vec![]));
    assert_eq!(program.len(), 3);
    assert_eq!(program.to_bytes(), vec![1, 0, 0, 10, 17, 0, 0]);
    let assembled = Program::from_str("LOAD $0 10\nALLOC $0\nHLT\n").ok().unwrap();
    assert_eq!(assembled.to_bytes(), program.to_bytes());
}
