use regvm::instruction::{Instruction, Opcode};

#[test]
fn test_create_instruction() {
    let instruction = Instruction::new(Opcode::Hlt);
    assert_eq!(instruction.opcode, Opcode::Hlt);
}
