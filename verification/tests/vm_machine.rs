use regvm::assembly::Program;
use regvm::instruction::{Opcode, OperandType, REGISTER_COUNT};
use regvm::vm::{Status, Vm, VmFault};

fn machine(program: Vec<u8>) -> Vm {
    let mut vm = Vm::new();
    vm.load(program);
    vm
}

fn assembled(source: &str) -> Vm {
    machine(Program::from_str(source).ok().unwrap().to_bytes())
}

const ALL_OPCODES: [Opcode; 20] = [
    Opcode::Hlt,
    Opcode::Load,
    Opcode::Add,
    Opcode::Sub,
    Opcode::Mul,
    Opcode::Div,
    Opcode::Jmp,
    Opcode::Jmpf,
    Opcode::Jmpb,
    Opcode::Eq,
    Opcode::Neq,
    Opcode::Gt,
    Opcode::Lt,
    Opcode::Gtq,
    Opcode::Ltq,
    Opcode::Jeq,
    Opcode::Jneq,
    Opcode::Alloc,
    Opcode::Inc,
    Opcode::Dec,
];

#[test]
fn the_size_of_an_opcode_is_one_and_the_widths_of_its_operands() {
    for opcode in ALL_OPCODES {
        let widths: usize = opcode
            .operands()
            .operands
            .iter()
            .map(|kind| kind.width())
            .sum();
        assert_eq!(opcode.size(), 1 + widths);
    }
    assert_eq!(OperandType::Register.width(), 1);
    assert_eq!(OperandType::Number.width(), 2);
    assert_eq!(Opcode::Hlt.size(), 1);
    assert_eq!(Opcode::Load.size(), 4);
    assert_eq!(Opcode::Div.size(), 4);
    assert_eq!(Opcode::Ltq.size(), 3);
    assert_eq!(Opcode::Jneq.size(), 2);
    assert_eq!(Opcode::Dec.size(), 2);
}

#[test]
fn every_opcode_has_its_own_byte() {
    for (index, opcode) in ALL_OPCODES.iter().enumerate() {
        assert_eq!(opcode.to_byte() as usize, index);
        assert_eq!(Opcode::from(index as u8), *opcode);
    }
    for byte in 20..=255u8 {
        assert_eq!(Opcode::from(byte), Opcode::Igl);
    }
}

#[test]
fn operands_are_listed_in_order() {
    assert_eq!(Opcode::Hlt.operands().operands, vec![]);
    assert_eq!(
        Opcode::Load.operands().operands,
        vec![OperandType::Register, OperandType::Number]
    );
    assert_eq!(
        Opcode::Mul.operands().operands,
        vec![OperandType::Register; 3]
    );
    assert_eq!(
        Opcode::Gtq.operands().operands,
        vec![OperandType::Register; 2]
    );
    assert_eq!(Opcode::Alloc.operands().operands, vec![OperandType::Register]);
}

#[test]
fn a_new_machine_is_all_zero() {
    let vm = Vm::new();
    assert_eq!(vm.registers, [0; REGISTER_COUNT]);
    assert_eq!(vm.pc, 0);
    assert!(vm.program.is_empty());
    assert!(vm.heap.is_empty());
    assert_eq!(vm.rem, 0);
    assert_eq!(vm.cmp, 0);
}

#[test]
fn load_round_trip() {
    let mut vm = assembled("LOAD $0 500\n");
    assert_eq!(vm.run(), Status::Halted);
    assert_eq!(vm.registers[0], 500);
    assert_eq!(vm.pc, 4);
}

#[test]
fn add_leaves_its_operands() {
    let mut vm = assembled("LOAD $0 250\nLOAD $1 250\nADD $0 $1 $2\n");
    assert_eq!(vm.run(), Status::Halted);
    let mut expected = [0; REGISTER_COUNT];
    expected[0] = 250;
    expected[1] = 250;
    expected[2] = 500;
    assert_eq!(vm.registers, expected);
}

#[test]
fn div_keeps_the_remainder() {
    let mut vm = assembled("LOAD $0 10\nLOAD $1 3\nDIV $0 $1 $2\n");
    assert_eq!(vm.run(), Status::Halted);
    assert_eq!(vm.registers[2], 3);
    assert_eq!(vm.rem, 1);
}

#[test]
fn jeq_skips_what_it_jumps_over() {
    let source = "LOAD $0 17\nLOAD $1 17\nEQ $0 $1\nJEQ $0\nLOAD $1 99\nHLT\n";
    let mut vm = assembled(source);
    assert_eq!(vm.program.len(), 18);
    assert_eq!(vm.run(), Status::Halted);
    assert_eq!(vm.cmp, 1);
    assert_eq!(vm.registers[1], 17);
    assert_eq!(vm.pc, 18);
}

#[test]
fn jneq_jumps_when_the_flag_is_clear() {
    let source = "LOAD $0 17\nLOAD $1 4\nEQ $0 $1\nJNEQ $0\nLOAD $1 99\nHLT\n";
    let mut vm = assembled(source);
    assert_eq!(vm.run(), Status::Halted);
    assert_eq!(vm.cmp, 0);
    assert_eq!(vm.registers[1], 4);

    let source = "LOAD $0 17\nLOAD $1 17\nEQ $0 $1\nJNEQ $0\nLOAD $1 99\nHLT\n";
    let mut vm = assembled(source);
    assert_eq!(vm.run(), Status::Halted);
    assert_eq!(vm.cmp, 1);
    assert_eq!(vm.registers[1], 99);
}

#[test]
fn alloc_grows_the_heap_with_zero_bytes() {
    let mut vm = assembled("LOAD $0 10\nALLOC $0\n");
    assert_eq!(vm.run(), Status::Halted);
    assert_eq!(vm.heap, vec![0u8; 10]);
    vm.load(Program::from_str("LOAD $1 3\nALLOC $1\nALLOC $2\n").ok().unwrap().to_bytes());
    assert_eq!(vm.run(), Status::Halted);
    assert_eq!(vm.heap, vec![0u8; 13]);
}

#[test]
fn an_illegal_opcode_stops_the_machine_one_byte_on() {
    for byte in [20u8, 100, 255] {
        let mut vm = machine(vec![byte, 0, 0, 0]);
        assert_eq!(vm.run_once(), Status::Fault(VmFault::IllegalOpcode));
        assert_eq!(vm.pc, 1);
        assert_eq!(vm.registers, [0; REGISTER_COUNT]);
    }
    let mut vm = machine(vec![1, 0, 0, 7, 255, 1, 0, 0, 9]);
    assert_eq!(vm.run(), Status::Fault(VmFault::IllegalOpcode));
    assert_eq!(vm.pc, 5);
    assert_eq!(vm.registers[0], 7);
}

#[test]
fn single_steps_and_a_run_agree() {
    let source = "LOAD $0 250\nLOAD $1 3\nADD $0 $1 $2\nDIV $2 $1 $3\nINC $3\nALLOC $1\n";
    let bytes = Program::from_str(source).ok().unwrap().to_bytes();
    let mut stepped = machine(bytes.clone());
    for _ in 0..6 {
        assert_eq!(stepped.run_once(), Status::Continue);
    }
    let mut ran = machine(bytes.clone());
    assert_eq!(ran.run(), Status::Halted);
    assert_eq!(stepped.registers, ran.registers);
    assert_eq!(stepped.pc, ran.pc);
    assert_eq!(stepped.heap, ran.heap);
    assert_eq!(stepped.rem, ran.rem);
    assert_eq!(stepped.cmp, ran.cmp);
    assert_eq!(stepped.program, ran.program);
    // one more step finds the end of the program and changes nothing
    assert_eq!(stepped.run_once(), Status::Halted);
    assert_eq!(stepped.pc, ran.pc);
    assert_eq!(ran.registers[3], 85);

    let mut bounded = machine(bytes);
    assert_eq!(bounded.run_bounded(4), Status::Continue);
    assert_eq!(bounded.pc, 16);
    assert_eq!(bounded.run_bounded(100), Status::Halted);
    assert_eq!(bounded.registers, ran.registers);
}

#[test]
fn a_run_stops_at_its_limit() {
    // JMP $0 with register 0 at zero jumps to itself for ever
    let mut vm = machine(vec![6, 0]);
    assert_eq!(vm.run_bounded(1000), Status::Continue);
    assert_eq!(vm.pc, 0);
    assert_eq!(vm.run_bounded(0), Status::Continue);
}

#[test]
fn hlt_moves_past_itself() {
    let mut vm = machine(vec![0, 18, 5]);
    assert_eq!(vm.run(), Status::Halted);
    assert_eq!(vm.pc, 1);
    // the machine goes on from there if it is asked to
    assert_eq!(vm.run_once(), Status::Continue);
    assert_eq!(vm.registers[5], 1);
    assert_eq!(vm.run_once(), Status::Halted);
    assert_eq!(vm.pc, 3);
}

#[test]
fn an_empty_program_is_halted() {
    let mut vm = Vm::new();
    assert_eq!(vm.run_once(), Status::Halted);
    assert_eq!(vm.run(), Status::Halted);
    assert_eq!(vm.pc, 0);
}

#[test]
fn bytes_are_added_without_a_reset() {
    let mut vm = Vm::new();
    for byte in [1, 3, 1, 0] {
        vm.add_byte(byte);
    }
    assert_eq!(vm.run_once(), Status::Continue);
    assert_eq!(vm.registers[3], 256);
    for byte in [18, 3] {
        vm.add_byte(byte);
    }
    assert_eq!(vm.pc, 4);
    assert_eq!(vm.run_once(), Status::Continue);
    assert_eq!(vm.registers[3], 257);
    vm.load(vec![19, 3]);
    assert_eq!(vm.pc, 0);
    assert_eq!(vm.registers[3], 257);
    assert_eq!(vm.run(), Status::Halted);
    assert_eq!(vm.registers[3], 256);
}

#[test]
fn a_register_that_does_not_exist_is_a_fault() {
    let programs: Vec<Vec<u8>> = vec![
        vec![1, 32, 0, 1],
        vec![2, 32, 0, 0],
        vec![3, 0, 32, 0],
        vec![4, 0, 0, 32],
        vec![5, 0, 0, 255],
        vec![6, 32],
        vec![7, 40],
        vec![8, 50],
        vec![9, 32, 0],
        vec![10, 0, 32],
        vec![11, 200, 0],
        vec![12, 0, 200],
        vec![13, 32, 32],
        vec![14, 0, 99],
        vec![15, 32],
        vec![16, 32],
        vec![17, 32],
        vec![18, 32],
        vec![19, 32],
    ];
    for program in programs {
        let mut vm = machine(program.clone());
        vm.registers[0] = 1;
        assert_eq!(
            vm.run_once(),
            Status::Fault(VmFault::InvalidRegisterIndex),
            "{:?}",
            program
        );
        assert_eq!(vm.pc, 0);
        assert_eq!(vm.registers[0], 1);
        assert_eq!(vm.cmp, 0);
        assert!(vm.heap.is_empty());
    }
    // register 31 is the last one
    let mut vm = machine(vec![1, 31, 0, 9]);
    assert_eq!(vm.run_once(), Status::Continue);
    assert_eq!(vm.registers[31], 9);
}

#[test]
fn a_wrong_register_comes_before_a_zero_divisor() {
    let mut vm = machine(vec![5, 0, 1, 32]);
    assert_eq!(vm.run_once(), Status::Fault(VmFault::InvalidRegisterIndex));
}

#[test]
fn division_by_zero_is_a_fault() {
    let mut vm = machine(vec![1, 0, 0, 7, 5, 0, 1, 2, 18, 0]);
    vm.rem = 9;
    assert_eq!(vm.run(), Status::Fault(VmFault::DivisionByZero));
    assert_eq!(vm.pc, 4);
    assert_eq!(vm.registers[2], 0);
    assert_eq!(vm.rem, 9);
    // the fault stays
    assert_eq!(vm.run(), Status::Fault(VmFault::DivisionByZero));
    assert_eq!(vm.pc, 4);
}

#[test]
fn a_program_that_ends_too_early_is_a_fault() {
    for program in [
        vec![1u8],
        vec![1, 0],
        vec![1, 0, 0],
        vec![2, 0, 1],
        vec![9, 0],
        vec![6],
        vec![17],
        vec![18],
    ] {
        let mut vm = machine(program);
        assert_eq!(vm.run_once(), Status::Fault(VmFault::ProgramUnderrun));
        assert_eq!(vm.pc, 0);
        assert_eq!(vm.registers, [0; REGISTER_COUNT]);
    }
    let mut vm = machine(vec![18, 0, 1, 0, 0]);
    assert_eq!(vm.run(), Status::Fault(VmFault::ProgramUnderrun));
    assert_eq!(vm.pc, 2);
    assert_eq!(vm.registers[0], 1);
}

#[test]
fn the_heap_does_not_grow_by_a_negative_size() {
    let mut vm = machine(vec![17, 0]);
    vm.registers[0] = -1;
    assert_eq!(vm.run_once(), Status::Fault(VmFault::HeapGrowthOverflow));
    assert_eq!(vm.pc, 0);
    assert!(vm.heap.is_empty());
    vm.registers[0] = i32::MIN;
    assert_eq!(vm.run_once(), Status::Fault(VmFault::HeapGrowthOverflow));
    vm.registers[0] = 0;
    assert_eq!(vm.run_once(), Status::Continue);
    assert!(vm.heap.is_empty());
    assert_eq!(vm.pc, 2);
}

#[test]
fn the_heap_keeps_what_it_holds() {
    let mut vm = machine(vec![17, 0, 17, 0]);
    vm.registers[0] = 2;
    vm.heap = vec![7, 8];
    assert_eq!(vm.run(), Status::Halted);
    assert_eq!(vm.heap, vec![7, 8, 0, 0, 0, 0]);
}

#[test]
fn load_sign_extends() {
    let mut vm = machine(vec![1, 0, 255, 255, 1, 1, 128, 0, 1, 2, 127, 255]);
    assert_eq!(vm.run(), Status::Halted);
    assert_eq!(vm.registers[0], -1);
    assert_eq!(vm.registers[1], -32768);
    assert_eq!(vm.registers[2], 32767);
    let mut vm = assembled("LOAD $0 65535\nLOAD $1 70000\n");
    assert_eq!(vm.run(), Status::Halted);
    assert_eq!(vm.registers[0], -1);
    assert_eq!(vm.registers[1], 4464);
}

#[test]
fn arithmetic_wraps_around() {
    let run = |opcode: u8, a: i32, b: i32| {
        let mut vm = machine(vec![opcode, 0, 1, 2]);
        vm.registers[0] = a;
        vm.registers[1] = b;
        assert_eq!(vm.run_once(), Status::Continue);
        assert_eq!(vm.pc, 4);
        (vm.registers[2], vm.rem)
    };
    assert_eq!(run(2, i32::MAX, 1).0, i32::MIN);
    assert_eq!(run(2, -5, 3).0, -2);
    assert_eq!(run(3, i32::MIN, 1).0, i32::MAX);
    assert_eq!(run(3, 3, 5).0, -2);
    assert_eq!(run(4, 65536, 65536).0, 0);
    assert_eq!(run(4, 65537, 65537).0, 131073);
    assert_eq!(run(4, -7, 6).0, -42);
    assert_eq!(run(4, i32::MIN, -1).0, i32::MIN);
    assert_eq!(run(5, 7, 2), (3, 1));
    assert_eq!(run(5, -7, 2), (-3, u32::MAX));
    assert_eq!(run(5, 7, -2), (-3, 1));
    assert_eq!(run(5, -7, -2), (3, u32::MAX));
    assert_eq!(run(5, 0, 5), (0, 0));
    assert_eq!(run(5, -9, 3), (-3, 0));
    assert_eq!(run(5, i32::MIN, -1), (i32::MIN, 0));
    assert_eq!(run(5, i32::MIN, 1), (i32::MIN, 0));
    assert_eq!(run(5, i32::MIN, 3), (-715827882, 0xffff_fffe));
    assert_eq!(run(5, i32::MAX, i32::MIN), (0, i32::MAX as u32));
}

#[test]
fn inc_and_dec_wrap_around() {
    let mut vm = machine(vec![18, 4, 19, 5, 18, 6, 19, 6]);
    vm.registers[4] = i32::MAX;
    vm.registers[5] = i32::MIN;
    vm.registers[6] = 41;
    assert_eq!(vm.run(), Status::Halted);
    assert_eq!(vm.registers[4], i32::MIN);
    assert_eq!(vm.registers[5], i32::MAX);
    assert_eq!(vm.registers[6], 41);
}

#[test]
fn comparisons_are_signed() {
    let flag = |opcode: u8, a: i32, b: i32| {
        let mut vm = machine(vec![opcode, 7, 8]);
        vm.registers[7] = a;
        vm.registers[8] = b;
        vm.cmp = 1 - (a == b) as u32;
        assert_eq!(vm.run_once(), Status::Continue);
        assert_eq!(vm.pc, 3);
        vm.cmp
    };
    assert_eq!(flag(9, -1, -1), 1);
    assert_eq!(flag(9, -1, 1), 0);
    assert_eq!(flag(10, -1, 1), 1);
    assert_eq!(flag(10, 4, 4), 0);
    assert_eq!(flag(11, 1, -1), 1);
    assert_eq!(flag(11, -1, 1), 0);
    assert_eq!(flag(11, 3, 3), 0);
    assert_eq!(flag(12, i32::MIN, i32::MAX), 1);
    assert_eq!(flag(12, 1, -1), 0);
    assert_eq!(flag(12, 3, 3), 0);
    assert_eq!(flag(13, 3, 3), 1);
    assert_eq!(flag(13, -2, -1), 0);
    assert_eq!(flag(14, 3, 3), 1);
    assert_eq!(flag(14, -1, -2), 0);
}

#[test]
fn the_flag_stays_until_the_next_comparison() {
    let mut vm = assembled("EQ $0 $1\nLOAD $0 7\nINC $1\nALLOC $1\n");
    assert_eq!(vm.run(), Status::Halted);
    assert_eq!(vm.cmp, 1);
}

#[test]
fn jumps_count_bytes() {
    let jump = |opcode: u8, at: usize, value: i32| {
        let mut program = vec![0u8; at];
        program.extend([opcode, 3]);
        let mut vm = machine(program);
        vm.pc = at;
        vm.registers[3] = value;
        assert_eq!(vm.run_once(), Status::Continue);
        vm.pc
    };
    assert_eq!(jump(6, 10, 4), 4);
    assert_eq!(jump(6, 10, 0), 0);
    assert_eq!(jump(6, 0, 1000), 1000);
    assert_eq!(jump(7, 10, 0), 12);
    assert_eq!(jump(7, 10, 6), 18);
    assert_eq!(jump(7, 10, -12), 0);
    assert_eq!(jump(8, 10, 0), 12);
    assert_eq!(jump(8, 10, 2), 10);
    assert_eq!(jump(8, 10, 12), 0);
    assert_eq!(jump(8, 10, -3), 15);
    // the program counter wraps around like any usize
    assert_eq!(jump(6, 0, -1), usize::MAX);
    assert_eq!(jump(7, 0, -3), usize::MAX);
    assert_eq!(jump(8, 0, 3), usize::MAX);
    assert_eq!(jump(8, 0, i32::MIN), 2 + (1usize << 31));
    assert_eq!(jump(6, 0, i32::MIN), usize::MAX - (i32::MAX as usize));
}

#[test]
fn a_jump_past_the_end_halts_at_the_next_step() {
    let mut vm = machine(vec![1, 0, 0, 100, 6, 0, 18, 1]);
    assert_eq!(vm.run(), Status::Halted);
    assert_eq!(vm.pc, 100);
    assert_eq!(vm.registers[1], 0);
}

#[test]
fn a_zero_byte_after_an_instruction_is_hlt() {
    let mut vm = machine(vec![
        1, 0, 0, 5, // LOAD 5 to register 0
        1, 1, 0, 5, // LOAD 5 to register 1
        9, 0, 1, 0, // EQ register 0 and register 1, then HLT
        15, 0, 0, 0, // never reached
    ]);
    assert_eq!(vm.run(), Status::Halted);
    assert_eq!(vm.pc, 12);
    assert_eq!(vm.cmp, 1);
    assert_eq!(vm.registers[0], 5);
    assert_eq!(vm.registers[1], 5);
}

#[test]
fn the_machine_reads_back_what_the_assembler_wrote() {
    let source = "LOAD $31 32767\nLOAD $30 1\nADD $31 $30 $29\nSUB $29 $30 $28\nMUL $28 $30 $27\n\
                  DIV $27 $30 $26\nGT $29 $28\nLT $29 $28\nGTQ $26 $27\nLTQ $26 $27\nNEQ $26 $27\n\
                  DEC $26\nJMPF $0\nJMPB $0\nHLT\nINC $1\n";
    let mut vm = assembled(source);
    assert_eq!(vm.run(), Status::Halted);
    assert_eq!(vm.registers[29], 32768);
    assert_eq!(vm.registers[28], 32767);
    assert_eq!(vm.registers[27], 32767);
    assert_eq!(vm.registers[26], 32766);
    assert_eq!(vm.rem, 0);
    assert_eq!(vm.cmp, 0);
    assert_eq!(vm.registers[1], 0);
    assert_eq!(vm.pc, vm.program.len() - 2);
}

#[test]
fn a_negative_immediate_is_loaded_as_it_is_written() {
    let mut vm = assembled("LOAD $0 -1\nLOAD $1 -32768\nLOAD $2 -32769\nLOAD $3 10\nADD $3 $0 $4\n");
    assert_eq!(vm.run(), Status::Halted);
    assert_eq!(vm.registers[0], -1);
    assert_eq!(vm.registers[1], -32768);
    // a number outside sixteen bits keeps its low sixteen bits
    assert_eq!(vm.registers[2], 32767);
    assert_eq!(vm.registers[4], 9);
}
