//! The virtual machine: its state, what one instruction does to it, and the
//! loop that runs a program.
use crate::assembly::encoding::{
    decode_operands, encode, encode_operands, encode_program, lemma_decode_inverts_encode,
    lemma_encode_len, lemma_encode_program_split, normalized, well_formed, Token,
};
use crate::instruction::{
    byte_from_opcode, lemma_encoded_size, opcode_from_byte, total_width, Opcode, OperandType,
    REGISTER_COUNT,
};
use crate::word::{
    address, address_backward, address_forward, as_unsigned, divide, immediate, reinterpret,
    sign_extend16, trunc_div, trunc_rem, wrap32, wrap_address,
};
use vstd::prelude::*;

verus! {

/// Why the machine refused an instruction.
#[derive(Debug, PartialEq, Eq, Clone, Copy, Structural)]
pub enum VmFault {
    /// The byte at the program counter stands for no opcode.
    IllegalOpcode,
    /// A register operand is not below the number of registers.
    InvalidRegisterIndex,
    /// `DIV` with a divisor of zero.
    DivisionByZero,
    /// `ALLOC` with a negative size, or one that the heap cannot grow by.
    HeapGrowthOverflow,
    /// The program ends before the operands of the opcode do.
    ProgramUnderrun,
}

/// How one step of the machine ended.
#[derive(Debug, PartialEq, Eq, Clone, Copy, Structural)]
pub enum Status {
    /// An instruction was executed and the machine can go on.
    Continue,
    /// The machine executed `HLT`, or the program counter stands at or past
    /// the end of the program.
    Halted,
    /// The machine stopped on a fault.
    Fault(VmFault),
}

/// The state of a machine, as mathematics sees it.
#[verifier::ext_equal]
pub struct VmState {
    pub registers: Seq<i32>,
    pub pc: usize,
    pub program: Seq<u8>,
    pub heap: Seq<u8>,
    pub remainder: u32,
    pub flag: u32,
}

impl VmState {
    /// What every machine state satisfies: the register file has its fixed
    /// size, and program and heap have lengths that a machine can hold.
    pub open spec fn valid(self) -> bool {
        &&& self.registers.len() == REGISTER_COUNT
        &&& self.program.len() <= usize::MAX
        &&& self.heap.len() <= usize::MAX
    }

    /// The state of a new machine: everything zero, everything empty.
    pub open spec fn initial() -> VmState {
        VmState {
            registers: Seq::new(REGISTER_COUNT as nat, |i: int| 0i32),
            pc: 0,
            program: Seq::empty(),
            heap: Seq::empty(),
            remainder: 0,
            flag: 0,
        }
    }
}

/// The index of the register that operand `k` names.
pub open spec fn register_of(operands: Seq<Token>, k: int) -> int {
    match operands[k] {
        Token::Register { reg } => reg as int,
        Token::Number { .. } => 0,
    }
}

/// The number that operand `k` holds.
pub open spec fn number_of(operands: Seq<Token>, k: int) -> i32 {
    match operands[k] {
        Token::Register { .. } => 0,
        Token::Number { num } => num,
    }
}

/// Whether every register operand names a register that exists.
pub open spec fn registers_exist(operands: Seq<Token>) -> bool {
    forall|k: int| 0 <= k < operands.len() ==> #[trigger] register_of(operands, k) < REGISTER_COUNT
}

/// The comparison flag for a comparison that came out as `holds`.
pub open spec fn flag_of(holds: bool) -> u32 {
    if holds {
        1
    } else {
        0
    }
}

/// The largest length that the heap can have.
pub open spec fn heap_limit() -> int {
    isize::MAX as int
}

/// `s` with the program counter moved past an instruction with opcode `op`.
pub open spec fn advance(s: VmState, op: Opcode) -> VmState {
    VmState { pc: (s.pc + op.encoded_size()) as usize, ..s }
}

/// `s` with register `r` set to `v`.
pub open spec fn with_register(s: VmState, r: int, v: i32) -> VmState {
    VmState { registers: s.registers.update(r, v), ..s }
}

/// `s` with the program counter at `target`.
pub open spec fn with_pc(s: VmState, target: usize) -> VmState {
    VmState { pc: target, ..s }
}

/// What `ADD`, `SUB`, `MUL` and `DIV` do: the third operand's register takes
/// the result, which wraps around at 32 bits. `DIV` rounds toward zero, puts
/// the remainder's bits into the remainder register, and faults on a divisor
/// of zero.
pub open spec fn arithmetic(s: VmState, op: Opcode, operands: Seq<Token>) -> (VmState, Status) {
    let a = s.registers[register_of(operands, 0)] as int;
    let b = s.registers[register_of(operands, 1)] as int;
    let dst = register_of(operands, 2);
    let next = advance(s, op);
    if op == Opcode::Add {
        (with_register(next, dst, wrap32(a + b)), Status::Continue)
    } else if op == Opcode::Sub {
        (with_register(next, dst, wrap32(a - b)), Status::Continue)
    } else if op == Opcode::Mul {
        (with_register(next, dst, wrap32(a * b)), Status::Continue)
    } else if b == 0 {
        (s, Status::Fault(VmFault::DivisionByZero))
    } else {
        (
            VmState {
                remainder: as_unsigned(trunc_rem(a, b)),
                ..with_register(next, dst, wrap32(trunc_div(a, b)))
            },
            Status::Continue,
        )
    }
}

/// Whether the comparison `op` holds of `a` and `b`.
pub open spec fn relation(op: Opcode, a: i32, b: i32) -> bool {
    match op {
        Opcode::Eq => a == b,
        Opcode::Neq => a != b,
        Opcode::Gt => a > b,
        Opcode::Lt => a < b,
        Opcode::Gtq => a >= b,
        _ => a <= b,
    }
}

/// What `EQ`, `NEQ`, `GT`, `LT`, `GTQ` and `LTQ` do: the flag becomes 1 if the
/// comparison holds of the two registers, else 0.
pub open spec fn compare(s: VmState, op: Opcode, operands: Seq<Token>) -> (VmState, Status) {
    let a = s.registers[register_of(operands, 0)];
    let b = s.registers[register_of(operands, 1)];
    (VmState { flag: flag_of(relation(op, a, b)), ..advance(s, op) }, Status::Continue)
}

/// What the jumps do. `JMP` continues at the byte offset that the register
/// holds, `JMPF` and `JMPB` that many bytes after or before the end of the jump
/// instruction; `JEQ` and `JNEQ` jump as `JMP` does if the flag is 1, or 0, and
/// go on with the next instruction if it is not. The program counter wraps
/// around like any `usize`.
pub open spec fn jump(s: VmState, op: Opcode, operands: Seq<Token>) -> (VmState, Status) {
    let v = s.registers[register_of(operands, 0)] as int;
    let next = advance(s, op);
    let target = match op {
        Opcode::Jmp => wrap_address(v),
        Opcode::Jmpf => wrap_address(next.pc + v),
        Opcode::Jmpb => wrap_address(next.pc - v),
        Opcode::Jeq => if s.flag == 1 {
            wrap_address(v)
        } else {
            next.pc
        },
        _ => if s.flag == 0 {
            wrap_address(v)
        } else {
            next.pc
        },
    };
    (with_pc(s, target), Status::Continue)
}

/// What `ALLOC` does: the heap grows by as many zero bytes as the register
/// says. A negative number, or one that takes the heap past `heap_limit()`,
/// is a fault.
pub open spec fn allocate(s: VmState, operands: Seq<Token>) -> (VmState, Status) {
    let more = s.registers[register_of(operands, 0)];
    if more < 0 || s.heap.len() + more > heap_limit() {
        (s, Status::Fault(VmFault::HeapGrowthOverflow))
    } else {
        (
            VmState {
                heap: s.heap + Seq::new(more as nat, |i: int| 0u8),
                ..advance(s, Opcode::Alloc)
            },
            Status::Continue,
        )
    }
}

/// What `INC` and `DEC` do: the register goes up or down by one and wraps
/// around at 32 bits.
pub open spec fn count(s: VmState, op: Opcode, operands: Seq<Token>) -> (VmState, Status) {
    let r = register_of(operands, 0);
    let by: int = if op == Opcode::Inc {
        1
    } else {
        -1
    };
    (with_register(advance(s, op), r, wrap32(s.registers[r] + by)), Status::Continue)
}

/// What the instruction `op` with the operands `operands`, read at the
/// program counter of `s`, does to `s`.
///
/// A register operand that names no register is a fault, before anything
/// else is looked at. A fault leaves the state as it was. Otherwise the
/// program counter moves past the instruction, unless the instruction is a
/// jump that is taken.
pub open spec fn execute(s: VmState, op: Opcode, operands: Seq<Token>) -> (VmState, Status) {
    if !registers_exist(operands) {
        (s, Status::Fault(VmFault::InvalidRegisterIndex))
    } else {
        match op {
            Opcode::Hlt => (advance(s, op), Status::Halted),
            Opcode::Load => (
                with_register(advance(s, op), register_of(operands, 0), number_of(operands, 1)),
                Status::Continue,
            ),
            Opcode::Add | Opcode::Sub | Opcode::Mul | Opcode::Div => arithmetic(s, op, operands),
            Opcode::Eq | Opcode::Neq | Opcode::Gt | Opcode::Lt | Opcode::Gtq | Opcode::Ltq => compare(
                s,
                op,
                operands,
            ),
            Opcode::Jmp | Opcode::Jmpf | Opcode::Jmpb | Opcode::Jeq | Opcode::Jneq => jump(
                s,
                op,
                operands,
            ),
            Opcode::Alloc => allocate(s, operands),
            Opcode::Inc | Opcode::Dec => count(s, op, operands),
            Opcode::Igl => (s, Status::Fault(VmFault::IllegalOpcode)),
        }
    }
}

/// One step of the machine: fetch the opcode at the program counter, decode
/// its operands, execute.
///
/// - At or past the end of the program the machine is halted and nothing
///   changes.
/// - A byte that is no opcode is a fault; the program counter moves past that
///   one byte.
/// - An opcode whose operands the program does not hold is a fault, and
///   nothing changes.
pub open spec fn step(s: VmState) -> (VmState, Status) {
    if s.pc >= s.program.len() {
        (s, Status::Halted)
    } else {
        let op = opcode_from_byte(s.program[s.pc as int]);
        if op == Opcode::Igl {
            (VmState { pc: (s.pc + 1) as usize, ..s }, Status::Fault(VmFault::IllegalOpcode))
        } else if s.pc + op.encoded_size() > s.program.len() {
            (s, Status::Fault(VmFault::ProgramUnderrun))
        } else {
            execute(s, op, decode_operands(s.program, s.pc + 1, op.operand_spec()))
        }
    }
}

/// The machine after up to `limit` steps from `s`: it stops at the first step
/// that does not end in `Continue`, and reports `Continue` if there was none.
pub open spec fn run_for(s: VmState, limit: nat) -> (VmState, Status)
    decreases limit,
{
    if limit == 0 {
        (s, Status::Continue)
    } else {
        let (t, status) = step(s);
        if status == Status::Continue {
            run_for(t, (limit - 1) as nat)
        } else {
            (t, status)
        }
    }
}

/// The state after `n` calls of `step`, whatever each of them reported.
pub open spec fn after_steps(s: VmState, n: nat) -> VmState
    decreases n,
{
    if n == 0 {
        s
    } else {
        step(after_steps(s, (n - 1) as nat)).0
    }
}

/// The operands that `decode_operands` reads for each shape of the instruction
/// set, byte by byte.
pub proof fn lemma_decode_shapes(bytes: Seq<u8>, at: int)
    ensures
        decode_operands(bytes, at, seq![]) == Seq::<Token>::empty(),
        decode_operands(bytes, at, seq![OperandType::Register]) == seq![
            Token::Register { reg: bytes[at] },
        ],
        decode_operands(bytes, at, seq![OperandType::Register, OperandType::Register]) == seq![
            Token::Register { reg: bytes[at] },
            Token::Register { reg: bytes[at + 1] },
        ],
        decode_operands(
            bytes,
            at,
            seq![OperandType::Register, OperandType::Register, OperandType::Register],
        ) == seq![
            Token::Register { reg: bytes[at] },
            Token::Register { reg: bytes[at + 1] },
            Token::Register { reg: bytes[at + 2] },
        ],
        decode_operands(bytes, at, seq![OperandType::Register, OperandType::Number]) == seq![
            Token::Register { reg: bytes[at] },
            Token::Number { num: sign_extend16(bytes[at + 1], bytes[at + 2]) },
        ],
{
    let r = OperandType::Register;
    let n = OperandType::Number;
    reveal_with_fuel(decode_operands, 4);
    reveal_with_fuel(total_width, 4);
    assert(seq![r].drop_last() =~= seq![]);
    assert(seq![r, r].drop_last() =~= seq![r]);
    assert(seq![r, r, r].drop_last() =~= seq![r, r]);
    assert(seq![r, n].drop_last() =~= seq![r]);
    assert(decode_operands(bytes, at, seq![r]) =~= seq![Token::Register { reg: bytes[at] }]);
    assert(decode_operands(bytes, at, seq![r, r]) =~= seq![
        Token::Register { reg: bytes[at] },
        Token::Register { reg: bytes[at + 1] },
    ]);
    assert(decode_operands(bytes, at, seq![r, r, r]) =~= seq![
        Token::Register { reg: bytes[at] },
        Token::Register { reg: bytes[at + 1] },
        Token::Register { reg: bytes[at + 2] },
    ]);
    assert(decode_operands(bytes, at, seq![r, n]) =~= seq![
        Token::Register { reg: bytes[at] },
        Token::Number { num: sign_extend16(bytes[at + 1], bytes[at + 2]) },
    ]);
}

/// A byte that is no opcode stops the machine with `IllegalOpcode`: the
/// program counter moves past that one byte and nothing else changes.
pub proof fn lemma_illegal_opcode(s: VmState)
    requires
        s.valid(),
        s.pc < s.program.len(),
        opcode_from_byte(s.program[s.pc as int]) == Opcode::Igl,
    ensures
        step(s) == (with_pc(s, (s.pc + 1) as usize), Status::Fault(VmFault::IllegalOpcode)),
        s.pc + 1 <= usize::MAX,
{
}

/// The machine executes what the assembler wrote: where the encoding of a
/// well-formed instruction stands at the program counter, one step does what
/// that instruction says, each number cut to sixteen bits.
pub proof fn lemma_step_executes_encoded(
    s: VmState,
    before: Seq<u8>,
    op: Opcode,
    operands: Seq<Token>,
    after: Seq<u8>,
)
    requires
        s.valid(),
        well_formed(op, operands),
        s.program == before + encode(op, operands) + after,
        s.pc == before.len(),
    ensures
        step(s) == execute(s, op, normalized(operands)),
{
    let head = before.push(byte_from_opcode(op));
    lemma_encode_len(op, operands);
    lemma_decode_inverts_encode(head, operands, after);
    assert(head + encode_operands(operands) + after =~= s.program);
    assert(s.program[s.pc as int] == byte_from_opcode(op));
}

/// `n + 1` steps from `s` are `n` steps from where the first step leads.
proof fn lemma_after_steps_shift(s: VmState, n: nat)
    ensures
        after_steps(s, n + 1) == after_steps(step(s).0, n),
    decreases n,
{
    reveal_with_fuel(after_steps, 2);
    if n > 0 {
        lemma_after_steps_shift(s, (n - 1) as nat);
    }
}

/// Single steps and a run agree. If the first `n` steps from `s` end in
/// `Continue` and the next one does not, then a run of more than `n` steps
/// ends where `n + 1` single steps lead, with the status of the last of them.
/// Where that last step only found the program counter at the end of the
/// program, that is the state after `n` steps.
pub proof fn lemma_run_is_repeated_step(s: VmState, n: nat, limit: nat)
    requires
        forall|i: nat| i < n ==> (#[trigger] step(after_steps(s, i))).1 == Status::Continue,
        step(after_steps(s, n)).1 != Status::Continue,
        n < limit,
    ensures
        run_for(s, limit) == (after_steps(s, n + 1), step(after_steps(s, n)).1),
        after_steps(s, n).pc >= after_steps(s, n).program.len() ==> run_for(s, limit).0
            == after_steps(s, n),
    decreases n,
{
    if n == 0 {
        assert(after_steps(s, 1) == step(after_steps(s, 0)).0);
    } else {
        let t = step(s).0;
        assert(step(after_steps(s, 0)).1 == Status::Continue);
        assert forall|i: nat| i < n - 1 implies (#[trigger] step(after_steps(t, i))).1
            == Status::Continue by {
            lemma_after_steps_shift(s, i);
            assert(step(after_steps(s, i + 1)).1 == Status::Continue);
        }
        lemma_after_steps_shift(s, (n - 1) as nat);
        lemma_after_steps_shift(s, n);
        lemma_run_is_repeated_step(t, (n - 1) as nat, (limit - 1) as nat);
    }
}

/// Once a run has stopped, a larger limit changes nothing.
pub proof fn lemma_run_limit(s: VmState, limit: nat, more: nat)
    requires
        run_for(s, limit).1 != Status::Continue,
    ensures
        run_for(s, limit + more) == run_for(s, limit),
    decreases limit,
{
    if limit > 0 {
        let (t, status) = step(s);
        if status == Status::Continue {
            lemma_run_limit(t, (limit - 1) as nat, more);
        }
    }
}

/// A step keeps a valid state valid, and the flag a bit.
pub proof fn lemma_step_keeps_valid(s: VmState)
    requires
        s.valid(),
    ensures
        step(s).0.valid(),
        s.flag <= 1 ==> step(s).0.flag <= 1,
        step(s).0.program == s.program,
        s.heap.is_prefix_of(step(s).0.heap),
{
    lemma_decode_shapes(s.program, s.pc + 1);
}

/// A run keeps a valid state valid and the flag a bit, leaves the program as
/// it is, and only ever adds to the heap.
pub proof fn lemma_run_keeps_valid(s: VmState, limit: nat)
    requires
        s.valid(),
    ensures
        run_for(s, limit).0.valid(),
        s.flag <= 1 ==> run_for(s, limit).0.flag <= 1,
        run_for(s, limit).0.program == s.program,
        s.heap.is_prefix_of(run_for(s, limit).0.heap),
    decreases limit,
{
    if limit > 0 {
        lemma_step_keeps_valid(s);
        let (t, status) = step(s);
        if status == Status::Continue {
            lemma_run_keeps_valid(t, (limit - 1) as nat);
        }
    }
}

/// Each part of the state is touched only by the instructions made for it:
/// the registers by `LOAD`, the arithmetic and `INC` and `DEC`, the remainder
/// by `DIV`, the flag by the comparisons, the heap by `ALLOC`; and a step that
/// ends in a fault touches none of them.
pub proof fn lemma_step_touches(s: VmState)
    requires
        s.valid(),
        s.pc < s.program.len(),
    ensures
        ({
            let op = opcode_from_byte(s.program[s.pc as int]);
            let t = step(s).0;
            &&& t.registers != s.registers ==> op == Opcode::Load || op == Opcode::Add || op
                == Opcode::Sub || op == Opcode::Mul || op == Opcode::Div || op == Opcode::Inc || op
                == Opcode::Dec
            &&& t.remainder != s.remainder ==> op == Opcode::Div
            &&& t.flag != s.flag ==> op == Opcode::Eq || op == Opcode::Neq || op == Opcode::Gt || op
                == Opcode::Lt || op == Opcode::Gtq || op == Opcode::Ltq
            &&& t.heap != s.heap ==> op == Opcode::Alloc
            &&& step(s).1 is Fault ==> t.registers == s.registers && t.remainder == s.remainder
                && t.flag == s.flag && t.heap == s.heap
        }),
{
    lemma_decode_shapes(s.program, s.pc + 1);
}

/// A step that ends in `Continue` without a jump moves the program counter
/// past the instruction, by the size of its opcode.
pub proof fn lemma_step_advances(s: VmState)
    requires
        s.valid(),
        s.pc < s.program.len(),
        step(s).1 == Status::Continue,
    ensures
        ({
            let op = opcode_from_byte(s.program[s.pc as int]);
            op != Opcode::Jmp && op != Opcode::Jmpf && op != Opcode::Jmpb && op != Opcode::Jeq && op
                != Opcode::Jneq ==> step(s).0.pc == s.pc + op.encoded_size()
        }),
{
    lemma_decode_shapes(s.program, s.pc + 1);
    lemma_encoded_size(opcode_from_byte(s.program[s.pc as int]));
}

/// The machine runs what the assembler wrote, instruction by instruction:
/// where the program is the encoding of well-formed instructions and the
/// program counter stands at the start of one of them, one step does what that
/// instruction says, each number cut to sixteen bits.
pub proof fn lemma_step_executes_assembled(s: VmState, program: Seq<(Opcode, Seq<Token>)>, k: int)
    requires
        s.valid(),
        0 <= k < program.len(),
        forall|i: int| 0 <= i < program.len() ==> well_formed((#[trigger] program[i]).0, program[i].1),
        s.program == encode_program(program),
        s.pc == encode_program(program.take(k)).len(),
    ensures
        step(s) == execute(s, program[k].0, normalized(program[k].1)),
{
    lemma_encode_program_split(program, k);
    lemma_step_executes_encoded(
        s,
        encode_program(program.take(k)),
        program[k].0,
        program[k].1,
        encode_program(program.skip(k + 1)),
    );
}

/// Whether the byte `r` names a register that exists.
fn register_exists(r: u8) -> (exists: bool)
    ensures
        exists == (r < REGISTER_COUNT),
{
    (r as usize) < REGISTER_COUNT
}

/// Whether a heap of `len` bytes can grow by `more`.
fn heap_can_grow(len: usize, more: i32) -> (fits: bool)
    ensures
        fits == !(more < 0 || len + more > heap_limit()),
{
    more >= 0 && len <= isize::MAX as usize && (more as usize) <= isize::MAX as usize - len
}

/// The machine.
#[derive(Debug)]
pub struct Vm {
    pub registers: [i32; REGISTER_COUNT],
    pub pc: usize,
    pub program: Vec<u8>,
    pub heap: Vec<u8>,
    pub rem: u32,
    pub cmp: u32,
}

impl View for Vm {
    type V = VmState;

    open spec fn view(&self) -> VmState {
        VmState {
            registers: self.registers@,
            pc: self.pc,
            program: self.program@,
            heap: self.heap@,
            remainder: self.rem,
            flag: self.cmp,
        }
    }
}

impl Vm {
    /// A machine with no program, an empty heap and every register zero.
    pub fn new() -> (vm: Vm)
        ensures
            vm@ == VmState::initial(),
    {
        let vm = Vm {
            registers: [0;REGISTER_COUNT],
            pc: 0,
            program: Vec::new(),
            heap: Vec::new(),
            rem: 0,
            cmp: 0,
        };
        assert(vm@.registers =~= VmState::initial().registers);
        vm
    }

    /// Replaces the program and starts it from its first byte. Registers, heap,
    /// remainder and flag stay as they are.
    pub fn load(&mut self, bytes: Vec<u8>)
        ensures
            final(self)@ == (VmState { program: bytes@, pc: 0, ..old(self)@ }),
    {
        self.program = bytes;
        self.pc = 0;
    }

    /// Appends one byte to the program; nothing else changes.
    pub fn add_byte(&mut self, byte: u8)
        ensures
            final(self)@ == (VmState { program: old(self)@.program.push(byte), ..old(self)@ }),
    {
        self.program.push(byte);
    }

    /// The value of register `r`.
    fn read(&self, r: u8) -> (v: i32)
        requires
            r < REGISTER_COUNT,
        ensures
            v == self@.registers[r as int],
    {
        self.registers[r as usize]
    }

    /// Sets register `r` to `v`.
    fn write(&mut self, r: u8, v: i32)
        requires
            r < REGISTER_COUNT,
        ensures
            final(self)@ == (VmState {
                registers: old(self)@.registers.update(r as int, v),
                ..old(self)@
            }),
    {
        self.registers[r as usize] = v;
    }

    /// Grows the heap by `more` zero bytes.
    fn grow_heap(&mut self, more: i32)
        requires
            0 <= more,
            old(self).heap.len() + more <= heap_limit(),
        ensures
            final(self)@ == (VmState {
                heap: old(self)@.heap + Seq::new(more as nat, |i: int| 0u8),
                ..old(self)@
            }),
    {
        let len = self.heap.len() + more as usize;
        self.heap.resize(len, 0);
        assert(self@.heap =~= old(self)@.heap + Seq::new(more as nat, |i: int| 0u8));
    }

    /// Runs one instruction and says how it ended.
    pub fn run_once(&mut self) -> (status: Status)
        ensures
            (final(self)@, status) == step(old(self)@),
    {
        self.execute_instruction()
    }

    /// Runs the program until the machine halts or faults, for at most `limit`
    /// steps. `Continue` says that the machine had not stopped after `limit`
    /// steps.
    pub fn run_bounded(&mut self, limit: u64) -> (status: Status)
        ensures
            (final(self)@, status) == run_for(old(self)@, limit as nat),
    {
        let ghost start = self@;
        let mut done: u64 = 0;
        let mut status = Status::Continue;
        while done < limit && status == Status::Continue
            invariant
                done <= limit,
                run_for(start, limit as nat) == (if status == Status::Continue {
                    run_for(self@, (limit - done) as nat)
                } else {
                    (self@, status)
                }),
            decreases limit - done,
        {
            status = self.execute_instruction();
            done = done + 1;
        }
        status
    }

    /// Runs the program until the machine halts or faults.
    ///
    /// The run gives up after `u64::MAX` steps and then reports `Continue`.
    pub fn run(&mut self) -> (status: Status)
        ensures
            (final(self)@, status) == run_for(old(self)@, u64::MAX as nat),
    {
        self.run_bounded(u64::MAX)
    }

    /// Fetches the opcode at the program counter, reads its operands and
    /// executes the instruction.
    fn execute_instruction(&mut self) -> (status: Status)
        ensures
            (final(self)@, status) == step(old(self)@),
    {
        if self.pc >= self.program.len() {
            return Status::Halted;
        }
        let opcode = self.decode_opcode();
        if opcode == Opcode::Igl {
            self.pc = self.pc + 1;
            return Status::Fault(VmFault::IllegalOpcode);
        }
        let size = opcode.size();
        if self.program.len() - self.pc < size {
            return Status::Fault(VmFault::ProgramUnderrun);
        }
        proof {
            lemma_decode_shapes(self.program@, self.pc + 1);
            lemma_encoded_size(opcode);
        }
        match opcode {
            Opcode::Hlt => {
                self.pc = self.pc + 1;
                Status::Halted
            },
            Opcode::Load => {
                let r = self.next_8_bits(self.pc + 1);
                let number = self.next_16_bits(self.pc + 2);
                self.load_number(r, number)
            },
            Opcode::Add | Opcode::Sub | Opcode::Mul | Opcode::Div => {
                let ra = self.next_8_bits(self.pc + 1);
                let rb = self.next_8_bits(self.pc + 2);
                let rd = self.next_8_bits(self.pc + 3);
                self.arithmetic(opcode, ra, rb, rd)
            },
            Opcode::Eq | Opcode::Neq | Opcode::Gt | Opcode::Lt | Opcode::Gtq | Opcode::Ltq => {
                let ra = self.next_8_bits(self.pc + 1);
                let rb = self.next_8_bits(self.pc + 2);
                self.compare(opcode, ra, rb)
            },
            Opcode::Jmp | Opcode::Jmpf | Opcode::Jmpb | Opcode::Jeq | Opcode::Jneq => {
                let r = self.next_8_bits(self.pc + 1);
                self.jump(opcode, r)
            },
            Opcode::Alloc => {
                let r = self.next_8_bits(self.pc + 1);
                self.allocate(r)
            },
            Opcode::Inc | Opcode::Dec => {
                let r = self.next_8_bits(self.pc + 1);
                self.count(opcode, r)
            },
            Opcode::Igl => Status::Fault(VmFault::IllegalOpcode),
        }
    }

    /// `LOAD`: puts `number` into register `r`.
    fn load_number(&mut self, r: u8, number: i32) -> (status: Status)
        requires
            old(self).pc + 4 <= old(self).program.len(),
        ensures
            (final(self)@, status) == execute(
                old(self)@,
                Opcode::Load,
                seq![Token::Register { reg: r }, Token::Number { num: number }],
            ),
    {
        let ghost operands = seq![Token::Register { reg: r }, Token::Number { num: number }];
        proof {
            lemma_encoded_size(Opcode::Load);
        }
        if !register_exists(r) {
            assert(register_of(operands, 0) >= REGISTER_COUNT);
            return Status::Fault(VmFault::InvalidRegisterIndex);
        }
        assert(registers_exist(operands));
        self.write(r, number);
        self.pc = self.pc + 4;
        Status::Continue
    }

    /// `ADD`, `SUB`, `MUL`, `DIV`: combines registers `ra` and `rb` into `rd`.
    fn arithmetic(&mut self, opcode: Opcode, ra: u8, rb: u8, rd: u8) -> (status: Status)
        requires
            opcode == Opcode::Add || opcode == Opcode::Sub || opcode == Opcode::Mul || opcode
                == Opcode::Div,
            old(self).pc + 4 <= old(self).program.len(),
        ensures
            (final(self)@, status) == execute(
                old(self)@,
                opcode,
                seq![
                    Token::Register { reg: ra },
                    Token::Register { reg: rb },
                    Token::Register { reg: rd },
                ],
            ),
    {
        let ghost operands = seq![
            Token::Register { reg: ra },
            Token::Register { reg: rb },
            Token::Register { reg: rd },
        ];
        proof {
            lemma_encoded_size(opcode);
        }
        if !register_exists(ra) {
            assert(register_of(operands, 0) >= REGISTER_COUNT);
            return Status::Fault(VmFault::InvalidRegisterIndex);
        }
        if !register_exists(rb) {
            assert(register_of(operands, 1) >= REGISTER_COUNT);
            return Status::Fault(VmFault::InvalidRegisterIndex);
        }
        if !register_exists(rd) {
            assert(register_of(operands, 2) >= REGISTER_COUNT);
            return Status::Fault(VmFault::InvalidRegisterIndex);
        }
        assert(registers_exist(operands));
        let a = self.read(ra);
        let b = self.read(rb);
        match opcode {
            Opcode::Add => {
                self.write(rd, a.wrapping_add(b));
            },
            Opcode::Sub => {
                self.write(rd, a.wrapping_sub(b));
            },
            Opcode::Mul => {
                self.write(rd, a.wrapping_mul(b));
            },
            _ => {
                if b == 0 {
                    return Status::Fault(VmFault::DivisionByZero);
                }
                let (quotient, remainder) = divide(a, b);
                self.write(rd, quotient);
                self.rem = reinterpret(remainder);
            },
        }
        self.pc = self.pc + 4;
        Status::Continue
    }

    /// `EQ`, `NEQ`, `GT`, `LT`, `GTQ`, `LTQ`: compares registers `ra` and `rb`
    /// and keeps the answer in the comparison flag.
    fn compare(&mut self, opcode: Opcode, ra: u8, rb: u8) -> (status: Status)
        requires
            opcode == Opcode::Eq || opcode == Opcode::Neq || opcode == Opcode::Gt || opcode
                == Opcode::Lt || opcode == Opcode::Gtq || opcode == Opcode::Ltq,
            old(self).pc + 3 <= old(self).program.len(),
        ensures
            (final(self)@, status) == execute(
                old(self)@,
                opcode,
                seq![Token::Register { reg: ra }, Token::Register { reg: rb }],
            ),
    {
        let ghost operands = seq![Token::Register { reg: ra }, Token::Register { reg: rb }];
        proof {
            lemma_encoded_size(opcode);
        }
        if !register_exists(ra) {
            assert(register_of(operands, 0) >= REGISTER_COUNT);
            return Status::Fault(VmFault::InvalidRegisterIndex);
        }
        if !register_exists(rb) {
            assert(register_of(operands, 1) >= REGISTER_COUNT);
            return Status::Fault(VmFault::InvalidRegisterIndex);
        }
        assert(registers_exist(operands));
        let a = self.read(ra);
        let b = self.read(rb);
        let holds = match opcode {
            Opcode::Eq => a == b,
            Opcode::Neq => a != b,
            Opcode::Gt => a > b,
            Opcode::Lt => a < b,
            Opcode::Gtq => a >= b,
            _ => a <= b,
        };
        self.cmp = if holds {
            1
        } else {
            0
        };
        self.pc = self.pc + 3;
        Status::Continue
    }

    /// `JMP`, `JMPF`, `JMPB`, `JEQ`, `JNEQ`: moves the program counter as
    /// register `r` says.
    fn jump(&mut self, opcode: Opcode, r: u8) -> (status: Status)
        requires
            opcode == Opcode::Jmp || opcode == Opcode::Jmpf || opcode == Opcode::Jmpb || opcode
                == Opcode::Jeq || opcode == Opcode::Jneq,
            old(self).pc + 2 <= old(self).program.len(),
        ensures
            (final(self)@, status) == execute(
                old(self)@,
                opcode,
                seq![Token::Register { reg: r }],
            ),
    {
        let ghost operands = seq![Token::Register { reg: r }];
        proof {
            lemma_encoded_size(opcode);
        }
        if !register_exists(r) {
            assert(register_of(operands, 0) >= REGISTER_COUNT);
            return Status::Fault(VmFault::InvalidRegisterIndex);
        }
        assert(registers_exist(operands));
        let target = self.read(r);
        let after = self.pc + 2;
        self.pc = match opcode {
            Opcode::Jmp => address(target),
            Opcode::Jmpf => address_forward(after, target),
            Opcode::Jmpb => address_backward(after, target),
            Opcode::Jeq => if self.cmp == 1 {
                address(target)
            } else {
                after
            },
            _ => if self.cmp == 0 {
                address(target)
            } else {
                after
            },
        };
        Status::Continue
    }

    /// `ALLOC`: grows the heap by the value of register `r`.
    fn allocate(&mut self, r: u8) -> (status: Status)
        requires
            old(self).pc + 2 <= old(self).program.len(),
        ensures
            (final(self)@, status) == execute(
                old(self)@,
                Opcode::Alloc,
                seq![Token::Register { reg: r }],
            ),
    {
        let ghost operands = seq![Token::Register { reg: r }];
        proof {
            lemma_encoded_size(Opcode::Alloc);
        }
        if !register_exists(r) {
            assert(register_of(operands, 0) >= REGISTER_COUNT);
            return Status::Fault(VmFault::InvalidRegisterIndex);
        }
        assert(registers_exist(operands));
        let more = self.read(r);
        if !heap_can_grow(self.heap.len(), more) {
            return Status::Fault(VmFault::HeapGrowthOverflow);
        }
        self.grow_heap(more);
        self.pc = self.pc + 2;
        Status::Continue
    }

    /// `INC`, `DEC`: adds one to register `r`, or takes one away.
    fn count(&mut self, opcode: Opcode, r: u8) -> (status: Status)
        requires
            opcode == Opcode::Inc || opcode == Opcode::Dec,
            old(self).pc + 2 <= old(self).program.len(),
        ensures
            (final(self)@, status) == execute(
                old(self)@,
                opcode,
                seq![Token::Register { reg: r }],
            ),
    {
        let ghost operands = seq![Token::Register { reg: r }];
        proof {
            lemma_encoded_size(opcode);
        }
        if !register_exists(r) {
            assert(register_of(operands, 0) >= REGISTER_COUNT);
            return Status::Fault(VmFault::InvalidRegisterIndex);
        }
        assert(registers_exist(operands));
        let value = self.read(r);
        match opcode {
            Opcode::Inc => {
                self.write(r, value.wrapping_add(1));
            },
            _ => {
                self.write(r, value.wrapping_sub(1));
            },
        }
        self.pc = self.pc + 2;
        Status::Continue
    }

    /// The opcode at the program counter.
    fn decode_opcode(&self) -> (opcode: Opcode)
        requires
            self.pc < self.program.len(),
        ensures
            opcode == opcode_from_byte(self@.program[self.pc as int]),
    {
        Opcode::from(self.program[self.pc])
    }

    /// The operand byte at `at`.
    fn next_8_bits(&self, at: usize) -> (byte: u8)
        requires
            at < self.program.len(),
        ensures
            byte == self@.program[at as int],
    {
        self.program[at]
    }

    /// The sixteen-bit operand at `at`, sign-extended.
    fn next_16_bits(&self, at: usize) -> (number: i32)
        requires
            at + 1 < self.program.len(),
        ensures
            number == sign_extend16(
                self@.program[at as int],
                self@.program[at + 1],
            ),
    {
        immediate(self.program[at], self.program[at + 1])
    }
}

} // verus!
