//! The interactive shell, without its input and output: what each line that
//! a user types does to the machine, and what is to be shown in reply.
use crate::assembly::text::same_bytes;
use crate::vm::{step, Status, Vm, VmState};
use vstd::prelude::*;
use vstd::string::StringSliceAdditionalSpecFns;

verus! {

/// The piece of a line that is no byte in hexadecimal, by its index among the
/// pieces of the line, counted from zero.
#[derive(Debug, PartialEq, Eq, Clone, Copy, Structural)]
pub struct HexFault {
    pub piece: usize,
}

/// What the shell is to do after a line.
#[derive(Debug, PartialEq, Eq, Clone, Copy, Structural)]
pub enum Reply {
    /// Leave.
    Quit,
    /// Show the bytes of the program.
    Program,
    /// Show the registers.
    Registers,
    /// The machine ran one step, which ended in `status`. `decoded` tells
    /// whether the line was bytes in hexadecimal; if it was, they were added to
    /// the program before the step.
    Stepped { decoded: bool, status: Status },
}

/// The byte that separates the pieces of a line.
pub open spec fn separator() -> u8 {
    ' ' as u8
}

/// The end of the piece that starts at `from`: the index of the first
/// separator at or after `from`, or the length of `s`.
pub open spec fn piece_end(s: Seq<u8>, from: int) -> int
    decreases s.len() - from,
{
    if from >= s.len() || s[from] == separator() {
        from
    } else {
        piece_end(s, from + 1)
    }
}

/// The pieces of `s` from `from` on: what stands between one separator and
/// the next. There is always a last piece, which may be empty.
pub open spec fn pieces_from(s: Seq<u8>, from: int) -> Seq<Seq<u8>>
    decreases s.len() - from,
{
    if from < 0 || piece_end(s, from) >= s.len() {
        seq![s.subrange(from, s.len() as int)]
    } else {
        proof {
            lemma_piece_end(s, from);
        }
        seq![s.subrange(from, piece_end(s, from))] + pieces_from(s, piece_end(s, from) + 1)
    }
}

/// The pieces of the line `s`.
pub open spec fn pieces(s: Seq<u8>) -> Seq<Seq<u8>> {
    pieces_from(s, 0)
}

/// The value of the hexadecimal digit `b`, in either case.
pub open spec fn hex_digit(b: u8) -> Option<nat> {
    if '0' as u8 <= b <= '9' as u8 {
        Some((b - '0' as u8) as nat)
    } else if 'a' as u8 <= b <= 'f' as u8 {
        Some((b - 'a' as u8 + 10) as nat)
    } else if 'A' as u8 <= b <= 'F' as u8 {
        Some((b - 'A' as u8 + 10) as nat)
    } else {
        None
    }
}

/// Whether `s` holds hexadecimal digits only.
pub open spec fn all_hex(s: Seq<u8>) -> bool {
    forall|i: int| 0 <= i < s.len() ==> hex_digit(#[trigger] s[i]) is Some
}

/// The number that the hexadecimal digits `digits` write.
pub open spec fn hex_value(digits: Seq<u8>) -> nat
    decreases digits.len(),
{
    if digits.len() == 0 {
        0
    } else {
        hex_value(digits.drop_last()) * 16 + hex_digit(digits.last())->0
    }
}

/// The digits of the piece `piece`: the piece itself, without a `+` in front
/// if it has one.
pub open spec fn hex_digits(piece: Seq<u8>) -> Seq<u8> {
    if piece.len() > 0 && piece[0] == '+' as u8 {
        piece.subrange(1, piece.len() as int)
    } else {
        piece
    }
}

/// The byte that `piece` writes in hexadecimal: one or more digits, with or
/// without a `+` in front, that write a number of at most 255.
pub open spec fn hex_byte(piece: Seq<u8>) -> Option<u8> {
    let digits = hex_digits(piece);
    if digits.len() > 0 && all_hex(digits) && hex_value(digits) <= u8::MAX {
        Some(hex_value(digits) as u8)
    } else {
        None
    }
}

/// The bytes that `pieces` write, or the first piece that writes none.
pub open spec fn hex_bytes(pieces: Seq<Seq<u8>>) -> Result<Seq<u8>, HexFault>
    decreases pieces.len(),
{
    if pieces.len() == 0 {
        Ok(seq![])
    } else {
        match hex_bytes(pieces.drop_last()) {
            Err(fault) => Err(fault),
            Ok(front) => match hex_byte(pieces.last()) {
                None => Err(HexFault { piece: (pieces.len() - 1) as usize }),
                Some(byte) => Ok(front.push(byte)),
            },
        }
    }
}

/// The command that leaves the shell.
pub open spec fn quit_command() -> Seq<u8> {
    seq!['.' as u8, 'q' as u8, 'u' as u8, 'i' as u8, 't' as u8]
}

/// The command that lists the program.
pub open spec fn program_command() -> Seq<u8> {
    seq![
        '.' as u8,
        'p' as u8,
        'r' as u8,
        'o' as u8,
        'g' as u8,
        'r' as u8,
        'a' as u8,
        'm' as u8,
    ]
}

/// The command that lists the registers.
pub open spec fn registers_command() -> Seq<u8> {
    seq![
        '.' as u8,
        'r' as u8,
        'e' as u8,
        'g' as u8,
        'i' as u8,
        's' as u8,
        't' as u8,
        'e' as u8,
        'r' as u8,
        's' as u8,
    ]
}

/// What the line `line` does to a machine in state `s`, and the reply.
///
/// The three commands change nothing. Any other line is read as bytes in
/// hexadecimal, separated by single spaces; if every piece is a byte, the bytes
/// are added to the program. Then, decoded or not, the machine runs one step.
pub open spec fn respond(s: VmState, line: Seq<u8>) -> (VmState, Reply) {
    if line == quit_command() {
        (s, Reply::Quit)
    } else if line == program_command() {
        (s, Reply::Program)
    } else if line == registers_command() {
        (s, Reply::Registers)
    } else {
        match hex_bytes(pieces(line)) {
            Ok(bytes) => {
                let (t, status) = step(VmState { program: s.program + bytes, ..s });
                (t, Reply::Stepped { decoded: true, status })
            },
            Err(_) => {
                let (t, status) = step(s);
                (t, Reply::Stepped { decoded: false, status })
            },
        }
    }
}

/// Where `piece_end` stops.
pub proof fn lemma_piece_end(s: Seq<u8>, from: int)
    requires
        0 <= from <= s.len(),
    ensures
        from <= piece_end(s, from) <= s.len(),
        piece_end(s, from) < s.len() ==> s[piece_end(s, from)] == separator(),
        forall|i: int| from <= i < piece_end(s, from) ==> #[trigger] s[i] != separator(),
    decreases s.len() - from,
{
    if from < s.len() && s[from] != separator() {
        lemma_piece_end(s, from + 1);
    }
}

/// There are no more pieces than bytes and one.
pub proof fn lemma_pieces_count(s: Seq<u8>, from: int)
    requires
        0 <= from <= s.len(),
    ensures
        1 <= pieces_from(s, from).len() <= s.len() - from + 1,
    decreases s.len() - from,
{
    lemma_piece_end(s, from);
    if piece_end(s, from) < s.len() {
        lemma_pieces_count(s, piece_end(s, from) + 1);
    }
}

/// A fault among the first pieces is the fault of them all.
pub proof fn lemma_hex_bytes_fault(pieces: Seq<Seq<u8>>, k: int)
    requires
        0 <= k <= pieces.len(),
        hex_bytes(pieces.take(k)) is Err,
    ensures
        hex_bytes(pieces) == hex_bytes(pieces.take(k)),
    decreases pieces.len() - k,
{
    if k < pieces.len() {
        assert(pieces.take(k + 1).drop_last() =~= pieces.take(k));
        lemma_hex_bytes_fault(pieces, k + 1);
    } else {
        assert(pieces.take(k) =~= pieces);
    }
}

/// More digits never write a smaller number.
proof fn lemma_hex_value_grows(digits: Seq<u8>, k: int)
    requires
        0 <= k <= digits.len(),
    ensures
        hex_value(digits.take(k)) <= hex_value(digits),
    decreases digits.len() - k,
{
    if k < digits.len() {
        lemma_hex_value_grows(digits, k + 1);
        assert(digits.take(k + 1).drop_last() =~= digits.take(k));
    } else {
        assert(digits.take(k) =~= digits);
    }
}

/// The end of the piece that starts at `from`.
fn scan_piece(s: &[u8], from: usize) -> (end: usize)
    requires
        from <= s.len(),
    ensures
        end == piece_end(s@, from as int),
        from <= end <= s.len(),
{
    let mut i = from;
    while i < s.len() && s[i] != ' ' as u8
        invariant
            from <= i <= s.len(),
            piece_end(s@, from as int) == piece_end(s@, i as int),
        decreases s.len() - i,
    {
        i = i + 1;
    }
    i
}

/// The value of the hexadecimal digit `b`.
fn digit_value(b: u8) -> (r: Option<u8>)
    ensures
        match hex_digit(b) {
            Some(v) => r == Some(v as u8) && v < 16,
            None => r is None,
        },
{
    if b >= '0' as u8 && b <= '9' as u8 {
        Some(b - '0' as u8)
    } else if b >= 'a' as u8 && b <= 'f' as u8 {
        Some(b - 'a' as u8 + 10)
    } else if b >= 'A' as u8 && b <= 'F' as u8 {
        Some(b - 'A' as u8 + 10)
    } else {
        None
    }
}

/// The byte that `s[from..to]` writes in hexadecimal.
fn scan_hex_byte(s: &[u8], from: usize, to: usize) -> (r: Option<u8>)
    requires
        from <= to <= s.len(),
    ensures
        r == hex_byte(s@.subrange(from as int, to as int)),
{
    let ghost piece = s@.subrange(from as int, to as int);
    let start = if from < to && s[from] == '+' as u8 {
        from + 1
    } else {
        from
    };
    let ghost digits = s@.subrange(start as int, to as int);
    assert(digits =~= hex_digits(piece));
    if start == to {
        return None;
    }
    let mut value: u32 = 0;
    let mut i = start;
    while i < to
        invariant
            start <= i <= to <= s.len(),
            start < to,
            digits == s@.subrange(start as int, to as int),
            digits == hex_digits(s@.subrange(from as int, to as int)),
            all_hex(digits.take(i - start)),
            value == hex_value(digits.take(i - start)),
            value <= u8::MAX,
        decreases to - i,
    {
        let ghost before = digits.take(i - start);
        let ghost now = digits.take(i - start + 1);
        assert(now.drop_last() =~= before);
        assert(now.last() == s@[i as int]);
        match digit_value(s[i]) {
            None => {
                assert(hex_digit(digits[i - start]) is None);
                return None;
            },
            Some(digit) => {
                assert(all_hex(now)) by {
                    assert forall|j: int| 0 <= j < now.len() implies hex_digit(
                        #[trigger] now[j],
                    ) is Some by {
                        if j < before.len() {
                            assert(now[j] == before[j]);
                        }
                    }
                }
                value = value * 16 + digit as u32;
                if value > 255 {
                    proof {
                        lemma_hex_value_grows(digits, i - start + 1);
                    }
                    return None;
                }
            },
        }
        i = i + 1;
    }
    assert(digits.take(to - start) =~= digits);
    Some(value as u8)
}

/// The shell: a machine, fed line by line.
pub struct Repl {
    vm: Vm,
}

impl View for Repl {
    type V = VmState;

    closed spec fn view(&self) -> VmState {
        self.vm@
    }
}

impl Repl {
    /// A shell around a new machine.
    pub fn new() -> (repl: Repl)
        ensures
            repl@ == VmState::initial(),
    {
        Repl { vm: Vm::new() }
    }

    /// The machine of this shell.
    pub fn vm(&self) -> (vm: &Vm)
        ensures
            vm@ == self@,
    {
        &self.vm
    }

    /// The bytes that the line `i` writes in hexadecimal, piece by piece, or
    /// the first piece that is no byte. The machine is not touched.
    pub fn parse_hex(&mut self, i: &str) -> (r: Result<Vec<u8>, HexFault>)
        ensures
            final(self)@ == old(self)@,
            match hex_bytes(pieces(i.spec_bytes())) {
                Ok(bytes) => r matches Ok(found) && found@ == bytes,
                Err(fault) => r matches Err(found) && found == fault,
            },
    {
        decode_hex(i.as_bytes())
    }

    /// Does what the line `line` asks for and says what is to be shown.
    pub fn respond(&mut self, line: &str) -> (reply: Reply)
        ensures
            (final(self)@, reply) == respond(old(self)@, line.spec_bytes()),
    {
        let bytes = line.as_bytes();
        let n = bytes.len();
        if same_bytes(bytes, 0, n, &['.' as u8, 'q' as u8, 'u' as u8, 'i' as u8, 't' as u8]) {
            assert(bytes@.subrange(0, n as int) =~= bytes@);
            return Reply::Quit;
        }
        if same_bytes(
            bytes,
            0,
            n,
            &[
                '.' as u8,
                'p' as u8,
                'r' as u8,
                'o' as u8,
                'g' as u8,
                'r' as u8,
                'a' as u8,
                'm' as u8,
            ],
        ) {
            assert(bytes@.subrange(0, n as int) =~= bytes@);
            return Reply::Program;
        }
        if same_bytes(
            bytes,
            0,
            n,
            &[
                '.' as u8,
                'r' as u8,
                'e' as u8,
                'g' as u8,
                'i' as u8,
                's' as u8,
                't' as u8,
                'e' as u8,
                'r' as u8,
                's' as u8,
            ],
        ) {
            assert(bytes@.subrange(0, n as int) =~= bytes@);
            return Reply::Registers;
        }
        assert(bytes@.subrange(0, n as int) =~= bytes@);
        let decoded = match decode_hex(bytes) {
            Ok(found) => {
                let mut k: usize = 0;
                while k < found.len()
                    invariant
                        k <= found.len(),
                        self@ == (VmState {
                            program: old(self)@.program + found@.take(k as int),
                            ..old(self)@
                        }),
                    decreases found.len() - k,
                {
                    let ghost before = self@.program;
                    self.vm.add_byte(found[k]);
                    assert(before.push(found@[k as int]) =~= old(self)@.program + found@.take(
                        k + 1,
                    ));
                    k = k + 1;
                }
                assert(found@.take(k as int) =~= found@);
                true
            },
            Err(_) => false,
        };
        let status = self.vm.run_once();
        Reply::Stepped { decoded, status }
    }
}

/// The bytes that the pieces of `s` write in hexadecimal.
fn decode_hex(s: &[u8]) -> (r: Result<Vec<u8>, HexFault>)
    ensures
        match hex_bytes(pieces(s@)) {
            Ok(bytes) => r matches Ok(found) && found@ == bytes,
            Err(fault) => r matches Err(found) && found == fault,
        },
{
    let ghost all = pieces(s@);
    let mut found: Vec<u8> = Vec::new();
    let mut from: usize = 0;
    let mut count: usize = 0;
    assert(all.take(0) =~= Seq::<Seq<u8>>::empty());
    loop
        invariant_except_break
            from <= s.len(),
            count <= from,
            all == pieces(s@),
            count < all.len(),
            all.skip(count as int) == pieces_from(s@, from as int),
            hex_bytes(all.take(count as int)) == Ok::<Seq<u8>, HexFault>(found@),
        ensures
            hex_bytes(all) == Ok::<Seq<u8>, HexFault>(found@),
        decreases s.len() - from,
    {
        let end = scan_piece(s, from);
        proof {
            lemma_piece_end(s@, from as int);
        }
        let ghost rest = pieces_from(s@, from as int);
        assert(all[count as int] == rest[0]);
        assert(all.take(count + 1).drop_last() =~= all.take(count as int));
        assert(all.take(count + 1).last() == all[count as int]);
        let last = end >= s.len();
        let byte = if last {
            scan_hex_byte(s, from, s.len())
        } else {
            scan_hex_byte(s, from, end)
        };
        match byte {
            None => {
                proof {
                    lemma_hex_bytes_fault(all, count + 1);
                }
                return Err(HexFault { piece: count });
            },
            Some(value) => {
                found.push(value);
            },
        }
        if last {
            assert(rest.len() == 1);
            assert(all.skip(count as int).len() == 1);
            assert(all.take(count + 1) =~= all);
            break ;
        }
        proof {
            lemma_pieces_count(s@, end + 1);
            assert(all.skip(count + 1) =~= all.skip(count as int).skip(1));
            assert(rest.skip(1) =~= pieces_from(s@, end + 1));
        }
        count = count + 1;
        from = end + 1;
    }
    Ok(found)
}

} // verus!
