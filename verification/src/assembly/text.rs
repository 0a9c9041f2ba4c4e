//! Scanning source text, which is a sequence of bytes: where a token ends,
//! where the next one starts, and what number a run of digits writes.
use vstd::prelude::*;

verus! {

/// The byte that ends a line.
pub open spec fn newline() -> u8 {
    '\n' as u8
}

/// Whether `b` separates tokens within a line: a space, a tab or a carriage
/// return.
pub open spec fn is_space(b: u8) -> bool {
    b == ' ' as u8 || b == '\t' as u8 || b == '\r' as u8
}

/// Whether `b` is one of the digits `0` to `9`.
pub open spec fn is_digit(b: u8) -> bool {
    '0' as u8 <= b <= '9' as u8
}

/// The end of the token that starts at `from`: the index of the first
/// separator at or after `from`, or the length of `s` if there is none.
pub open spec fn token_end(s: Seq<u8>, from: int) -> int
    decreases s.len() - from,
{
    if from >= s.len() || is_space(s[from]) {
        from
    } else {
        token_end(s, from + 1)
    }
}

/// The start of the next token: the index of the first byte at or after
/// `from` that is no separator, or the length of `s` if there is none.
pub open spec fn skip_spaces(s: Seq<u8>, from: int) -> int
    decreases s.len() - from,
{
    if from >= s.len() || !is_space(s[from]) {
        from
    } else {
        skip_spaces(s, from + 1)
    }
}

/// The end of the line that starts at `from`: the index of the first line
/// terminator at or after `from`, or the length of `s` if there is none.
pub open spec fn line_end(s: Seq<u8>, from: int) -> int
    decreases s.len() - from,
{
    if from >= s.len() || s[from] == newline() {
        from
    } else {
        line_end(s, from + 1)
    }
}

/// Whether `s` ends with a line terminator. Empty text does not.
pub open spec fn terminated(s: Seq<u8>) -> bool {
    s.len() > 0 && s.last() == newline()
}

/// The lines of `s` from `from` on, each without its terminator. What follows
/// the last terminator is no line.
pub open spec fn lines_from(s: Seq<u8>, from: int) -> Seq<Seq<u8>>
    decreases s.len() - from,
{
    if from < 0 || line_end(s, from) >= s.len() {
        seq![]
    } else {
        proof {
            lemma_line_end(s, from);
        }
        seq![s.subrange(from, line_end(s, from))] + lines_from(s, line_end(s, from) + 1)
    }
}

/// The lines of `s`, each without its terminator.
pub open spec fn lines(s: Seq<u8>) -> Seq<Seq<u8>> {
    lines_from(s, 0)
}

/// The lines with their terminators put back, one after the other.
pub open spec fn join_lines(lines: Seq<Seq<u8>>) -> Seq<u8>
    decreases lines.len(),
{
    if lines.len() == 0 {
        seq![]
    } else {
        join_lines(lines.drop_last()) + lines.last().push(newline())
    }
}

/// The number that the digits `digits` write in base ten.
pub open spec fn decimal_value(digits: Seq<u8>) -> nat
    decreases digits.len(),
{
    if digits.len() == 0 {
        0
    } else {
        decimal_value(digits.drop_last()) * 10 + (digits.last() - '0' as u8) as nat
    }
}

/// Whether `s` holds digits only.
pub open spec fn all_digits(s: Seq<u8>) -> bool {
    forall|i: int| 0 <= i < s.len() ==> is_digit(#[trigger] s[i])
}

/// The number that `s` writes, if `s` is one or more digits and the number is
/// at most `max`.
pub open spec fn natural_literal(s: Seq<u8>, max: nat) -> Option<nat> {
    if s.len() > 0 && all_digits(s) && decimal_value(s) <= max {
        Some(decimal_value(s))
    } else {
        None
    }
}

/// Where `token_end` stops, and what lies before it.
pub proof fn lemma_token_end(s: Seq<u8>, from: int)
    requires
        0 <= from <= s.len(),
    ensures
        from <= token_end(s, from) <= s.len(),
        token_end(s, from) < s.len() ==> is_space(s[token_end(s, from)]),
        forall|i: int| from <= i < token_end(s, from) ==> !is_space(#[trigger] s[i]),
    decreases s.len() - from,
{
    if from < s.len() && !is_space(s[from]) {
        lemma_token_end(s, from + 1);
    }
}

/// Where `skip_spaces` stops, and what lies before it.
pub proof fn lemma_skip_spaces(s: Seq<u8>, from: int)
    requires
        0 <= from <= s.len(),
    ensures
        from <= skip_spaces(s, from) <= s.len(),
        skip_spaces(s, from) < s.len() ==> !is_space(s[skip_spaces(s, from)]),
        forall|i: int| from <= i < skip_spaces(s, from) ==> is_space(#[trigger] s[i]),
    decreases s.len() - from,
{
    if from < s.len() && is_space(s[from]) {
        lemma_skip_spaces(s, from + 1);
    }
}

/// Where `line_end` stops, and what lies before it.
pub proof fn lemma_line_end(s: Seq<u8>, from: int)
    requires
        0 <= from <= s.len(),
    ensures
        from <= line_end(s, from) <= s.len(),
        line_end(s, from) < s.len() ==> s[line_end(s, from)] == newline(),
        forall|i: int| from <= i < line_end(s, from) ==> #[trigger] s[i] != newline(),
    decreases s.len() - from,
{
    if from < s.len() && s[from] != newline() {
        lemma_line_end(s, from + 1);
    }
}

/// There are no more lines than bytes.
pub proof fn lemma_lines_count(s: Seq<u8>, from: int)
    requires
        0 <= from <= s.len(),
    ensures
        lines_from(s, from).len() <= s.len() - from,
    decreases s.len() - from,
{
    lemma_line_end(s, from);
    if line_end(s, from) < s.len() {
        lemma_lines_count(s, line_end(s, from) + 1);
    }
}

/// Lines hold no terminator, and joined again they are the text they came
/// from: nothing is lost and nothing is added.
pub proof fn lemma_lines_rejoin(s: Seq<u8>, from: int)
    requires
        0 <= from <= s.len(),
        from == s.len() || terminated(s),
    ensures
        join_lines(lines_from(s, from)) == s.subrange(from, s.len() as int),
        forall|i: int, j: int|
            0 <= i < lines_from(s, from).len() && 0 <= j < lines_from(s, from)[i].len()
                ==> #[trigger] lines_from(s, from)[i][j] != newline(),
    decreases s.len() - from,
{
    lemma_line_end(s, from);
    let end = line_end(s, from);
    let all = lines_from(s, from);
    if end >= s.len() {
        assert(from == s.len());
        assert(join_lines(all) =~= s.subrange(from, s.len() as int));
    } else {
        let first = s.subrange(from, end);
        let rest = lines_from(s, end + 1);
        lemma_lines_rejoin(s, end + 1);
        lemma_join_first(first, rest);
        assert(all == seq![first] + rest);
        assert(first.push(newline()) + s.subrange(end + 1, s.len() as int) =~= s.subrange(
            from,
            s.len() as int,
        ));
        assert forall|i: int, j: int| 0 <= i < all.len() && 0 <= j < all[i].len() implies #[trigger] all[i][j]
            != newline() by {
            if i > 0 {
                assert(all[i] == rest[i - 1]);
            }
        }
    }
}

/// Joining lines, first line first.
proof fn lemma_join_first(first: Seq<u8>, rest: Seq<Seq<u8>>)
    ensures
        join_lines(seq![first] + rest) == first.push(newline()) + join_lines(rest),
    decreases rest.len(),
{
    let all = seq![first] + rest;
    if rest.len() == 0 {
        reveal_with_fuel(join_lines, 2);
        assert(all.drop_last() =~= Seq::<Seq<u8>>::empty());
        assert(all.last() == first);
        assert(join_lines(all) =~= first.push(newline()) + join_lines(rest));
    } else {
        lemma_join_first(first, rest.drop_last());
        assert(all.drop_last() =~= seq![first] + rest.drop_last());
        assert(all.last() == rest.last());
        assert(join_lines(all) =~= first.push(newline()) + join_lines(rest));
    }
}

/// More digits never write a smaller number.
pub proof fn lemma_decimal_value_grows(digits: Seq<u8>, k: int)
    requires
        0 <= k <= digits.len(),
    ensures
        decimal_value(digits.take(k)) <= decimal_value(digits),
    decreases digits.len() - k,
{
    if k < digits.len() {
        lemma_decimal_value_grows(digits, k + 1);
        assert(digits.take(k + 1).drop_last() =~= digits.take(k));
    } else {
        assert(digits.take(k) =~= digits);
    }
}

/// The end of the token that starts at `from`.
pub fn scan_token(s: &[u8], from: usize) -> (end: usize)
    requires
        from <= s.len(),
    ensures
        end == token_end(s@, from as int),
        from <= end <= s.len(),
{
    let mut i = from;
    while i < s.len() && !space(s[i])
        invariant
            from <= i <= s.len(),
            token_end(s@, from as int) == token_end(s@, i as int),
        decreases s.len() - i,
    {
        i = i + 1;
    }
    i
}

/// The start of the next token at or after `from`.
pub fn scan_spaces(s: &[u8], from: usize) -> (start: usize)
    requires
        from <= s.len(),
    ensures
        start == skip_spaces(s@, from as int),
        from <= start <= s.len(),
{
    let mut i = from;
    while i < s.len() && space(s[i])
        invariant
            from <= i <= s.len(),
            skip_spaces(s@, from as int) == skip_spaces(s@, i as int),
        decreases s.len() - i,
    {
        i = i + 1;
    }
    i
}

/// The end of the line that starts at `from`.
pub fn scan_line(s: &[u8], from: usize) -> (end: usize)
    requires
        from <= s.len(),
    ensures
        end == line_end(s@, from as int),
        from <= end <= s.len(),
{
    let mut i = from;
    while i < s.len() && s[i] != '\n' as u8
        invariant
            from <= i <= s.len(),
            line_end(s@, from as int) == line_end(s@, i as int),
        decreases s.len() - i,
    {
        i = i + 1;
    }
    i
}

/// Whether `s[from..to]` holds exactly the bytes `name`.
pub fn same_bytes(s: &[u8], from: usize, to: usize, name: &[u8]) -> (same: bool)
    requires
        from <= to <= s.len(),
    ensures
        same == (s@.subrange(from as int, to as int) == name@),
{
    let ghost token = s@.subrange(from as int, to as int);
    if to - from != name.len() {
        return false;
    }
    let mut i: usize = 0;
    while i < name.len()
        invariant
            from <= to <= s.len(),
            to - from == name.len(),
            i <= name.len(),
            token == s@.subrange(from as int, to as int),
            forall|j: int| 0 <= j < i ==> token[j] == name@[j],
        decreases name.len() - i,
    {
        if s[from + i] != name[i] {
            assert(token[i as int] != name@[i as int]);
            return false;
        }
        i = i + 1;
    }
    assert(token =~= name@);
    true
}

/// Whether `b` separates tokens.
pub fn space(b: u8) -> (r: bool)
    ensures
        r == is_space(b),
{
    b == ' ' as u8 || b == '\t' as u8 || b == '\r' as u8
}

/// The number that `s[from..to]` writes, if that is one or more digits and
/// the number is at most `max`.
pub fn scan_natural(s: &[u8], from: usize, to: usize, max: u32) -> (r: Option<u32>)
    requires
        from <= to <= s.len(),
    ensures
        match natural_literal(s@.subrange(from as int, to as int), max as nat) {
            Some(v) => r == Some(v as u32),
            None => r is None,
        },
{
    let ghost digits = s@.subrange(from as int, to as int);
    if from == to {
        return None;
    }
    let mut value: u64 = 0;
    let mut i = from;
    while i < to
        invariant
            from <= i <= to <= s.len(),
            digits == s@.subrange(from as int, to as int),
            all_digits(digits.take(i - from)),
            value == decimal_value(digits.take(i - from)),
            value <= max,
        decreases to - i,
    {
        let b = s[i];
        if !(b >= '0' as u8 && b <= '9' as u8) {
            assert(!is_digit(digits[i - from]));
            return None;
        }
        let ghost before = digits.take(i - from);
        let ghost now = digits.take(i - from + 1);
        assert(now.drop_last() =~= before);
        assert(now.last() == b);
        assert(all_digits(now)) by {
            assert forall|j: int| 0 <= j < now.len() implies is_digit(#[trigger] now[j]) by {
                if j < before.len() {
                    assert(now[j] == before[j]);
                }
            }
        }
        value = value * 10 + (b - '0' as u8) as u64;
        if value > max as u64 {
            proof {
                lemma_decimal_value_grows(digits, i - from + 1);
            }
            return None;
        }
        i = i + 1;
    }
    assert(digits.take(to - from) =~= digits);
    Some(value as u32)
}

} // verus!
