use vstd::prelude::*;

use crate::text::{char_is_alphanumeric, chars_of, substring, unicode_alphanumeric};
use vstd::string::StringExecFns;
use crate::types::{models, AValue, AValueModel, Instruction, InstructionModel};

verus! {

/// Characters skipped around the parts of a line.
pub open spec fn is_blank(c: char) -> bool {
    c == ' ' || c == '\t' || c == '\r'
}

pub open spec fn is_digit(c: char) -> bool {
    '0' <= c && c <= '9'
}

/// Characters of a symbol name: letters and digits (Unicode ones included) and `:$._`.
pub open spec fn is_label_char(c: char) -> bool {
    if (c as u32) < 128 {
        is_digit(c) || ('a' <= c && c <= 'z') || ('A' <= c && c <= 'Z') || c == ':' || c == '$'
            || c == '.' || c == '_'
    } else {
        unicode_alphanumeric(c)
    }
}

/// First index at or after `i` that holds no blank.
pub open spec fn skip_blanks(s: Seq<char>, i: int) -> int
    decreases s.len() - i,
{
    if 0 <= i < s.len() && is_blank(s[i]) {
        skip_blanks(s, i + 1)
    } else {
        i
    }
}

/// First index at or after `i` that holds no symbol character.
pub open spec fn skip_name(s: Seq<char>, i: int) -> int
    decreases s.len() - i,
{
    if 0 <= i < s.len() && is_label_char(s[i]) {
        skip_name(s, i + 1)
    } else {
        i
    }
}

pub open spec fn comment_at(s: Seq<char>, i: int) -> bool {
    0 <= i && i + 1 < s.len() && s[i] == '/' && s[i + 1] == '/'
}

/// What follows an instruction from `i` on is blanks, then maybe a comment.
pub open spec fn tail_ok(s: Seq<char>, i: int) -> bool {
    let j = skip_blanks(s, i);
    j == s.len() || comment_at(s, j)
}

pub open spec fn all_digits(t: Seq<char>) -> bool {
    forall|k: int| 0 <= k < t.len() ==> is_digit(#[trigger] t[k])
}

/// Decimal value of a string of digits.
pub open spec fn digits_value(t: Seq<char>) -> nat
    decreases t.len(),
{
    if t.len() == 0 {
        0
    } else {
        digits_value(t.drop_last()) * 10 + ((t.last() as u32) - ('0' as u32)) as nat
    }
}

/// The operand that follows `@`: a literal below 2^15, else a symbol.
pub open spec fn operand(t: Seq<char>) -> AValueModel {
    if all_digits(t) && digits_value(t) < 32768 {
        AValueModel::Value(digits_value(t) as u16)
    } else {
        AValueModel::Label(t)
    }
}

/// Destination bits: A is 4, D is 2, M is 1.
pub open spec fn dest_bits(a: bool, m: bool, d: bool) -> u8 {
    ((if a { 4int } else { 0 }) + (if d { 2int } else { 0 }) + (if m { 1int } else { 0 })) as u8
}

/// A destination prefix at `i`: `A`, `M`, `D`, each optional and in this order, then `=`.
/// Gives the destination bits and the index after `=`.
pub open spec fn dest_prefix(s: Seq<char>, i: int) -> Option<(u8, int)> {
    let a = 0 <= i < s.len() && s[i] == 'A';
    let i1 = if a { i + 1 } else { i };
    let m = 0 <= i1 < s.len() && s[i1] == 'M';
    let i2 = if m { i1 + 1 } else { i1 };
    let d = 0 <= i2 < s.len() && s[i2] == 'D';
    let i3 = if d { i2 + 1 } else { i2 };
    if 0 <= i3 < s.len() && s[i3] == '=' {
        Some((dest_bits(a, m, d), i3 + 1))
    } else {
        None
    }
}

/// Operation codes of the three-character mnemonics.
pub open spec fn op3(a: char, b: char, c: char) -> Option<u8> {
    match (a, b, c) {
        ('D', '+', '1') => Some(0b0011111u8),
        ('A', '+', '1') => Some(0b0110111u8),
        ('M', '+', '1') => Some(0b1110111u8),
        ('D', '-', '1') => Some(0b0001110u8),
        ('A', '-', '1') => Some(0b0110010u8),
        ('M', '-', '1') => Some(0b1110010u8),
        ('D', '+', 'A') => Some(0b0000010u8),
        ('D', '+', 'M') => Some(0b1000010u8),
        ('D', '-', 'A') => Some(0b0010011u8),
        ('D', '-', 'M') => Some(0b1010011u8),
        ('A', '-', 'D') => Some(0b0000111u8),
        ('M', '-', 'D') => Some(0b1000111u8),
        ('D', '&', 'A') => Some(0b0000000u8),
        ('D', '&', 'M') => Some(0b1000000u8),
        ('D', '|', 'A') => Some(0b0010101u8),
        ('D', '|', 'M') => Some(0b1010101u8),
        _ => None,
    }
}

/// Operation codes of the two-character mnemonics.
pub open spec fn op2(a: char, b: char) -> Option<u8> {
    match (a, b) {
        ('-', '1') => Some(0b0111010u8),
        ('!', 'D') => Some(0b0001101u8),
        ('!', 'A') => Some(0b0110001u8),
        ('!', 'M') => Some(0b1110001u8),
        ('-', 'D') => Some(0b0001111u8),
        ('-', 'A') => Some(0b0110011u8),
        ('-', 'M') => Some(0b1110011u8),
        _ => None,
    }
}

/// Operation codes of the one-character mnemonics.
pub open spec fn op1(a: char) -> Option<u8> {
    match a {
        '0' => Some(0b0101010u8),
        '1' => Some(0b0111111u8),
        'D' => Some(0b0001100u8),
        'A' => Some(0b0110000u8),
        'M' => Some(0b1110000u8),
        _ => None,
    }
}

/// Jump codes of the mnemonics that follow `;`.
pub open spec fn jump_code(a: char, b: char, c: char) -> Option<u8> {
    match (a, b, c) {
        ('J', 'G', 'T') => Some(1u8),
        ('J', 'E', 'Q') => Some(2u8),
        ('J', 'G', 'E') => Some(3u8),
        ('J', 'L', 'T') => Some(4u8),
        ('J', 'N', 'E') => Some(5u8),
        ('J', 'L', 'E') => Some(6u8),
        ('J', 'M', 'P') => Some(7u8),
        _ => None,
    }
}

/// The longest operation mnemonic at `k`, with its code and the index after it.
pub open spec fn match_op(s: Seq<char>, k: int) -> Option<(u8, int)> {
    if 0 <= k && k + 3 <= s.len() && op3(s[k], s[k + 1], s[k + 2]) is Some {
        Some((op3(s[k], s[k + 1], s[k + 2])->0, k + 3))
    } else if 0 <= k && k + 2 <= s.len() && op2(s[k], s[k + 1]) is Some {
        Some((op2(s[k], s[k + 1])->0, k + 2))
    } else if 0 <= k && k + 1 <= s.len() && op1(s[k]) is Some {
        Some((op1(s[k])->0, k + 1))
    } else {
        None
    }
}

/// A compute instruction at `i`, with the index after it.
pub open spec fn parse_compute(s: Seq<char>, i: int) -> Option<(InstructionModel, int)> {
    let (dest, k) = match dest_prefix(s, i) {
        Some(p) => p,
        None => (0u8, i),
    };
    match match_op(s, k) {
        None => None,
        Some((op, p)) => {
            if 0 <= p < s.len() && s[p] == ';' {
                if p + 4 <= s.len() && jump_code(s[p + 1], s[p + 2], s[p + 3]) is Some {
                    Some(
                        (
                            InstructionModel::CInstruction {
                                instruction: op,
                                destination: dest,
                                jump: jump_code(s[p + 1], s[p + 2], s[p + 3])->0,
                            },
                            p + 4,
                        ),
                    )
                } else {
                    None
                }
            } else {
                Some((InstructionModel::CInstruction { instruction: op, destination: dest, jump: 0 }, p))
            }
        },
    }
}

/// One line (without its line break): the instruction it holds, or `None` for a syntax error.
pub open spec fn parse_line(s: Seq<char>) -> Option<InstructionModel> {
    let i = skip_blanks(s, 0);
    if i == s.len() || comment_at(s, i) {
        Some(InstructionModel::Noop)
    } else if s[i] == '(' {
        let j = skip_name(s, i + 1);
        if j > i + 1 && j < s.len() && s[j] == ')' && tail_ok(s, j + 1) {
            Some(InstructionModel::Label(s.subrange(i + 1, j)))
        } else {
            None
        }
    } else if s[i] == '@' {
        let j = skip_name(s, i + 1);
        if j > i + 1 && tail_ok(s, j) {
            Some(InstructionModel::AInstruction(operand(s.subrange(i + 1, j))))
        } else {
            None
        }
    } else {
        match parse_compute(s, i) {
            Some((ins, j)) => if tail_ok(s, j) {
                Some(ins)
            } else {
                None
            },
            None => None,
        }
    }
}

/// What an instruction adds to the parsed program: nothing for a no-op.
pub open spec fn kept(ins: InstructionModel) -> Seq<InstructionModel> {
    if ins is Noop {
        Seq::empty()
    } else {
        seq![ins]
    }
}

/// Length of the first line of `s`: the characters before the first line break.
pub open spec fn line_len(s: Seq<char>) -> nat
    decreases s.len(),
{
    if s.len() == 0 || s[0] == '\n' {
        0
    } else {
        1 + line_len(s.drop_first())
    }
}

/// A whole program: its instructions in order, blank and comment lines left out,
/// or the first line that holds a syntax error.
pub open spec fn parse_program(s: Seq<char>) -> Result<Seq<InstructionModel>, Seq<char>>
    decreases s.len(),
{
    let e = line_len(s);
    let line = s.subrange(0, e as int);
    match parse_line(line) {
        None => Err(line),
        Some(ins) => {
            let rest = if e < s.len() {
                parse_program(s.subrange(e + 1int, s.len() as int))
            } else {
                Ok(Seq::empty())
            };
            match rest {
                Ok(r) => Ok(kept(ins) + r),
                Err(l) => Err(l),
            }
        },
    }
}

/// `a` ends with `b`.
pub open spec fn ends_with(a: Seq<char>, b: Seq<char>) -> bool {
    b.len() <= a.len() && a.subrange(a.len() - b.len(), a.len() as int) == b
}

/// The instructions `p` put before a parse result; an error stays as it is.
pub open spec fn prepend(
    p: Seq<InstructionModel>,
    r: Result<Seq<InstructionModel>, Seq<char>>,
) -> Result<Seq<InstructionModel>, Seq<char>> {
    match r {
        Ok(x) => Ok(p + x),
        Err(l) => Err(l),
    }
}

fn blank(c: char) -> (r: bool)
    ensures
        r == is_blank(c),
{
    c == ' ' || c == '\t' || c == '\r'
}

fn digit(c: char) -> (r: bool)
    ensures
        r == is_digit(c),
{
    '0' <= c && c <= '9'
}

fn label_char(c: char) -> (r: bool)
    ensures
        r == is_label_char(c),
{
    if (c as u32) < 128 {
        digit(c) || ('a' <= c && c <= 'z') || ('A' <= c && c <= 'Z') || c == ':' || c == '$' || c
            == '.' || c == '_'
    } else {
        char_is_alphanumeric(c)
    }
}

fn skip_blanks_from(s: &Vec<char>, i: usize) -> (r: usize)
    requires
        i <= s@.len(),
    ensures
        r == skip_blanks(s@, i as int),
        i <= r <= s@.len(),
{
    let mut j: usize = i;
    while j < s.len() && blank(s[j])
        invariant
            i <= j <= s@.len(),
            skip_blanks(s@, i as int) == skip_blanks(s@, j as int),
        decreases s@.len() - j,
    {
        j = j + 1;
    }
    j
}

fn skip_name_from(s: &Vec<char>, i: usize) -> (r: usize)
    requires
        i <= s@.len(),
    ensures
        r == skip_name(s@, i as int),
        i <= r <= s@.len(),
        forall|k: int| i <= k < r ==> is_label_char(#[trigger] s@[k]),
{
    let mut j: usize = i;
    while j < s.len() && label_char(s[j])
        invariant
            i <= j <= s@.len(),
            skip_name(s@, i as int) == skip_name(s@, j as int),
            forall|k: int| i <= k < j ==> is_label_char(#[trigger] s@[k]),
        decreases s@.len() - j,
    {
        j = j + 1;
    }
    j
}

fn comment_starts(s: &Vec<char>, i: usize) -> (r: bool)
    requires
        i <= s@.len(),
    ensures
        r == comment_at(s@, i as int),
{
    s.len() - i >= 2 && s[i] == '/' && s[i + 1] == '/'
}

fn tail_is_ok(s: &Vec<char>, i: usize) -> (r: bool)
    requires
        i <= s@.len(),
    ensures
        r == tail_ok(s@, i as int),
{
    let j = skip_blanks_from(s, i);
    j == s.len() || comment_starts(s, j)
}

proof fn lemma_digits_prefix(t: Seq<char>, n: int)
    requires
        0 <= n <= t.len(),
        all_digits(t),
    ensures
        digits_value(t.subrange(0, n)) <= digits_value(t),
    decreases t.len(),
{
    if n < t.len() {
        let u = t.drop_last();
        assert(all_digits(u)) by {
            assert forall|k: int| 0 <= k < u.len() implies is_digit(#[trigger] u[k]) by {
                assert(u[k] == t[k]);
            }
        }
        lemma_digits_prefix(u, n);
        assert(u.subrange(0, n) =~= t.subrange(0, n));
    } else {
        assert(t.subrange(0, n) =~= t);
    }
}

/// The literal held by `s[from..to]`, where it is all digits with a value below 2^15.
fn literal_value(s: &Vec<char>, from: usize, to: usize) -> (r: Option<u16>)
    requires
        from <= to <= s@.len(),
    ensures
        ({
            let t = s@.subrange(from as int, to as int);
            match r {
                Some(v) => all_digits(t) && digits_value(t) < 32768 && v as nat == digits_value(t),
                None => !(all_digits(t) && digits_value(t) < 32768),
            }
        }),
{
    let ghost t = s@.subrange(from as int, to as int);
    let mut v: u32 = 0;
    let mut k: usize = from;
    while k < to
        invariant
            from <= k <= to <= s@.len(),
            t == s@.subrange(from as int, to as int),
            v < 32768,
            all_digits(t.subrange(0, k - from)),
            v as nat == digits_value(t.subrange(0, k - from)),
        decreases to - k,
    {
        let c = s[k];
        if !digit(c) {
            assert(t[k - from] == c);
            return None;
        }
        let ghost before = t.subrange(0, k - from);
        let ghost after = t.subrange(0, k + 1 - from);
        assert(after.drop_last() =~= before);
        assert(after.last() == c);
        assert(all_digits(after)) by {
            assert forall|j: int| 0 <= j < after.len() implies is_digit(#[trigger] after[j]) by {
                if j < before.len() {
                    assert(after[j] == before[j]);
                }
            }
        }
        v = v * 10 + ((c as u32) - ('0' as u32));
        k = k + 1;
        if v >= 32768 {
            proof {
                if all_digits(t) {
                    lemma_digits_prefix(t, k - from);
                }
            }
            return None;
        }
    }
    assert(t.subrange(0, k - from) =~= t);
    Some(v as u16)
}

fn operand_at(s: &Vec<char>, from: usize, to: usize) -> (r: AValue)
    requires
        from <= to <= s@.len(),
    ensures
        r@ == operand(s@.subrange(from as int, to as int)),
{
    match literal_value(s, from, to) {
        Some(v) => AValue::Value(v),
        None => AValue::Label(substring(s, from, to)),
    }
}

fn op3_code(a: char, b: char, c: char) -> (r: Option<u8>)
    ensures
        r == op3(a, b, c),
{
    match (a, b, c) {
        ('D', '+', '1') => Some(0b0011111u8),
        ('A', '+', '1') => Some(0b0110111u8),
        ('M', '+', '1') => Some(0b1110111u8),
        ('D', '-', '1') => Some(0b0001110u8),
        ('A', '-', '1') => Some(0b0110010u8),
        ('M', '-', '1') => Some(0b1110010u8),
        ('D', '+', 'A') => Some(0b0000010u8),
        ('D', '+', 'M') => Some(0b1000010u8),
        ('D', '-', 'A') => Some(0b0010011u8),
        ('D', '-', 'M') => Some(0b1010011u8),
        ('A', '-', 'D') => Some(0b0000111u8),
        ('M', '-', 'D') => Some(0b1000111u8),
        ('D', '&', 'A') => Some(0b0000000u8),
        ('D', '&', 'M') => Some(0b1000000u8),
        ('D', '|', 'A') => Some(0b0010101u8),
        ('D', '|', 'M') => Some(0b1010101u8),
        _ => None,
    }
}

fn op2_code(a: char, b: char) -> (r: Option<u8>)
    ensures
        r == op2(a, b),
{
    match (a, b) {
        ('-', '1') => Some(0b0111010u8),
        ('!', 'D') => Some(0b0001101u8),
        ('!', 'A') => Some(0b0110001u8),
        ('!', 'M') => Some(0b1110001u8),
        ('-', 'D') => Some(0b0001111u8),
        ('-', 'A') => Some(0b0110011u8),
        ('-', 'M') => Some(0b1110011u8),
        _ => None,
    }
}

fn op1_code(a: char) -> (r: Option<u8>)
    ensures
        r == op1(a),
{
    match a {
        '0' => Some(0b0101010u8),
        '1' => Some(0b0111111u8),
        'D' => Some(0b0001100u8),
        'A' => Some(0b0110000u8),
        'M' => Some(0b1110000u8),
        _ => None,
    }
}

fn jump_of(a: char, b: char, c: char) -> (r: Option<u8>)
    ensures
        r == jump_code(a, b, c),
{
    match (a, b, c) {
        ('J', 'G', 'T') => Some(1u8),
        ('J', 'E', 'Q') => Some(2u8),
        ('J', 'G', 'E') => Some(3u8),
        ('J', 'L', 'T') => Some(4u8),
        ('J', 'N', 'E') => Some(5u8),
        ('J', 'L', 'E') => Some(6u8),
        ('J', 'M', 'P') => Some(7u8),
        _ => None,
    }
}

fn destination(s: &Vec<char>, i: usize) -> (r: Option<(u8, usize)>)
    requires
        i <= s@.len(),
    ensures
        match r {
            Some((d, k)) => dest_prefix(s@, i as int) == Some((d, k as int)) && k <= s@.len(),
            None => dest_prefix(s@, i as int) is None,
        },
{
    let a = i < s.len() && s[i] == 'A';
    let i1 = if a { i + 1 } else { i };
    let m = i1 < s.len() && s[i1] == 'M';
    let i2 = if m { i1 + 1 } else { i1 };
    let d = i2 < s.len() && s[i2] == 'D';
    let i3 = if d { i2 + 1 } else { i2 };
    if i3 < s.len() && s[i3] == '=' {
        let bits: u8 = (if a { 4u8 } else { 0u8 }) + (if d { 2u8 } else { 0u8 }) + (if m { 1u8 } else { 0u8 });
        Some((bits, i3 + 1))
    } else {
        None
    }
}

fn operation_at(s: &Vec<char>, k: usize) -> (r: Option<(u8, usize)>)
    requires
        k <= s@.len(),
    ensures
        match r {
            Some((op, p)) => match_op(s@, k as int) == Some((op, p as int)) && p <= s@.len(),
            None => match_op(s@, k as int) is None,
        },
{
    if s.len() - k >= 3 {
        if let Some(op) = op3_code(s[k], s[k + 1], s[k + 2]) {
            return Some((op, k + 3));
        }
    }
    if s.len() - k >= 2 {
        if let Some(op) = op2_code(s[k], s[k + 1]) {
            return Some((op, k + 2));
        }
    }
    if k < s.len() {
        if let Some(op) = op1_code(s[k]) {
            return Some((op, k + 1));
        }
    }
    None
}

fn c_instruction_at(s: &Vec<char>, i: usize) -> (r: Option<(Instruction, usize)>)
    requires
        i <= s@.len(),
    ensures
        match r {
            Some((ins, j)) => parse_compute(s@, i as int) == Some((ins@, j as int)) && j <= s@.len(),
            None => parse_compute(s@, i as int) is None,
        },
{
    let (dest, k) = match destination(s, i) {
        Some(p) => p,
        None => (0u8, i),
    };
    match operation_at(s, k) {
        None => None,
        Some((op, p)) => {
            if p < s.len() && s[p] == ';' {
                if s.len() - p >= 4 {
                    match jump_of(s[p + 1], s[p + 2], s[p + 3]) {
                        Some(j) => Some(
                            (Instruction::CInstruction { instruction: op, destination: dest, jump: j }, p + 4),
                        ),
                        None => None,
                    }
                } else {
                    None
                }
            } else {
                Some((Instruction::CInstruction { instruction: op, destination: dest, jump: 0 }, p))
            }
        },
    }
}

/// Parses one line, given without its line break.
pub fn parse_line_chars(s: &Vec<char>) -> (r: Option<Instruction>)
    ensures
        match r {
            Some(ins) => parse_line(s@) == Some(ins@),
            None => parse_line(s@) is None,
        },
{
    let i = skip_blanks_from(s, 0);
    if i == s.len() || comment_starts(s, i) {
        Some(Instruction::Noop)
    } else if s[i] == '(' {
        let j = skip_name_from(s, i + 1);
        if j > i + 1 && j < s.len() && s[j] == ')' && tail_is_ok(s, j + 1) {
            Some(Instruction::Label(substring(s, i + 1, j)))
        } else {
            None
        }
    } else if s[i] == '@' {
        let j = skip_name_from(s, i + 1);
        if j > i + 1 && tail_is_ok(s, j) {
            Some(Instruction::AInstruction(operand_at(s, i + 1, j)))
        } else {
            None
        }
    } else {
        match c_instruction_at(s, i) {
            Some((ins, j)) => if tail_is_ok(s, j) {
                Some(ins)
            } else {
                None
            },
            None => None,
        }
    }
}

proof fn lemma_prepend_kept(
    p: Seq<InstructionModel>,
    ins: InstructionModel,
    rest: Result<Seq<InstructionModel>, Seq<char>>,
)
    ensures
        prepend(p, prepend(kept(ins), rest)) == prepend(p + kept(ins), rest),
{
    match rest {
        Ok(r) => {
            assert(p + (kept(ins) + r) =~= (p + kept(ins)) + r);
        },
        Err(_) => {},
    }
}

/// One step of `parse_program` on the suffix that starts at `i`, whose first line ends at `e`.
proof fn lemma_parse_step(s: Seq<char>, i: int, e: int)
    requires
        0 <= i <= e <= s.len(),
        forall|j: int| i <= j < e ==> s[j] != '\n',
        e == s.len() || s[e] == '\n',
    ensures
        ({
            let line = s.subrange(i, e);
            let rest = if e < s.len() {
                parse_program(s.subrange(e + 1, s.len() as int))
            } else {
                Ok(Seq::empty())
            };
            parse_program(s.subrange(i, s.len() as int)) == match parse_line(line) {
                None => Err(line),
                Some(ins) => prepend(kept(ins), rest),
            }
        }),
{
    let suffix = s.subrange(i, s.len() as int);
    assert forall|j: int| 0 <= j < e - i implies suffix[j] != '\n' by {
        assert(suffix[j] == s[i + j]);
    }
    if e < s.len() {
        assert(suffix[e - i] == s[e]);
        assert(suffix.subrange(e - i + 1, suffix.len() as int) =~= s.subrange(e + 1, s.len() as int));
    }
    lemma_line_len(suffix, e - i);
    assert(suffix.subrange(0, e - i) =~= s.subrange(i, e));
}

/// The first line of `t` ends at `k`, the first line break (or the end).
pub proof fn lemma_line_len(t: Seq<char>, k: int)
    requires
        0 <= k <= t.len(),
        forall|j: int| 0 <= j < k ==> t[j] != '\n',
        k == t.len() || t[k] == '\n',
    ensures
        line_len(t) == k,
    decreases k,
{
    if k > 0 {
        let u = t.drop_first();
        assert forall|j: int| 0 <= j < k - 1 implies u[j] != '\n' by {
            assert(u[j] == t[j + 1]);
        }
        if k < t.len() {
            assert(u[k - 1] == t[k]);
        }
        lemma_line_len(u, k - 1);
    }
}

/// Parses a whole program. Blank and comment-only lines give no instruction.
/// The error names the line number and ends with the text of the first line
/// that is not well formed.
pub fn parse_file(contents: &str) -> (r: Result<Vec<Instruction>, String>)
    ensures
        match parse_program(contents@) {
            Ok(m) => r is Ok && models(r->Ok_0@) == m,
            Err(line) => r is Err && ends_with(r->Err_0@, line),
        },
{
    let s = chars_of(contents);
    let mut out: Vec<Instruction> = Vec::new();
    let mut i: usize = 0;
    let mut lineno: usize = 0;
    assert(s@.subrange(0, s@.len() as int) =~= s@);
    assert(models(out@) =~= Seq::<InstructionModel>::empty());
    proof {
        match parse_program(s@) {
            Ok(m) => {
                assert(Seq::<InstructionModel>::empty() + m =~= m);
            },
            Err(_) => {},
        }
    }
    loop
        invariant_except_break
            parse_program(s@) == prepend(
                models(out@),
                parse_program(s@.subrange(i as int, s@.len() as int)),
            ),
        invariant
            i <= s@.len(),
            lineno <= i,
            s@ == contents@,
        ensures
            parse_program(s@) == Ok::<Seq<InstructionModel>, Seq<char>>(models(out@)),
        decreases s@.len() - i,
    {
        let mut e: usize = i;
        while e < s.len() && s[e] != '\n'
            invariant
                i <= e <= s@.len(),
                forall|j: int| i <= j < e ==> s@[j] != '\n',
            decreases s@.len() - e,
        {
            e = e + 1;
        }
        let mut line: Vec<char> = Vec::new();
        let mut k: usize = i;
        while k < e
            invariant
                i <= k <= e <= s@.len(),
                line@ == s@.subrange(i as int, k as int),
            decreases e - k,
        {
            line.push(s[k]);
            k = k + 1;
        }
        let ghost rest = if e < s@.len() {
            parse_program(s@.subrange(e + 1, s@.len() as int))
        } else {
            Ok(Seq::empty())
        };
        proof {
            lemma_parse_step(s@, i as int, e as int);
        }
        match parse_line_chars(&line) {
            None => {
                if e == i {
                    assert(line@ =~= Seq::<char>::empty());
                }
                let mut msg = String::from_str("Syntax error on line ");
                let number = (lineno + 1).to_string();
                msg.append(number.as_str());
                msg.append(": ");
                let text = string_from_line(&line);
                msg.append(text.as_str());
                assert(parse_program(s@) == Err::<Seq<InstructionModel>, Seq<char>>(line@));
                assert(msg@.subrange(msg@.len() - line@.len(), msg@.len() as int) =~= line@);
                return Err(msg);
            },
            Some(ins) => {
                let ghost before = models(out@);
                proof {
                    lemma_prepend_kept(before, ins@, rest);
                }
                match ins {
                    Instruction::Noop => {
                        assert(before + kept(ins@) =~= before);
                    },
                    _ => {
                        out.push(ins);
                        assert(models(out@) =~= before + kept(ins@));
                    },
                }
            },
        }
        if e == s.len() {
            assert(models(out@) + Seq::<InstructionModel>::empty() =~= models(out@));
            break;
        }
        i = e + 1;
        lineno = lineno + 1;
    }
    Ok(out)
}

fn string_from_line(line: &Vec<char>) -> (r: String)
    ensures
        r@ == line@,
{
    substring(line, 0, line.len())
}

/// What is left of `s` from index `j` on.
pub open spec fn rest(s: Seq<char>, j: int) -> Seq<char> {
    s.subrange(j, s.len() as int)
}

/// `r` holds the text `left` and an instruction whose model is `ins`.
pub open spec fn parsed_as(r: Option<(String, Instruction)>, left: Seq<char>, ins: InstructionModel) -> bool {
    match r {
        Some((t, i)) => t@ == left && i@ == ins,
        None => false,
    }
}

/// A label declaration at the start of `input`, and what follows its `)`.
pub fn label(input: &str) -> (r: Option<(String, Instruction)>)
    ensures
        ({
            let s = input@;
            let j = skip_name(s, 1);
            if s.len() > 0 && s[0] == '(' && j > 1 && j < s.len() && s[j] == ')' {
                parsed_as(r, rest(s, j + 1), InstructionModel::Label(s.subrange(1, j)))
            } else {
                r is None
            }
        }),
{
    let s = chars_of(input);
    if s.len() == 0 || s[0] != '(' {
        return None;
    }
    let j = skip_name_from(&s, 1);
    if j > 1 && j < s.len() && s[j] == ')' {
        Some((substring(&s, j + 1, s.len()), Instruction::Label(substring(&s, 1, j))))
    } else {
        None
    }
}

/// A comment at the start of `input` (after blanks), and what follows it: the line break,
/// with the carriage return before it.
pub fn comment(input: &str) -> (r: Option<(String, Instruction)>)
    ensures
        ({
            let s = input@;
            let i = skip_blanks(s, 0);
            let e = line_len(s) as int;
            let end = if 0 < e < s.len() && s[e - 1] == '\r' {
                e - 1
            } else {
                e
            };
            if comment_at(s, i) && i < e {
                parsed_as(r, rest(s, end), InstructionModel::Noop)
            } else {
                r is None
            }
        }),
{
    let s = chars_of(input);
    let i = skip_blanks_from(&s, 0);
    let mut e: usize = 0;
    while e < s.len() && s[e] != '\n'
        invariant
            e <= s@.len(),
            forall|j: int| 0 <= j < e ==> s@[j] != '\n',
        decreases s@.len() - e,
    {
        e = e + 1;
    }
    proof {
        lemma_line_len(s@, e as int);
    }
    let end = if 0 < e && e < s.len() && s[e - 1] == '\r' {
        e - 1
    } else {
        e
    };
    if comment_starts(&s, i) && i < e {
        Some((substring(&s, end, s.len()), Instruction::Noop))
    } else {
        None
    }
}

/// An address instruction at the start of `input`, and what follows its operand.
pub fn a_instruction(input: &str) -> (r: Option<(String, Instruction)>)
    ensures
        ({
            let s = input@;
            let j = skip_name(s, 1);
            if s.len() > 0 && s[0] == '@' && j > 1 {
                parsed_as(r, rest(s, j), InstructionModel::AInstruction(operand(s.subrange(1, j))))
            } else {
                r is None
            }
        }),
{
    let s = chars_of(input);
    if s.len() == 0 || s[0] != '@' {
        return None;
    }
    let j = skip_name_from(&s, 1);
    if j > 1 {
        Some((substring(&s, j, s.len()), Instruction::AInstruction(operand_at(&s, 1, j))))
    } else {
        None
    }
}

/// The operation mnemonic at the start of `input`, its code, and what follows it.
pub fn operation(input: &str) -> (r: Option<(String, u8)>)
    ensures
        match match_op(input@, 0) {
            Some((op, p)) => match r {
                Some((t, c)) => t@ == rest(input@, p) && c == op,
                None => false,
            },
            None => r is None,
        },
{
    let s = chars_of(input);
    match operation_at(&s, 0) {
        Some((op, p)) => Some((substring(&s, p, s.len()), op)),
        None => None,
    }
}

/// A compute instruction at the start of `input`, and what follows it.
pub fn c_instruction(input: &str) -> (r: Option<(String, Instruction)>)
    ensures
        match parse_compute(input@, 0) {
            Some((ins, p)) => parsed_as(r, rest(input@, p), ins),
            None => r is None,
        },
{
    let s = chars_of(input);
    match c_instruction_at(&s, 0) {
        Some((ins, p)) => Some((substring(&s, p, s.len()), ins)),
        None => None,
    }
}

/// The first line of `input` with its line break, and what follows that line break.
/// A blank or comment-only line gives `Instruction::Noop`.
pub fn instruction(input: &str) -> (r: Option<(String, Instruction)>)
    ensures
        ({
            let s = input@;
            let e = line_len(s) as int;
            match parse_line(s.subrange(0, e)) {
                Some(ins) => parsed_as(r, if e < s.len() {
                    rest(s, e + 1)
                } else {
                    Seq::empty()
                }, ins),
                None => r is None,
            }
        }),
{
    let s = chars_of(input);
    let mut e: usize = 0;
    while e < s.len() && s[e] != '\n'
        invariant
            e <= s@.len(),
            forall|j: int| 0 <= j < e ==> s@[j] != '\n',
        decreases s@.len() - e,
    {
        e = e + 1;
    }
    proof {
        lemma_line_len(s@, e as int);
    }
    let line_text = substring(&s, 0, e);
    let line = chars_of(line_text.as_str());
    match parse_line_chars(&line) {
        Some(ins) => {
            let after = if e < s.len() {
                substring(&s, e + 1, s.len())
            } else {
                assert(s@.subrange(e as int, e as int) =~= Seq::<char>::empty());
                substring(&s, e, e)
            };
            Some((after, ins))
        },
        None => None,
    }
}

} // verus!
