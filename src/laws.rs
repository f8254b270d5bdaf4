use vstd::prelude::*;

use crate::output::{binary16, bit_set, c_word, encode_program, word_of};
use crate::parser::{
    all_digits, digits_value, is_digit, is_label_char, kept, operand, parse_line,
    parse_program, skip_blanks, skip_name, tail_ok, dest_bits, dest_prefix, match_op,
    parse_compute,
};
use crate::assembler::assembled;
use crate::symbols::{label_pass, lemma_label_err_stays, predefined, resolve, variable_pass};
use crate::types::{count_executable, lemma_count_prefix, AValueModel, InstructionModel};

verus! {

/// The decimal digit character of `d`.
pub open spec fn digit_char(d: nat) -> char {
    if d == 0 {
        '0'
    } else if d == 1 {
        '1'
    } else if d == 2 {
        '2'
    } else if d == 3 {
        '3'
    } else if d == 4 {
        '4'
    } else if d == 5 {
        '5'
    } else if d == 6 {
        '6'
    } else if d == 7 {
        '7'
    } else if d == 8 {
        '8'
    } else {
        '9'
    }
}

/// The decimal numeral of `v`, without leading zeros.
pub open spec fn decimal(v: nat) -> Seq<char>
    decreases v,
{
    if v < 10 {
        seq![digit_char(v)]
    } else {
        decimal(v / 10).push(digit_char(v % 10))
    }
}

proof fn lemma_digit_char(d: nat)
    requires
        d < 10,
    ensures
        is_digit(digit_char(d)),
        ((digit_char(d) as u32) - ('0' as u32)) as nat == d,
{
}

proof fn lemma_decimal(v: nat)
    ensures
        decimal(v).len() >= 1,
        all_digits(decimal(v)),
        digits_value(decimal(v)) == v,
    decreases v,
{
    if v < 10 {
        lemma_digit_char(v);
        let t = decimal(v);
        assert(t.drop_last() =~= Seq::<char>::empty());
        assert(digits_value(t.drop_last()) == 0);
    } else {
        lemma_digit_char(v % 10);
        lemma_decimal(v / 10);
        let t = decimal(v);
        assert(t.drop_last() =~= decimal(v / 10));
        assert(v == (v / 10) * 10 + v % 10) by (nonlinear_arith);
        assert forall|k: int| 0 <= k < t.len() implies is_digit(#[trigger] t[k]) by {
            if k < t.len() - 1 {
                assert(t[k] == decimal(v / 10)[k]);
            }
        }
    }
}

proof fn lemma_skip_name_all(s: Seq<char>, i: int)
    requires
        0 <= i <= s.len(),
        forall|k: int| i <= k < s.len() ==> is_label_char(#[trigger] s[k]),
    ensures
        skip_name(s, i) == s.len(),
    decreases s.len() - i,
{
    if i < s.len() {
        lemma_skip_name_all(s, i + 1);
    }
}

/// The line `@` followed by the numeral of `v` parses to the one address instruction
/// whose operand is `operand` of that numeral.
proof fn lemma_address_line(v: nat)
    ensures
        parse_program(seq!['@'] + decimal(v)) == Ok::<Seq<InstructionModel>, Seq<char>>(
            seq![InstructionModel::AInstruction(operand(decimal(v)))],
        ),
{
    lemma_decimal(v);
    let t = decimal(v);
    let s = seq!['@'] + t;
    assert forall|k: int| 1 <= k < s.len() implies is_label_char(#[trigger] s[k]) by {
        assert(s[k] == t[k - 1]);
        assert(is_digit(t[k - 1]));
    }
    lemma_skip_name_all(s, 1);
    assert(s.subrange(1, s.len() as int) =~= t);
    assert(skip_blanks(s, 0) == 0);
    assert(skip_blanks(s, s.len() as int) == s.len());
    assert(tail_ok(s, s.len() as int));
    assert forall|k: int| 0 <= k < s.len() implies s[k] != '\n' by {
        if k > 0 {
            assert(s[k] == t[k - 1]);
            assert(is_digit(t[k - 1]));
        }
    }
    crate::parser::lemma_line_len(s, s.len() as int);
    assert(s.subrange(0, s.len() as int) =~= s);
    let ins = InstructionModel::AInstruction(operand(t));
    assert(parse_line(s) == Some(ins));
    assert(kept(ins) + Seq::<InstructionModel>::empty() =~= seq![ins]);
}

/// An address instruction with a literal below 2^15 parses to that literal and is emitted
/// as its sixteen binary digits, whose first digit is `0`.
pub proof fn law_literal_address(v: u16, t: Map<Seq<char>, u16>)
    requires
        v < 32768,
    ensures
        parse_program(seq!['@'] + decimal(v as nat)) == Ok::<Seq<InstructionModel>, Seq<char>>(
            seq![InstructionModel::AInstruction(AValueModel::Value(v))],
        ),
        encode_program(seq![InstructionModel::AInstruction(AValueModel::Value(v))], t) == seq![
            binary16(v),
        ],
        binary16(v)[0] == '0',
{
    lemma_address_line(v as nat);
    lemma_decimal(v as nat);
    let ins = seq![InstructionModel::AInstruction(AValueModel::Value(v))];
    assert(ins.drop_last() =~= Seq::<InstructionModel>::empty());
    assert(encode_program(ins.drop_last(), t) == Seq::<Seq<char>>::empty());
    assert(word_of(ins.last(), t) == Some(v));
    assert(Seq::<Seq<char>>::empty().push(binary16(v)) =~= seq![binary16(v)]);
    assert((v >> 15u16) & 1u16 == 0u16) by (bit_vector)
        requires
            v < 32768,
    ;
}

/// An address instruction whose literal is 2^15 or more is read as a symbol named by
/// its digits.
pub proof fn law_large_literal_is_symbol(v: nat)
    requires
        v >= 32768,
    ensures
        parse_program(seq!['@'] + decimal(v)) == Ok::<Seq<InstructionModel>, Seq<char>>(
            seq![InstructionModel::AInstruction(AValueModel::Label(decimal(v)))],
        ),
{
    lemma_address_line(v);
    lemma_decimal(v);
}

/// The destination letters that are present, in the order `A`, `M`, `D`.
pub open spec fn dest_letters(a: bool, m: bool, d: bool) -> Seq<char> {
    (if a {
        seq!['A']
    } else {
        Seq::empty()
    }) + (if m {
        seq!['M']
    } else {
        Seq::empty()
    }) + (if d {
        seq!['D']
    } else {
        Seq::empty()
    })
}

proof fn lemma_c_word_bits(o: u16, dd: u16, j: u16, w: u16)
    requires
        o < 128,
        dd < 8,
        j < 8,
        w == 0xE000u16 | (o << 6u16) | (dd << 3u16) | j,
    ensures
        (w >> 15u16) & 1u16 == 1u16,
        (w >> 14u16) & 1u16 == 1u16,
        (w >> 13u16) & 1u16 == 1u16,
        (w >> 5u16) & 1u16 == (dd >> 2u16) & 1u16,
        (w >> 4u16) & 1u16 == (dd >> 1u16) & 1u16,
        (w >> 3u16) & 1u16 == dd & 1u16,
{
    assert({
        &&& (w >> 15u16) & 1u16 == 1u16
        &&& (w >> 14u16) & 1u16 == 1u16
        &&& (w >> 13u16) & 1u16 == 1u16
        &&& (w >> 5u16) & 1u16 == (dd >> 2u16) & 1u16
        &&& (w >> 4u16) & 1u16 == (dd >> 1u16) & 1u16
        &&& (w >> 3u16) & 1u16 == dd & 1u16
    }) by (bit_vector)
        requires
            o < 128,
            dd < 8,
            j < 8,
            w == 0xE000u16 | (o << 6u16) | (dd << 3u16) | j,
    ;
}

proof fn lemma_c_word_or(o: u16, dd: u16, j: u16)
    requires
        o < 128,
        dd < 8,
        j < 8,
    ensures
        0xE000u16 | (o << 6u16) | (dd << 3u16) | j == 0xE000 + o * 64 + dd * 8 + j,
{
    assert(0xE000u16 | (o << 6u16) | (dd << 3u16) | j == (0xE000u16 + o * 64u16 + dd * 8u16 + j)
        as u16) by (bit_vector)
        requires
            o < 128,
            dd < 8,
            j < 8,
    ;
}

proof fn lemma_dest_bit_values(a: u16, m: u16, d: u16)
    requires
        a < 2,
        m < 2,
        d < 2,
    ensures
        (((a * 4 + d * 2 + m) as u16) >> 2u16) & 1u16 == a,
        (((a * 4 + d * 2 + m) as u16) >> 1u16) & 1u16 == d,
        ((a * 4 + d * 2 + m) as u16) & 1u16 == m,
{
    assert({
        &&& (((a * 4u16 + d * 2u16 + m) as u16) >> 2u16) & 1u16 == a
        &&& (((a * 4u16 + d * 2u16 + m) as u16) >> 1u16) & 1u16 == d
        &&& ((a * 4u16 + d * 2u16 + m) as u16) & 1u16 == m
    }) by (bit_vector)
        requires
            a < 2,
            m < 2,
            d < 2,
    ;
}

/// A destination prefix made of any of the letters `A`, `M`, `D` (in that order) and `=`
/// gives A 4, D 2 and M 1, summed; in the emitted word, after the leading `111`, these are
/// the three destination digits, `A` first, then `D`, then `M`.
pub proof fn law_destination_bits(a: bool, m: bool, d: bool, rest: Seq<char>, op: u8, jump: u8)
    requires
        op < 128,
        jump < 8,
    ensures
        dest_bits(a, m, d) as int == 4 * (if a { 1int } else { 0 }) + 2 * (if d { 1int } else { 0 })
            + (if m { 1int } else { 0 }),
        (dest_letters(a, m, d) + seq!['='] + rest).subrange(
            dest_letters(a, m, d).len() + 1int,
            dest_letters(a, m, d).len() + 1int + rest.len(),
        ) == rest,
        match_op(rest, 0) == Some((op, rest.len() as int)) ==> parse_compute(
            dest_letters(a, m, d) + seq!['='] + rest,
            0,
        ) == Some(
            (
                InstructionModel::CInstruction {
                    instruction: op,
                    destination: dest_bits(a, m, d),
                    jump: 0,
                },
                dest_letters(a, m, d).len() + 1int + rest.len(),
            ),
        ),
        dest_prefix(dest_letters(a, m, d) + seq!['='] + rest, 0) == Some(
            (dest_bits(a, m, d), dest_letters(a, m, d).len() + 1int),
        ),
        ({
            let b = binary16(c_word(op, dest_bits(a, m, d), jump));
            &&& b[0] == '1' && b[1] == '1' && b[2] == '1'
            &&& b[10] == (if a { '1' } else { '0' })
            &&& b[11] == (if d { '1' } else { '0' })
            &&& b[12] == (if m { '1' } else { '0' })
        }),
{
    let l = dest_letters(a, m, d);
    let s = l + seq!['='] + rest;
    let q: int = l.len() + 1int;
    assert(s[l.len() as int] == '=');
    assert(s.subrange(q, q + rest.len()) =~= rest);
    assert forall|i: int| 0 <= i < rest.len() implies s[q + i] == rest[i] by {}
    if match_op(rest, 0) == Some((op, rest.len() as int)) {
        assert(match_op(s, q) == Some((op, q + rest.len())));
    }
    if a {
        assert(s[0] == 'A');
    }
    if m {
        assert(s[(if a { 1int } else { 0 })] == 'M');
    }
    if d {
        assert(s[(if a { 1int } else { 0 }) + (if m { 1int } else { 0 })] == 'D');
    }
    let ab: u16 = if a { 1 } else { 0 };
    let mb: u16 = if m { 1 } else { 0 };
    let db: u16 = if d { 1 } else { 0 };
    lemma_dest_bit_values(ab, mb, db);
    let dd: u16 = (ab * 4 + db * 2 + mb) as u16;
    assert(dd == dest_bits(a, m, d) as u16);
    let o = op as u16;
    let j = jump as u16;
    lemma_c_word_or(o, dd, j);
    let w = c_word(op, dest_bits(a, m, d), jump);
    assert(w == 0xE000u16 | (o << 6u16) | (dd << 3u16) | j);
    lemma_c_word_bits(o, dd, j, w);
    assert(bit_set(w, 0) && bit_set(w, 1) && bit_set(w, 2));
    assert(bit_set(w, 10) == a);
    assert(bit_set(w, 11) == d);
    assert(bit_set(w, 12) == m);
}

proof fn lemma_label_kept(ins: Seq<InstructionModel>, n: nat, m0: Map<Seq<char>, u16>, i: int)
    requires
        n <= ins.len(),
        0 <= i < n,
        ins[i] is Label,
        label_pass(ins, n, m0) is Ok,
    ensures
        label_pass(ins, n, m0)->Ok_0.0.contains_key(ins[i]->Label_0),
    decreases n,
{
    if i < n - 1 {
        lemma_label_kept(ins, (n - 1) as nat, m0, i);
    }
}

/// A program that declares one label twice fails to resolve, and so gives no output.
pub proof fn law_duplicate_label(s: Seq<char>, i: int, j: int)
    requires
        parse_program(s) is Ok,
        0 <= i < j < parse_program(s)->Ok_0.len(),
        parse_program(s)->Ok_0[i] is Label,
        parse_program(s)->Ok_0[j] == parse_program(s)->Ok_0[i],
    ensures
        resolve(parse_program(s)->Ok_0) is Err,
        assembled(s) is Err,
{
    let ins = parse_program(s)->Ok_0;
    let m0 = predefined();
    if label_pass(ins, j as nat, m0) is Ok {
        lemma_label_kept(ins, j as nat, m0, i);
        assert(label_pass(ins, (j + 1) as nat, m0) is Err);
    }
    if label_pass(ins, (j + 1) as nat, m0) is Ok {
        lemma_label_err_stays(ins, j as nat, (j + 1) as nat, m0);
    }
    lemma_label_err_stays(ins, (j + 1) as nat, ins.len(), m0);
}

proof fn lemma_label_values(ins: Seq<InstructionModel>, n: nat, m0: Map<Seq<char>, u16>)
    requires
        n <= ins.len(),
        label_pass(ins, n, m0) is Ok,
    ensures
        label_pass(ins, n, m0)->Ok_0.1 == count_executable(ins.subrange(0, n as int)),
        forall|k: int|
            0 <= k < n && (#[trigger] ins[k]) is Label ==> label_pass(ins, n, m0)->Ok_0.0[ins[k]->Label_0]
                == count_executable(ins.subrange(0, k)) as u16,
    decreases n,
{
    if n > 0 {
        let p = (n - 1) as nat;
        lemma_label_values(ins, p, m0);
        assert(ins.subrange(0, n as int).drop_last() =~= ins.subrange(0, p as int));
        let (m, ip) = label_pass(ins, p, m0)->Ok_0;
        assert forall|k: int|
            0 <= k < n && (#[trigger] ins[k]) is Label implies label_pass(ins, n, m0)->Ok_0.0[ins[k]->Label_0]
                == count_executable(ins.subrange(0, k)) as u16 by {
            if k < p {
                lemma_label_kept(ins, p, m0, k);
            }
        }
    }
}

proof fn lemma_variables_keep(ins: Seq<InstructionModel>, n: nat, m0: Map<Seq<char>, u16>, l: Seq<char>)
    requires
        n <= ins.len(),
        m0.contains_key(l),
    ensures
        variable_pass(ins, n, m0).0.contains_key(l),
        variable_pass(ins, n, m0).0[l] == m0[l],
    decreases n,
{
    if n > 0 {
        lemma_variables_keep(ins, (n - 1) as nat, m0, l);
    }
}

/// A label is bound to the number of address and compute instructions before it: label
/// declarations (and comments, which parsing drops) take no slot.
pub proof fn law_label_address(ins: Seq<InstructionModel>, k: int)
    requires
        resolve(ins) is Ok,
        count_executable(ins) < 65536,
        0 <= k < ins.len(),
        ins[k] is Label,
    ensures
        resolve(ins)->Ok_0[ins[k]->Label_0] == count_executable(ins.subrange(0, k)),
{
    let m0 = predefined();
    lemma_label_values(ins, ins.len(), m0);
    lemma_label_kept(ins, ins.len(), m0, k);
    let m = label_pass(ins, ins.len(), m0)->Ok_0.0;
    lemma_variables_keep(ins, ins.len(), m, ins[k]->Label_0);
    lemma_count_prefix(ins, k);
}

/// The output holds one line per address or compute instruction, and none for a label
/// declaration.
pub proof fn law_output_length(ins: Seq<InstructionModel>, t: Map<Seq<char>, u16>)
    ensures
        encode_program(ins, t).len() == count_executable(ins),
    decreases ins.len(),
{
    if ins.len() > 0 {
        law_output_length(ins.drop_last(), t);
    }
}

} // verus!
