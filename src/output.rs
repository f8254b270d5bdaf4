use vstd::prelude::*;

use crate::symbols::SymbolTable;
use crate::text::string_from_chars;
use crate::types::{models, AValue, AValueModel, Instruction, InstructionModel};

verus! {

/// Field widths of a compute instruction: a 7-bit operation, a 3-bit destination and
/// a 3-bit jump.
pub open spec fn well_formed(i: InstructionModel) -> bool {
    match i {
        InstructionModel::CInstruction { instruction, destination, jump } => instruction < 128
            && destination < 8 && jump < 8,
        _ => true,
    }
}

/// Every symbol operand of `ins` is bound in `t`.
pub open spec fn operands_bound(ins: Seq<InstructionModel>, t: Map<Seq<char>, u16>) -> bool {
    forall|k: int|
        0 <= k < ins.len() ==> match #[trigger] ins[k] {
            InstructionModel::AInstruction(AValueModel::Label(l)) => t.contains_key(l),
            _ => true,
        }
}

/// The word of a compute instruction: `111`, then operation, destination and jump bits.
pub open spec fn c_word(instruction: u8, destination: u8, jump: u8) -> u16 {
    (0xE000 + instruction * 64 + destination * 8 + jump) as u16
}

/// The machine word of an instruction; labels and no-ops have none.
pub open spec fn word_of(i: InstructionModel, t: Map<Seq<char>, u16>) -> Option<u16> {
    match i {
        InstructionModel::AInstruction(AValueModel::Value(v)) => Some(v),
        InstructionModel::AInstruction(AValueModel::Label(l)) => Some(t[l]),
        InstructionModel::CInstruction { instruction, destination, jump } => Some(
            c_word(instruction, destination, jump),
        ),
        _ => None,
    }
}

/// Whether bit `k` of `w`, counted from the most significant one, is set.
pub open spec fn bit_set(w: u16, k: int) -> bool {
    (w >> ((15 - k) as u16)) & 1u16 == 1u16
}

/// The sixteen binary digits of `w`, most significant first.
pub open spec fn binary16(w: u16) -> Seq<char> {
    Seq::new(16, |k: int| if bit_set(w, k) { '1' } else { '0' })
}

/// The output lines of a program, one per address or compute instruction, in order.
pub open spec fn encode_program(ins: Seq<InstructionModel>, t: Map<Seq<char>, u16>) -> Seq<Seq<char>>
    decreases ins.len(),
{
    if ins.len() == 0 {
        Seq::empty()
    } else {
        let rest = encode_program(ins.drop_last(), t);
        match word_of(ins.last(), t) {
            Some(w) => rest.push(binary16(w)),
            None => rest,
        }
    }
}

/// The views of a sequence of strings.
pub open spec fn lines_of(v: Seq<String>) -> Seq<Seq<char>> {
    v.map_values(|s: String| s@)
}

/// The machine word of one instruction, or `None` for a label or a no-op.
pub fn instruction_to_int(instruction: &Instruction, symbols: &SymbolTable) -> (r: Option<u16>)
    requires
        symbols.wf(),
        well_formed(instruction@),
        instruction@ matches InstructionModel::AInstruction(AValueModel::Label(l)) ==> symbols@.contains_key(l),
    ensures
        r == word_of(instruction@, symbols@),
{
    match instruction {
        Instruction::AInstruction(value) => match value {
            AValue::Label(label) => symbols.get(label),
            AValue::Value(address) => Some(*address),
        },
        Instruction::CInstruction { instruction, destination, jump } => {
            Some(0xE000u16 + (*instruction as u16) * 64 + (*destination as u16) * 8 + (*jump as u16))
        },
        _ => None,
    }
}

/// A word as sixteen binary digits, most significant first.
pub fn format_machine_instruction(instr_int: u16) -> (r: String)
    ensures
        r@ == binary16(instr_int),
{
    let mut digits: Vec<char> = Vec::new();
    let mut k: u16 = 0;
    while k < 16
        invariant
            k <= 16,
            digits@.len() == k,
            forall|j: int| 0 <= j < k ==> digits@[j] == binary16(instr_int)[j],
        decreases 16 - k,
    {
        if (instr_int >> (15 - k)) & 1 == 1 {
            digits.push('1');
        } else {
            digits.push('0');
        }
        k = k + 1;
    }
    assert(digits@ =~= binary16(instr_int));
    string_from_chars(&digits)
}

/// The output lines of a program: one per address or compute instruction, in order.
pub fn to_machine_instructions(instructions: &Vec<Instruction>, symbols: SymbolTable) -> (r: Vec<
    String,
>)
    requires
        symbols.wf(),
        forall|k: int| 0 <= k < instructions@.len() ==> well_formed(#[trigger] instructions@[k]@),
        operands_bound(models(instructions@), symbols@),
    ensures
        lines_of(r@) == encode_program(models(instructions@), symbols@),
{
    let ghost ins = models(instructions@);
    let mut out: Vec<String> = Vec::new();
    let mut k: usize = 0;
    while k < instructions.len()
        invariant
            ins == models(instructions@),
            symbols.wf(),
            forall|j: int| 0 <= j < instructions@.len() ==> well_formed(#[trigger] instructions@[j]@),
            operands_bound(ins, symbols@),
            k <= instructions@.len(),
            lines_of(out@) == encode_program(ins.subrange(0, k as int), symbols@),
        decreases instructions@.len() - k,
    {
        let ghost prefix = ins.subrange(0, k + 1);
        assert(prefix.drop_last() =~= ins.subrange(0, k as int));
        assert(prefix.last() == instructions@[k as int]@);
        assert(ins[k as int] == instructions@[k as int]@);
        let ghost before = out@;
        match instruction_to_int(&instructions[k], &symbols) {
            Some(w) => {
                out.push(format_machine_instruction(w));
                assert(lines_of(out@) =~= lines_of(before).push(binary16(w)));
            },
            None => {},
        }
        k = k + 1;
    }
    assert(ins.subrange(0, k as int) =~= ins);
    out
}

} // verus!
