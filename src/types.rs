use vstd::prelude::*;

verus! {

/// Operand of an address instruction: a literal or a symbol to be resolved.
#[derive(Debug, PartialEq, Clone)]
pub enum AValue {
    Label(String),
    Value(u16),
}

/// Mathematical model of an `AValue`: symbol names become character sequences.
pub enum AValueModel {
    Label(Seq<char>),
    Value(u16),
}

impl View for AValue {
    type V = AValueModel;

    open spec fn view(&self) -> AValueModel {
        match self {
            AValue::Label(s) => AValueModel::Label(s@),
            AValue::Value(v) => AValueModel::Value(*v),
        }
    }
}

/// One line of a program.
#[derive(Debug, PartialEq, Clone)]
pub enum Instruction {
    AInstruction(AValue),
    CInstruction { instruction: u8, destination: u8, jump: u8 },
    Label(String),
    Noop,
}

/// Mathematical model of an `Instruction`.
pub enum InstructionModel {
    AInstruction(AValueModel),
    CInstruction { instruction: u8, destination: u8, jump: u8 },
    Label(Seq<char>),
    Noop,
}

impl View for Instruction {
    type V = InstructionModel;

    open spec fn view(&self) -> InstructionModel {
        match self {
            Instruction::AInstruction(a) => InstructionModel::AInstruction(a@),
            Instruction::CInstruction { instruction, destination, jump } =>
                InstructionModel::CInstruction {
                    instruction: *instruction,
                    destination: *destination,
                    jump: *jump,
                },
            Instruction::Label(s) => InstructionModel::Label(s@),
            Instruction::Noop => InstructionModel::Noop,
        }
    }
}

impl Default for Instruction {
    fn default() -> (r: Self)
        ensures
            r@ == InstructionModel::Noop,
    {
        Instruction::Noop
    }
}

/// The models of a sequence of instructions, in order.
pub open spec fn models(v: Seq<Instruction>) -> Seq<InstructionModel> {
    v.map_values(|i: Instruction| i@)
}

/// Address and compute instructions occupy a slot in instruction memory.
pub open spec fn is_executable(i: InstructionModel) -> bool {
    i is AInstruction || i is CInstruction
}

/// Number of address and compute instructions in `ins`.
pub open spec fn count_executable(ins: Seq<InstructionModel>) -> nat
    decreases ins.len(),
{
    if ins.len() == 0 {
        0
    } else {
        count_executable(ins.drop_last()) + if is_executable(ins.last()) {
            1nat
        } else {
            0nat
        }
    }
}

/// A prefix holds no more address and compute instructions than the whole, and the
/// whole no more than its length.
pub proof fn lemma_count_prefix(ins: Seq<InstructionModel>, k: int)
    requires
        0 <= k <= ins.len(),
    ensures
        count_executable(ins.subrange(0, k)) <= count_executable(ins),
        count_executable(ins) <= ins.len(),
    decreases ins.len(),
{
    if ins.len() > 0 {
        if k == ins.len() {
            assert(ins.subrange(0, k) =~= ins);
            lemma_count_prefix(ins.drop_last(), k - 1);
        } else {
            lemma_count_prefix(ins.drop_last(), k);
            assert(ins.drop_last().subrange(0, k) =~= ins.subrange(0, k));
        }
    }
}

} // verus!
