use vstd::prelude::*;

use crate::output::{
    encode_program, lines_of, operands_bound, to_machine_instructions, well_formed,
};
use crate::parser::{ends_with, kept, line_len, parse_file, parse_line, parse_program};
use crate::symbols::{
    addresses_fit, duplicate_message, label_pass, resolve, resolve_checked, variable_pass,
};
use crate::types::{count_executable, models, AValueModel, InstructionModel};
use vstd::string::StringExecFns;

verus! {

/// The message for a program whose addresses do not fit in 16 bits: more than 65535
/// address and compute instructions, or variables counted past 65535.
pub open spec fn overflow_message() -> Seq<char> {
    "Program needs more addresses than 16 bits can hold"@
}

/// What a whole translation gives: the output lines, or the message of the first failure
/// (for a syntax error, the offending line, which the message ends with).
pub open spec fn assembled(s: Seq<char>) -> Result<Seq<Seq<char>>, Seq<char>> {
    match parse_program(s) {
        Err(line) => Err(line),
        Ok(ins) => if count_executable(ins) >= 65536 {
            Err(overflow_message())
        } else {
            match resolve(ins) {
                Err(l) => Err(duplicate_message(l)),
                Ok(m) => if addresses_fit(ins) {
                    Ok(encode_program(ins, m))
                } else {
                    Err(overflow_message())
                },
            }
        },
    }
}

proof fn lemma_line_well_formed(line: Seq<char>)
    requires
        parse_line(line) is Some,
    ensures
        well_formed(parse_line(line)->0),
{
}

/// Every instruction of a parsed program has fields in range, and none is a no-op.
pub proof fn lemma_parsed_well_formed(s: Seq<char>)
    requires
        parse_program(s) is Ok,
    ensures
        forall|k: int|
            0 <= k < parse_program(s)->Ok_0.len() ==> well_formed(
                #[trigger] parse_program(s)->Ok_0[k],
            ) && !(parse_program(s)->Ok_0[k] is Noop),
    decreases s.len(),
{
    let e = line_len(s);
    let line = s.subrange(0, e as int);
    lemma_line_well_formed(line);
    let ins = parse_line(line)->0;
    if e < s.len() {
        lemma_parsed_well_formed(s.subrange(e + 1int, s.len() as int));
    }
    let rest: Seq<InstructionModel> = if e < s.len() {
        parse_program(s.subrange(e + 1int, s.len() as int))->Ok_0
    } else {
        Seq::empty()
    };
    assert(parse_program(s)->Ok_0 == kept(ins) + rest);
    assert forall|k: int| 0 <= k < parse_program(s)->Ok_0.len() implies well_formed(
        #[trigger] parse_program(s)->Ok_0[k],
    ) && !(parse_program(s)->Ok_0[k] is Noop) by {
        if k >= kept(ins).len() {
            assert(parse_program(s)->Ok_0[k] == rest[k - kept(ins).len()]);
        }
    }
}

/// After the variable pass over the first `n` instructions, the table keeps every name of
/// `m0` and binds every symbol operand among those instructions.
pub proof fn lemma_variables_bound(ins: Seq<InstructionModel>, n: nat, m0: Map<Seq<char>, u16>)
    requires
        n <= ins.len(),
    ensures
        forall|l: Seq<char>| m0.contains_key(l) ==> #[trigger] variable_pass(ins, n, m0).0.contains_key(l),
        forall|k: int|
            0 <= k < n ==> match #[trigger] ins[k] {
                InstructionModel::AInstruction(AValueModel::Label(l)) => variable_pass(ins, n, m0).0.contains_key(l),
                _ => true,
            },
    decreases n,
{
    if n > 0 {
        lemma_variables_bound(ins, (n - 1) as nat, m0);
        let prev = variable_pass(ins, (n - 1) as nat, m0).0;
        assert forall|l: Seq<char>| prev.contains_key(l) implies #[trigger] variable_pass(
            ins,
            n,
            m0,
        ).0.contains_key(l) by {}
        assert forall|l: Seq<char>| m0.contains_key(l) implies #[trigger] variable_pass(
            ins,
            n,
            m0,
        ).0.contains_key(l) by {
            assert(prev.contains_key(l));
        }
    }
}

/// A resolved table binds every symbol operand of the program.
pub proof fn lemma_resolved_bound(ins: Seq<InstructionModel>)
    requires
        resolve(ins) is Ok,
    ensures
        operands_bound(ins, resolve(ins)->Ok_0),
{
    let m = label_pass(ins, ins.len(), crate::symbols::predefined())->Ok_0.0;
    lemma_variables_bound(ins, ins.len(), m);
}

/// Translates a whole program into its output lines.
pub fn assemble(contents: &str) -> (r: Result<Vec<String>, String>)
    ensures
        match assembled(contents@) {
            Ok(lines) => r is Ok && lines_of(r->Ok_0@) == lines,
            Err(msg) => r is Err && (parse_program(contents@) is Err ==> ends_with(r->Err_0@, msg))
                && (parse_program(contents@) is Ok ==> r->Err_0@ == msg),
        },
{
    let instructions = match parse_file(contents) {
        Ok(v) => v,
        Err(e) => {
            return Err(e);
        },
    };
    proof {
        lemma_parsed_well_formed(contents@);
    }
    assert(models(instructions@).len() == instructions@.len());
    match resolve_checked(&instructions) {
        Err(e) => Err(e),
        Ok(None) => Err(String::from_str("Program needs more addresses than 16 bits can hold")),
        Ok(Some(symbols)) => {
            proof {
                lemma_resolved_bound(models(instructions@));
                assert forall|k: int| 0 <= k < instructions@.len() implies well_formed(
                    #[trigger] instructions@[k]@,
                ) by {
                    assert(models(instructions@)[k] == instructions@[k]@);
                }
            }
            Ok(to_machine_instructions(&instructions, symbols))
        },
    }
}

} // verus!
