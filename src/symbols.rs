use vstd::prelude::*;

use crate::types::{
    count_executable, lemma_count_prefix, models, AValue, AValueModel, Instruction, InstructionModel,
};
use vstd::string::StringExecFns;

verus! {

/// Symbol names (case-sensitive) mapped to 16-bit addresses, each name at most once.
pub struct SymbolTable {
    entries: Vec<(String, u16)>,
    contents: Ghost<Map<Seq<char>, u16>>,
}

impl View for SymbolTable {
    type V = Map<Seq<char>, u16>;

    closed spec fn view(&self) -> Map<Seq<char>, u16> {
        self.contents@
    }
}

impl SymbolTable {
    /// The entries hold each name once, and hold exactly the pairs of the view.
    pub closed spec fn wf(&self) -> bool {
        &&& forall|i: int, j: int|
            0 <= i < j < self.entries@.len() ==> (#[trigger] self.entries@[i]).0@
                != (#[trigger] self.entries@[j]).0@
        &&& forall|i: int|
            0 <= i < self.entries@.len() ==> self.contents@.contains_key(
                (#[trigger] self.entries@[i]).0@,
            ) && self.contents@[self.entries@[i].0@] == self.entries@[i].1
        &&& forall|k: Seq<char>|
            #[trigger] self.contents@.contains_key(k) ==> exists|i: int|
                0 <= i < self.entries@.len() && (#[trigger] self.entries@[i]).0@ == k
    }

    /// An empty table.
    pub fn new() -> (r: SymbolTable)
        ensures
            r.wf(),
            r@ == Map::<Seq<char>, u16>::empty(),
    {
        SymbolTable { entries: Vec::new(), contents: Ghost(Map::empty()) }
    }

    /// Number of names in the table.
    pub fn len(&self) -> (r: usize)
        requires
            self.wf(),
        ensures
            r == self@.len(),
    {
        proof {
            self.lemma_len();
        }
        self.entries.len()
    }

    proof fn lemma_len(&self)
        requires
            self.wf(),
        ensures
            self@.len() == self.entries@.len(),
            self@.dom().finite(),
    {
        let keys = self.entries@.map_values(|e: (String, u16)| e.0@);
        assert(keys.no_duplicates()) by {
            assert forall|i: int, j: int| 0 <= i < keys.len() && 0 <= j < keys.len() && i != j implies keys[i] != keys[j] by {
                if i < j {
                    assert(self.entries@[i].0@ != self.entries@[j].0@);
                } else {
                    assert(self.entries@[j].0@ != self.entries@[i].0@);
                }
            }
        }
        assert(self@.dom() =~= keys.to_set()) by {
            assert forall|k: Seq<char>| self@.dom().contains(k) implies keys.to_set().contains(k) by {
                let i = choose|i: int| 0 <= i < self.entries@.len() && (#[trigger] self.entries@[i]).0@ == k;
                assert(keys[i] == k);
            }
            assert forall|k: Seq<char>| keys.to_set().contains(k) implies self@.dom().contains(k) by {
                let i = choose|i: int| 0 <= i < keys.len() && keys[i] == k;
                assert(self.entries@[i].0@ == k);
            }
        }
        keys.unique_seq_to_set();
    }

    fn index_of(&self, key: &String) -> (r: Option<usize>)
        requires
            self.wf(),
        ensures
            match r {
                Some(i) => i < self.entries@.len() && self.entries@[i as int].0@ == key@,
                None => !self@.contains_key(key@),
            },
    {
        let mut i: usize = 0;
        while i < self.entries.len()
            invariant
                self.wf(),
                i <= self.entries@.len(),
                forall|j: int| 0 <= j < i ==> (#[trigger] self.entries@[j]).0@ != key@,
            decreases self.entries@.len() - i,
        {
            if self.entries[i].0 == *key {
                return Some(i);
            }
            i = i + 1;
        }
        None
    }

    /// Whether `key` is in the table.
    pub fn contains_key(&self, key: &String) -> (r: bool)
        requires
            self.wf(),
        ensures
            r == self@.contains_key(key@),
    {
        self.index_of(key).is_some()
    }

    /// The address bound to `key`, if any.
    pub fn get(&self, key: &String) -> (r: Option<u16>)
        requires
            self.wf(),
        ensures
            r == (if self@.contains_key(key@) {
                Some(self@[key@])
            } else {
                None::<u16>
            }),
    {
        match self.index_of(key) {
            Some(i) => Some(self.entries[i].1),
            None => None,
        }
    }

    /// Binds `key` to `address`, replacing an earlier binding of the same name.
    pub fn insert(&mut self, key: String, address: u16)
        requires
            old(self).wf(),
        ensures
            final(self).wf(),
            final(self)@ == old(self)@.insert(key@, address),
    {
        let ghost k = key@;
        match self.index_of(&key) {
            Some(i) => {
                self.entries.set(i, (key, address));
                self.contents = Ghost(self.contents@.insert(k, address));
                assert forall|j: int| #![auto] 0 <= j < self.entries@.len() && j != i
                    implies self.entries@[j].0@ != k by {
                    if j < i {
                        assert(old(self).entries@[j].0@ != old(self).entries@[i as int].0@);
                    } else {
                        assert(old(self).entries@[i as int].0@ != old(self).entries@[j].0@);
                    }
                }
                assert forall|q: Seq<char>| #[trigger] self.contents@.contains_key(q) implies exists|j: int|
                    0 <= j < self.entries@.len() && (#[trigger] self.entries@[j]).0@ == q by {
                    if q != k {
                        let j = choose|j: int| 0 <= j < old(self).entries@.len() && (#[trigger] old(self).entries@[j]).0@ == q;
                        assert(self.entries@[j].0@ == q);
                    } else {
                        assert(self.entries@[i as int].0@ == q);
                    }
                }
            },
            None => {
                self.entries.push((key, address));
                self.contents = Ghost(self.contents@.insert(k, address));
                assert forall|q: Seq<char>| #[trigger] self.contents@.contains_key(q) implies exists|j: int|
                    0 <= j < self.entries@.len() && (#[trigger] self.entries@[j]).0@ == q by {
                    if q != k {
                        let j = choose|j: int| 0 <= j < old(self).entries@.len() && (#[trigger] old(self).entries@[j]).0@ == q;
                        assert(self.entries@[j].0@ == q);
                    } else {
                        assert(self.entries@[self.entries@.len() - 1].0@ == q);
                    }
                }
            },
        }
    }
}

/// The predefined symbols: the virtual registers, `R0`..`R15`, the screen and the keyboard.
pub open spec fn predefined() -> Map<Seq<char>, u16> {
    Map::empty().insert("SP"@, 0x0000u16).insert("LCL"@, 0x0001u16).insert("ARG"@, 0x0002u16).insert(
        "THIS"@,
        0x0003u16,
    ).insert("THAT"@, 0x0004u16).insert("R0"@, 0x0000u16).insert("R1"@, 0x0001u16).insert(
        "R2"@,
        0x0002u16,
    ).insert("R3"@, 0x0003u16).insert("R4"@, 0x0004u16).insert("R5"@, 0x0005u16).insert(
        "R6"@,
        0x0006u16,
    ).insert("R7"@, 0x0007u16).insert("R8"@, 0x0008u16).insert("R9"@, 0x0009u16).insert(
        "R10"@,
        0x000au16,
    ).insert("R11"@, 0x000bu16).insert("R12"@, 0x000cu16).insert("R13"@, 0x000du16).insert(
        "R14"@,
        0x000eu16,
    ).insert("R15"@, 0x000fu16).insert("SCREEN"@, 0x4000u16).insert("KBD"@, 0x6000u16)
}

/// The label pass over the first `n` instructions, from table `m0`: the table with each
/// label bound to the number of address and compute instructions before it, and that
/// number after the `n` instructions; or the first label that is already in the table.
pub open spec fn label_pass(ins: Seq<InstructionModel>, n: nat, m0: Map<Seq<char>, u16>) -> Result<
    (Map<Seq<char>, u16>, nat),
    Seq<char>,
>
    decreases n,
{
    if n == 0 {
        Ok((m0, 0))
    } else {
        match label_pass(ins, (n - 1) as nat, m0) {
            Err(l) => Err(l),
            Ok((m, ip)) => match ins[n - 1] {
                InstructionModel::Label(l) => if m.contains_key(l) {
                    Err(l)
                } else {
                    Ok((m.insert(l, ip as u16), ip))
                },
                InstructionModel::Noop => Ok((m, ip)),
                _ => Ok((m, ip + 1)),
            },
        }
    }
}

/// The variable pass over the first `n` instructions, from table `m0`: each symbol operand
/// not yet in the table gets the next free address, counting up from 16; also gives the
/// next free address after the `n` instructions.
pub open spec fn variable_pass(ins: Seq<InstructionModel>, n: nat, m0: Map<Seq<char>, u16>) -> (
    Map<Seq<char>, u16>,
    nat,
)
    decreases n,
{
    if n == 0 {
        (m0, 16)
    } else {
        let (m, next) = variable_pass(ins, (n - 1) as nat, m0);
        match ins[n - 1] {
            InstructionModel::AInstruction(AValueModel::Label(v)) => if m.contains_key(v) {
                (m, next)
            } else {
                (m.insert(v, next as u16), next + 1)
            },
            _ => (m, next),
        }
    }
}

/// The resolved table of a program: predefined symbols, then labels, then variables;
/// or the first label declared twice (or named like a predefined symbol).
pub open spec fn resolve(ins: Seq<InstructionModel>) -> Result<Map<Seq<char>, u16>, Seq<char>> {
    match label_pass(ins, ins.len(), predefined()) {
        Err(l) => Err(l),
        Ok((m, _)) => Ok(variable_pass(ins, ins.len(), m).0),
    }
}

/// The message of a duplicate label.
pub open spec fn duplicate_message(l: Seq<char>) -> Seq<char> {
    "Error while adding "@ + l + " to symbol table as it already exists"@
}

/// A table that holds the predefined symbols.
pub fn get_default_symbols() -> (r: SymbolTable)
    ensures
        r.wf(),
        r@ == predefined(),
{
    let mut t = SymbolTable::new();
    t.insert(String::from_str("SP"), 0x0000);
    t.insert(String::from_str("LCL"), 0x0001);
    t.insert(String::from_str("ARG"), 0x0002);
    t.insert(String::from_str("THIS"), 0x0003);
    t.insert(String::from_str("THAT"), 0x0004);
    t.insert(String::from_str("R0"), 0x0000);
    t.insert(String::from_str("R1"), 0x0001);
    t.insert(String::from_str("R2"), 0x0002);
    t.insert(String::from_str("R3"), 0x0003);
    t.insert(String::from_str("R4"), 0x0004);
    t.insert(String::from_str("R5"), 0x0005);
    t.insert(String::from_str("R6"), 0x0006);
    t.insert(String::from_str("R7"), 0x0007);
    t.insert(String::from_str("R8"), 0x0008);
    t.insert(String::from_str("R9"), 0x0009);
    t.insert(String::from_str("R10"), 0x000a);
    t.insert(String::from_str("R11"), 0x000b);
    t.insert(String::from_str("R12"), 0x000c);
    t.insert(String::from_str("R13"), 0x000d);
    t.insert(String::from_str("R14"), 0x000e);
    t.insert(String::from_str("R15"), 0x000f);
    t.insert(String::from_str("SCREEN"), 0x4000);
    t.insert(String::from_str("KBD"), 0x6000);
    t
}

/// Once the label pass has failed, it keeps the same failure.
pub proof fn lemma_label_err_stays(ins: Seq<InstructionModel>, n: nat, k: nat, m0: Map<Seq<char>, u16>)
    requires
        n <= k,
        label_pass(ins, n, m0) is Err,
    ensures
        label_pass(ins, k, m0) == label_pass(ins, n, m0),
    decreases k - n,
{
    if n < k {
        lemma_label_err_stays(ins, n, (k - 1) as nat, m0);
    }
}

/// The addresses a program needs fit in 16 bits: its address and compute instructions,
/// and (when its labels resolve) the variables counted up from 16.
pub open spec fn addresses_fit(ins: Seq<InstructionModel>) -> bool {
    &&& count_executable(ins) < 65536
    &&& label_pass(ins, ins.len(), predefined()) is Ok ==> variable_pass(
        ins,
        ins.len(),
        label_pass(ins, ins.len(), predefined())->Ok_0.0,
    ).1 < 65536
}

/// Binds each label to the address of the instruction that follows it.
pub fn process_label_symbols(symbols: SymbolTable, instructions: &Vec<Instruction>) -> (r: Result<
    SymbolTable,
    String,
>)
    requires
        symbols.wf(),
        count_executable(models(instructions@)) < 65536,
    ensures
        match label_pass(models(instructions@), instructions@.len(), symbols@) {
            Ok((m, _)) => r is Ok && r->Ok_0.wf() && r->Ok_0@ == m,
            Err(l) => r is Err && r->Err_0@ == duplicate_message(l),
        },
{
    let ghost ins = models(instructions@);
    let mut table = symbols;
    let mut ip: u16 = 0;
    let mut k: usize = 0;
    assert(ins.subrange(0, 0) =~= Seq::<InstructionModel>::empty());
    while k < instructions.len()
        invariant
            ins == models(instructions@),
            count_executable(ins) < 65536,
            k <= instructions@.len(),
            ip as nat == count_executable(ins.subrange(0, k as int)),
            table.wf(),
            label_pass(ins, k as nat, symbols@) == Ok::<(Map<Seq<char>, u16>, nat), Seq<char>>(
                (table@, ip as nat),
            ),
        decreases instructions@.len() - k,
    {
        assert(ins[k as int] == instructions@[k as int]@);
        proof {
            let next = ins.subrange(0, k + 1);
            assert(next.drop_last() =~= ins.subrange(0, k as int));
            assert(next.last() == ins[k as int]);
            lemma_count_prefix(ins, k + 1);
        }
        match &instructions[k] {
            Instruction::Label(l) => {
                if table.contains_key(l) {
                    let mut msg = String::from_str("Error while adding ");
                    msg.append(l.as_str());
                    msg.append(" to symbol table as it already exists");
                    proof {
                        lemma_label_err_stays(ins, (k + 1) as nat, instructions@.len(), symbols@);
                    }
                    return Err(msg);
                }
                table.insert(l.clone(), ip);
            },
            Instruction::Noop => {},
            _ => {
                ip = ip + 1;
            },
        }
        k = k + 1;
    }
    Ok(table)
}

/// The next free variable address never goes down from one instruction to the next.
proof fn lemma_next_grows(ins: Seq<InstructionModel>, k: nat, n: nat, m0: Map<Seq<char>, u16>)
    requires
        k <= n <= ins.len(),
    ensures
        variable_pass(ins, k, m0).1 <= variable_pass(ins, n, m0).1,
    decreases n - k,
{
    if k < n {
        lemma_next_grows(ins, k, (n - 1) as nat, m0);
    }
}

/// The variable pass, or `None` where the next free address would pass 65535.
fn variable_symbols_checked(symbols: SymbolTable, instructions: &Vec<Instruction>) -> (r: Option<
    SymbolTable,
>)
    requires
        symbols.wf(),
    ensures
        variable_pass(models(instructions@), instructions@.len(), symbols@).1 < 65536 ==> r is Some
            && r->0.wf() && r->0@ == variable_pass(
            models(instructions@),
            instructions@.len(),
            symbols@,
        ).0,
        variable_pass(models(instructions@), instructions@.len(), symbols@).1 >= 65536 ==> r is None,
{
    let ghost ins = models(instructions@);
    let mut table = symbols;
    let mut next: u16 = 16;
    let mut k: usize = 0;
    while k < instructions.len()
        invariant
            ins == models(instructions@),
            k <= instructions@.len(),
            table.wf(),
            variable_pass(ins, k as nat, symbols@) == (table@, next as nat),
        decreases instructions@.len() - k,
    {
        assert(ins[k as int] == instructions@[k as int]@);
        if let Instruction::AInstruction(AValue::Label(v)) = &instructions[k] {
            if !table.contains_key(v) {
                if next == 65535 {
                    proof {
                        lemma_next_grows(ins, (k + 1) as nat, instructions@.len(), symbols@);
                    }
                    return None;
                }
                table.insert(v.clone(), next);
                next = next + 1;
            }
        }
        k = k + 1;
    }
    Some(table)
}

/// Gives each symbol operand that is not yet in the table the next free address from 16 on.
pub fn process_variable_symbols(symbols: SymbolTable, instructions: &Vec<Instruction>) -> (r:
    SymbolTable)
    requires
        symbols.wf(),
        variable_pass(models(instructions@), instructions@.len(), symbols@).1 < 65536,
    ensures
        r.wf(),
        r@ == variable_pass(models(instructions@), instructions@.len(), symbols@).0,
{
    match variable_symbols_checked(symbols, instructions) {
        Some(t) => t,
        None => {
            proof {
                assert(false);
            }
            SymbolTable::new()
        },
    }
}

/// Resolves every symbol of a program: predefined ones, then labels, then variables.
pub fn process_symbols(instructions: &Vec<Instruction>) -> (r: Result<SymbolTable, String>)
    requires
        addresses_fit(models(instructions@)),
    ensures
        match resolve(models(instructions@)) {
            Ok(m) => r is Ok && r->Ok_0.wf() && r->Ok_0@ == m,
            Err(l) => r is Err && r->Err_0@ == duplicate_message(l),
        },
{
    let symbols = get_default_symbols();
    match process_label_symbols(symbols, instructions) {
        Ok(labelled) => Ok(process_variable_symbols(labelled, instructions)),
        Err(e) => Err(e),
    }
}

/// The resolved table of a program, `Ok(None)` where its addresses do not fit in 16 bits,
/// or the duplicate-label message.
pub fn resolve_checked(instructions: &Vec<Instruction>) -> (r: Result<Option<SymbolTable>, String>)
    ensures
        count_executable(models(instructions@)) >= 65536 ==> r == Ok::<Option<SymbolTable>, String>(None),
        count_executable(models(instructions@)) < 65536 ==> match resolve(models(instructions@)) {
            Ok(m) => r is Ok && (addresses_fit(models(instructions@)) ==> r->Ok_0 is Some
                && r->Ok_0->0.wf() && r->Ok_0->0@ == m) && (!addresses_fit(models(instructions@))
                ==> r->Ok_0 is None),
            Err(l) => r is Err && r->Err_0@ == duplicate_message(l),
        },
{
    if !executable_fit(instructions) {
        return Ok(None);
    }
    let symbols = get_default_symbols();
    match process_label_symbols(symbols, instructions) {
        Ok(labelled) => Ok(variable_symbols_checked(labelled, instructions)),
        Err(e) => Err(e),
    }
}

/// Whether the program holds fewer than 65536 address and compute instructions.
fn executable_fit(instructions: &Vec<Instruction>) -> (r: bool)
    ensures
        r == (count_executable(models(instructions@)) < 65536),
{
    let ghost ins = models(instructions@);
    let mut n: usize = 0;
    let mut k: usize = 0;
    assert(ins.subrange(0, 0) =~= Seq::<InstructionModel>::empty());
    while k < instructions.len()
        invariant
            ins == models(instructions@),
            k <= instructions@.len(),
            n as nat == count_executable(ins.subrange(0, k as int)),
            n < 65536,
        decreases instructions@.len() - k,
    {
        proof {
            let next = ins.subrange(0, k + 1);
            assert(next.drop_last() =~= ins.subrange(0, k as int));
            assert(next.last() == ins[k as int]);
            assert(ins[k as int] == instructions@[k as int]@);
            lemma_count_prefix(ins, k + 1);
        }
        match &instructions[k] {
            Instruction::Label(_) => {},
            Instruction::Noop => {},
            _ => {
                if n == 65535 {
                    return false;
                }
                n = n + 1;
            },
        }
        k = k + 1;
    }
    assert(ins.subrange(0, k as int) =~= ins);
    true
}

} // verus!
