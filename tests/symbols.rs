use hack_assembler::symbols::{get_default_symbols, process_symbols, SymbolTable};
use hack_assembler::types::{AValue, Instruction};

fn lookup(t: &SymbolTable, name: &str) -> Option<u16> {
    t.get(&name.to_string())
}

#[test]
fn predefined_symbols() {
    let t = get_default_symbols();
    assert_eq!(t.len(), 23);
    assert_eq!(lookup(&t, "SP"), Some(0));
    assert_eq!(lookup(&t, "R0"), Some(0));
    assert_eq!(lookup(&t, "THAT"), Some(4));
    assert_eq!(lookup(&t, "R4"), Some(4));
    assert_eq!(lookup(&t, "R15"), Some(15));
    assert_eq!(lookup(&t, "SCREEN"), Some(0x4000));
    assert_eq!(lookup(&t, "KBD"), Some(0x6000));
    assert_eq!(lookup(&t, "sp"), None);
}

#[test]
fn table_insert_replaces() {
    let mut t = SymbolTable::new();
    t.insert("A".to_string(), 1);
    t.insert("A".to_string(), 2);
    assert_eq!(t.len(), 1);
    assert_eq!(lookup(&t, "A"), Some(2));
    assert!(t.contains_key(&"A".to_string()));
    assert!(!t.contains_key(&"B".to_string()));
}

#[test]
fn labels_bind_to_next_instruction() {
    let program = vec![
        Instruction::Label("L".to_string()),
        Instruction::AInstruction(AValue::Label("L".to_string())),
        Instruction::AInstruction(AValue::Value(5)),
        Instruction::Label("M2".to_string()),
        Instruction::CInstruction {
            instruction: 0,
            destination: 0,
            jump: 0,
        },
    ];
    let t = process_symbols(&program).unwrap();
    assert_eq!(lookup(&t, "L"), Some(0));
    assert_eq!(lookup(&t, "M2"), Some(2));
    assert_eq!(t.len(), 25);
}

#[test]
fn duplicate_label_is_an_error() {
    let program = vec![
        Instruction::Label("L".to_string()),
        Instruction::Label("L".to_string()),
    ];
    let err = match process_symbols(&program) {
        Err(e) => e,
        Ok(_) => panic!("a duplicate label was accepted"),
    };
    assert_eq!(
        err,
        "Error while adding L to symbol table as it already exists"
    );
}

#[test]
fn label_named_like_predefined_symbol_is_an_error() {
    let program = vec![Instruction::Label("SP".to_string())];
    assert!(process_symbols(&program).is_err());
}

#[test]
fn variables_from_sixteen() {
    let program = vec![
        Instruction::AInstruction(AValue::Label("foo".to_string())),
        Instruction::AInstruction(AValue::Label("bar".to_string())),
        Instruction::AInstruction(AValue::Label("foo".to_string())),
        Instruction::AInstruction(AValue::Label("R3".to_string())),
    ];
    let t = process_symbols(&program).unwrap();
    assert_eq!(lookup(&t, "foo"), Some(16));
    assert_eq!(lookup(&t, "bar"), Some(17));
    assert_eq!(lookup(&t, "R3"), Some(3));
}

#[test]
fn labels_win_over_variables() {
    let program = vec![
        Instruction::AInstruction(AValue::Label("END".to_string())),
        Instruction::AInstruction(AValue::Label("x".to_string())),
        Instruction::Label("END".to_string()),
    ];
    let t = process_symbols(&program).unwrap();
    assert_eq!(lookup(&t, "END"), Some(2));
    assert_eq!(lookup(&t, "x"), Some(16));
}

#[test]
fn labels_do_not_count_toward_address_limit() {
    let mut program = vec![Instruction::Label("START".to_string())];
    for _ in 0..65535 {
        program.push(Instruction::CInstruction {
            instruction: 0b0101010,
            destination: 0,
            jump: 0,
        });
    }
    program.push(Instruction::Label("END".to_string()));
    assert_eq!(program.len(), 65537);
    let t = process_symbols(&program).unwrap();
    assert_eq!(lookup(&t, "START"), Some(0));
    assert_eq!(lookup(&t, "END"), Some(65535));
}
