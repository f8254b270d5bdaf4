use hack_assembler::output::{format_machine_instruction, instruction_to_int, to_machine_instructions};
use hack_assembler::symbols::SymbolTable;
use hack_assembler::types::{AValue, Instruction};

#[test]
fn formatter() {
    assert_eq!(format_machine_instruction(0), "0000000000000000");
    assert_eq!(format_machine_instruction(0x40A0), "0100000010100000");
}

#[test]
fn a_instruction_to_int() {
    assert_eq!(
        instruction_to_int(
            &Instruction::AInstruction(AValue::Value(0x0100)),
            &SymbolTable::new()
        ),
        Some(0x0100)
    )
}

#[test]
fn a_instruction_to_int_with_label() {
    let mut symbols: SymbolTable = SymbolTable::new();
    symbols.insert(String::from("HOI"), 0x0400);

    assert_eq!(
        instruction_to_int(
            &Instruction::AInstruction(AValue::Label(String::from("HOI"))),
            &symbols
        ),
        Some(0x0400)
    )
}

#[test]
fn c_instruction() {
    assert_eq!(
        instruction_to_int(
            &Instruction::CInstruction {
                destination: 0b100,
                jump: 0b011,
                instruction: 0b0110000
            },
            &SymbolTable::new()
        ),
        Some(0b1110110000100011)
    )
}

#[test]
fn labels_and_noops_have_no_word() {
    let symbols = SymbolTable::new();
    assert_eq!(instruction_to_int(&Instruction::Noop, &symbols), None);
    assert_eq!(
        instruction_to_int(&Instruction::Label("X".to_string()), &symbols),
        None
    );
}

#[test]
fn formatter_largest_word() {
    assert_eq!(format_machine_instruction(0xFFFF), "1111111111111111");
    assert_eq!(format_machine_instruction(0x7FFF), "0111111111111111");
}

#[test]
fn output_skips_labels_and_noops() {
    let mut symbols = SymbolTable::new();
    symbols.insert("END".to_string(), 3);
    let program = vec![
        Instruction::Label("START".to_string()),
        Instruction::AInstruction(AValue::Label("END".to_string())),
        Instruction::Noop,
        Instruction::CInstruction {
            instruction: 0b0101010,
            destination: 0,
            jump: 7,
        },
    ];
    assert_eq!(
        to_machine_instructions(&program, symbols),
        vec!["0000000000000011".to_string(), "1110101010000111".to_string()]
    );
}
