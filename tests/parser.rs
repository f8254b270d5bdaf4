use hack_assembler::parser::{
    a_instruction, c_instruction, comment, instruction, label, operation, parse_file,
};
use hack_assembler::types::{AValue, Instruction};

#[test]
fn comment_with_newline() {
    assert_eq!(
        comment("// abddef\r\n"),
        Some(("\r\n".to_string(), Instruction::Noop))
    );
}

#[test]
fn comment_with_leading_whitespace() {
    assert_eq!(
        comment("    //   dsadas"),
        Some(("".to_string(), Instruction::Noop))
    );
}

#[test]
fn simple_label() {
    assert_eq!(
        label("(nice)"),
        Some(("".to_string(), Instruction::Label("nice".to_string())))
    )
}

#[test]
fn label_with_surrounding_whitespaces() {
    assert_eq!(
        label("(noice) "),
        Some((" ".to_string(), Instruction::Label("noice".to_string())))
    )
}

#[test]
fn instruction_with_trailing_comment() {
    assert_eq!(
        instruction("(somelabel)          // test "),
        Some(("".to_string(), Instruction::Label("somelabel".to_string())))
    )
}

#[test]
fn instruction_with_extra_spaces() {
    assert_eq!(
        instruction("       (some_label)    \r\n"),
        Some(("".to_string(), Instruction::Label("some_label".to_string())))
    )
}

#[test]
fn a_instruction_with_value() {
    assert_eq!(
        a_instruction("@1234"),
        Some(("".to_string(), Instruction::AInstruction(AValue::Value(1234))))
    )
}

#[test]
fn a_instruction_with_label() {
    assert_eq!(
        a_instruction("@OUTPUT_LABEL"),
        Some((
            "".to_string(),
            Instruction::AInstruction(AValue::Label("OUTPUT_LABEL".to_string()))
        ))
    )
}

#[test]
fn a_instruction_with_value_out_of_range_u16() {
    assert_eq!(
        a_instruction("@654654"),
        Some((
            "".to_string(),
            Instruction::AInstruction(AValue::Label("654654".to_string()))
        ))
    )
}

#[test]
fn a_instruction_with_value_out_of_range_u15() {
    assert_eq!(
        a_instruction("@35000"),
        Some((
            "".to_string(),
            Instruction::AInstruction(AValue::Label("35000".to_string()))
        ))
    )
}

#[test]
fn a_instruction_with_trailing_non_digits() {
    assert_eq!(
        instruction("@1337abc"),
        Some((
            "".to_string(),
            Instruction::AInstruction(AValue::Label("1337abc".to_string()))
        ))
    )
}

#[test]
fn destination_() {
    let code = |s: &str| match c_instruction(s) {
        Some((_, Instruction::CInstruction { destination, .. })) => Some(destination),
        _ => None,
    };
    assert_eq!(code("A=0"), Some(4));
    assert_eq!(code("M=0"), Some(1));
    assert_eq!(code("D=0"), Some(2));
    assert_eq!(code("AMD=0"), Some(7));
    assert_eq!(code("AD=0"), Some(6));
    assert_eq!(c_instruction("DA=0"), Some(("A=0".to_string(), Instruction::CInstruction {
        instruction: 0b0001100,
        destination: 0,
        jump: 0
    })));
}

#[test]
fn operation_() {
    assert_eq!(operation("A+1"), Some(("".to_string(), 0b0110111)));
    assert_eq!(operation("D   "), Some(("   ".to_string(), 0b0001100)));
}

#[test]
fn c_instruction_() {
    assert_eq!(
        c_instruction("A=D+1;JEQ"),
        Some((
            "".to_string(),
            Instruction::CInstruction {
                instruction: 0b0011111,
                destination: 4,
                jump: 2
            }
        ))
    );
    assert_eq!(
        c_instruction("D=D+A"),
        Some((
            "".to_string(),
            Instruction::CInstruction {
                instruction: 0b10,
                destination: 2,
                jump: 0
            }
        ))
    );
}

#[test]
fn every_operation_mnemonic() {
    let table: [(&str, u8); 28] = [
        ("D+1", 0b0011111),
        ("A+1", 0b0110111),
        ("M+1", 0b1110111),
        ("D-1", 0b0001110),
        ("A-1", 0b0110010),
        ("M-1", 0b1110010),
        ("D+A", 0b0000010),
        ("D+M", 0b1000010),
        ("D-A", 0b0010011),
        ("D-M", 0b1010011),
        ("A-D", 0b0000111),
        ("M-D", 0b1000111),
        ("D&A", 0b0000000),
        ("D&M", 0b1000000),
        ("D|A", 0b0010101),
        ("D|M", 0b1010101),
        ("0", 0b0101010),
        ("1", 0b0111111),
        ("-1", 0b0111010),
        ("D", 0b0001100),
        ("A", 0b0110000),
        ("M", 0b1110000),
        ("!D", 0b0001101),
        ("!A", 0b0110001),
        ("!M", 0b1110001),
        ("-D", 0b0001111),
        ("-A", 0b0110011),
        ("-M", 0b1110011),
    ];
    for (mnemonic, code) in table.iter() {
        assert_eq!(operation(mnemonic), Some(("".to_string(), *code)));
    }
    assert_eq!(operation("X"), None);
}

#[test]
fn every_jump_mnemonic() {
    let jumps = ["JGT", "JEQ", "JGE", "JLT", "JNE", "JLE", "JMP"];
    for (k, j) in jumps.iter().enumerate() {
        let text = format!("0;{}", j);
        assert_eq!(
            c_instruction(&text),
            Some((
                "".to_string(),
                Instruction::CInstruction {
                    instruction: 0b0101010,
                    destination: 0,
                    jump: (k + 1) as u8
                }
            ))
        );
    }
    assert_eq!(c_instruction("0;JXX"), None);
}

#[test]
fn literal_bounds() {
    assert_eq!(
        a_instruction("@32767"),
        Some(("".to_string(), Instruction::AInstruction(AValue::Value(32767))))
    );
    assert_eq!(
        a_instruction("@32768"),
        Some((
            "".to_string(),
            Instruction::AInstruction(AValue::Label("32768".to_string()))
        ))
    );
    assert_eq!(
        a_instruction("@0"),
        Some(("".to_string(), Instruction::AInstruction(AValue::Value(0))))
    );
}

#[test]
fn unicode_symbol_names() {
    assert_eq!(
        a_instruction("@café"),
        Some((
            "".to_string(),
            Instruction::AInstruction(AValue::Label("café".to_string()))
        ))
    );
    assert_eq!(a_instruction("@€"), None);
}

#[test]
fn empty_and_blank_documents() {
    assert_eq!(parse_file(""), Ok(vec![]));
    assert_eq!(parse_file("\n\n   \n// only a comment\n\t\n"), Ok(vec![]));
}

#[test]
fn program_drops_comments_and_blank_lines() {
    assert_eq!(
        parse_file("  // start\n(LOOP)\n@LOOP // jump back\n\n0;JMP\n"),
        Ok(vec![
            Instruction::Label("LOOP".to_string()),
            Instruction::AInstruction(AValue::Label("LOOP".to_string())),
            Instruction::CInstruction {
                instruction: 0b0101010,
                destination: 0,
                jump: 7
            },
        ])
    );
}

#[test]
fn syntax_error_names_line() {
    let err = parse_file("@1\nD=Q\n").unwrap_err();
    assert!(err.ends_with("D=Q"));
    assert!(err.contains("line 2"));
    assert!(parse_file("(unclosed\n").is_err());
    assert!(parse_file("D=A junk\n").is_err());
    assert!(parse_file("@\n").is_err());
}
