use hack_assembler::assembler::assemble;

fn lines(v: &[&str]) -> Vec<String> {
    v.iter().map(|s| s.to_string()).collect()
}

#[test]
fn end_to_end_addition() {
    assert_eq!(
        assemble("@2\nD=A\n@3\nD=D+A\n@0\nM=D\n"),
        Ok(lines(&[
            "0000000000000010",
            "1110110000010000",
            "0000000000000011",
            "1110000010010000",
            "0000000000000000",
            "1110001100001000",
        ]))
    );
}

#[test]
fn destination_letters_round_trip() {
    assert_eq!(assemble("AMD=D+1"), Ok(lines(&["1110011111111000"])));
    assert_eq!(assemble("AM=D+1"), Ok(lines(&["1110011111101000"])));
    assert_eq!(assemble("MD=D+1"), Ok(lines(&["1110011111011000"])));
    assert_eq!(assemble("D+1"), Ok(lines(&["1110011111000000"])));
}

#[test]
fn literal_addresses() {
    assert_eq!(assemble("@0"), Ok(lines(&["0000000000000000"])));
    assert_eq!(assemble("@32767"), Ok(lines(&["0111111111111111"])));
    assert_eq!(assemble("@21845"), Ok(lines(&["0101010101010101"])));
}

#[test]
fn large_literal_is_a_variable() {
    assert_eq!(assemble("@32768"), Ok(lines(&["0000000000010000"])));
}

#[test]
fn label_takes_no_slot() {
    assert_eq!(
        assemble("(L)\n@L\n// a comment\n@L\n"),
        Ok(lines(&["0000000000000000", "0000000000000000"]))
    );
    assert_eq!(
        assemble("// header\n@1\n(L)\n@L\n"),
        Ok(lines(&["0000000000000001", "0000000000000001"]))
    );
}

#[test]
fn duplicate_label_gives_no_output() {
    let r = assemble("(L)\n(L)\n");
    assert!(r.is_err());
    assert!(r.unwrap_err().contains("L"));
}

#[test]
fn predefined_aliases() {
    assert_eq!(
        assemble("@SP\n@R0\n"),
        Ok(lines(&["0000000000000000", "0000000000000000"]))
    );
}

#[test]
fn variable_allocation_order() {
    assert_eq!(
        assemble("@foo\n@bar\n@foo\n"),
        Ok(lines(&[
            "0000000000010000",
            "0000000000010001",
            "0000000000010000"
        ]))
    );
}

#[test]
fn syntax_error_gives_no_output() {
    let r = assemble("@1\nD=A;JUMP\n@2\n");
    assert!(r.unwrap_err().ends_with("D=A;JUMP"));
}

#[test]
fn windows_line_endings() {
    assert_eq!(
        assemble("@7\r\nD=M\r\n"),
        Ok(lines(&["0000000000000111", "1111110000010000"]))
    );
}

#[test]
fn too_many_instructions_is_an_error() {
    let text = "0\n".repeat(65536);
    let r = assemble(&text);
    assert_eq!(
        r,
        Err("Program needs more addresses than 16 bits can hold".to_string())
    );
    let fits = "0\n".repeat(65535);
    assert_eq!(assemble(&fits).map(|v| v.len()), Ok(65535));
}
