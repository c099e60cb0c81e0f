use assembler::assembler::assemble;
use assembler::assembler::Assembler;
use assembler::AsmError;

fn lines(src: &[&str]) -> Vec<String> {
    src.iter().map(|s| s.to_string()).collect()
}

#[test]
fn test_first_path() {
    let lines: Vec<String> = vec![
        "// symbol table test".to_string(),
        "@R0".to_string(),
        "D=M".to_string(),
        "(symbol)".to_string(),
        "D;JGT".to_string(),
    ];

    let symbol_address = format!("{:0>16b}", 2);

    let mut assembler = Assembler::new(lines);
    assembler.first_path().unwrap();
    assert_eq!(assembler.symbol_table.contains("symbol".to_string()), true);
    assert_eq!(
        assembler.symbol_table.get_address("symbol").unwrap(),
        symbol_address
    );
}

#[test]
fn test_end_to_end_add() {
    let out = assemble(lines(&["@2", "D=A", "@3", "D=D+A", "@0", "M=D"])).unwrap();
    assert_eq!(
        out,
        vec![
            "0000000000000010",
            "1110110000010000",
            "0000000000000011",
            "1110000010010000",
            "0000000000000000",
            "1110001100001000",
        ]
    );
}

#[test]
fn test_label_resolution() {
    let out = assemble(lines(&["(LOOP)", "@i", "M=M+1", "@LOOP", "0;JMP"])).unwrap();
    assert_eq!(
        out,
        vec![
            format!("{:0>16b}", 16), // @i allocates the first variable
            "1111110111001000".to_string(),
            format!("{:0>16b}", 0), // @LOOP resolves to the label's address
            "1110101010000111".to_string(),
        ]
    );
}

#[test]
fn test_forward_label_resolution() {
    // The label is referenced before it is defined; only address and
    // compute lines count towards its address, comments and labels do not.
    let out = assemble(lines(&[
        "// jump over",
        "@END",
        "0;JMP",
        "(SKIPPED)",
        "D=0",
        "(END)",
        "0;JMP",
    ]))
    .unwrap();
    assert_eq!(
        out,
        vec![
            format!("{:0>16b}", 3),
            "1110101010000111".to_string(),
            "1110101010010000".to_string(),
            "1110101010000111".to_string(),
        ]
    );
}

#[test]
fn test_variable_allocation_order() {
    let out = assemble(lines(&["@first", "@second", "@first", "@R0"])).unwrap();
    assert_eq!(
        out,
        vec![
            format!("{:0>16b}", 16), // first unseen variable takes the base
            format!("{:0>16b}", 17), // the next one the address after it
            format!("{:0>16b}", 16), // a re-reference keeps its address
            format!("{:0>16b}", 0),  // predefined names never allocate
        ]
    );
}

#[test]
fn test_rerun_is_identical() {
    let program = ["(LOOP)", "@x", "M=M+1", "@LOOP", "0;JMP", "@42", "D=A"];
    let first = assemble(lines(&program)).unwrap();
    let second = assemble(lines(&program)).unwrap();
    assert_eq!(first, second);
}

#[test]
fn test_unknown_mnemonic_aborts() {
    assert_eq!(
        assemble(lines(&["@1", "D=Q"])),
        Err(AsmError::UnknownMnemonic)
    );
}

#[test]
fn test_invalid_literal_aborts() {
    assert_eq!(
        assemble(lines(&["@65536"])),
        Err(AsmError::InvalidLiteral)
    );
}

#[test]
fn test_malformed_compute_aborts() {
    assert_eq!(
        assemble(lines(&["@1", "DM1"])),
        Err(AsmError::MalformedInstruction)
    );
}

#[test]
fn test_unclosed_label_aborts() {
    assert_eq!(
        assemble(lines(&["(LOOP", "@1"])),
        Err(AsmError::MalformedInstruction)
    );
}

#[test]
fn test_malformed_reported_before_unknown() {
    // Pass one sees the malformed line before pass two would reach the
    // unknown mnemonic on the earlier line.
    assert_eq!(
        assemble(lines(&["D=Q", "DM1"])),
        Err(AsmError::MalformedInstruction)
    );
}

#[test]
fn test_comments_and_blanks_emit_nothing() {
    let out = assemble(lines(&["", "   ", "// only a comment", "@5 // trailing", "D=A"])).unwrap();
    assert_eq!(out, vec!["0000000000000101", "1110110000010000"]);
}

#[test]
fn test_empty_program() {
    let out = assemble(lines(&[])).unwrap();
    assert!(out.is_empty());
}
