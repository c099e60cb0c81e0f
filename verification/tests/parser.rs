use assembler::parser::Parser;
use assembler::AsmError;

#[test]
fn test_parse_a() {
    let commands: Vec<String> = vec![];
    let parser = Parser::new(commands);
    let symbol = parser.parse_a(&"@value".to_string());
    assert_eq!(symbol, "value".to_string());
}

#[test]
fn test_parse_l() {
    let commands: Vec<String> = vec![];
    let parser = Parser::new(commands);
    let symbol = parser.parse_l(&"(loop)".to_string()).unwrap();
    assert_eq!(symbol, "loop".to_string());
}

#[test]
fn test_parse_c_without_equal() {
    let commands: Vec<String> = vec![];
    let parser = Parser::new(commands);
    let (dest, comp, jump) = parser.parse_c_without_equal(&"D;loop".to_string()).unwrap();
    assert_eq!(dest, None);
    assert_eq!(comp, Some("D".to_string()));
    assert_eq!(jump, Some("loop".to_string()));
}

#[test]
fn test_parse_c_without_semi_colon() {
    let commands: Vec<String> = vec![];
    let parser = Parser::new(commands);
    let (dest, comp, jump) = parser
        .parse_c_without_semi_colon(&"D=M".to_string())
        .unwrap();
    assert_eq!(dest, Some("D".to_string()));
    assert_eq!(comp, Some("M".to_string()));
    assert_eq!(jump, None);
}

#[test]
fn test_parse_c_with_both() {
    let commands: Vec<String> = vec![];
    let parser = Parser::new(commands);
    let (dest, comp, jump) = parser.parse_c_with_both(&"D=A;loop".to_string()).unwrap();
    assert_eq!(dest, Some("D".to_string()));
    assert_eq!(comp, Some("A".to_string()));
    assert_eq!(jump, Some("loop".to_string()));
}

#[test]
fn test_remove_comments() {
    let command = "   D=M  // this is comment".to_string();
    assert_eq!(Parser::remove_comments(command), "D=M");
}

#[test]
fn test_remove_unnecessary_parts() {
    let original_commands = vec![
        "//this is comment line".to_string(),
        "D=M // here also comment".to_string(),
        "   @19    //whitespace should be trimmed".to_string(),
    ];

    let new_commands = vec!["D=M".to_string(), "@19".to_string()];
    assert_eq!(
        Parser::remove_unnecessary_parts(original_commands),
        new_commands
    );
}

#[test]
fn test_parse_l_unclosed() {
    let commands: Vec<String> = vec![];
    let parser = Parser::new(commands);
    assert_eq!(
        parser.parse_l(&"(loop".to_string()),
        Err(AsmError::MalformedInstruction)
    );
}

#[test]
fn test_parse_c_no_separator() {
    let commands: Vec<String> = vec![];
    let parser = Parser::new(commands);
    assert_eq!(
        parser.parse_c(&"DM".to_string()),
        Err(AsmError::MalformedInstruction)
    );
}

#[test]
fn test_advance_classifies() {
    let mut parser = Parser::new(vec![
        "@2".to_string(),
        "D=A".to_string(),
        "(LOOP)".to_string(),
        "0;JMP".to_string(),
    ]);
    parser.advance().unwrap();
    assert_eq!(parser.symbol, Some("2".to_string()));
    parser.advance().unwrap();
    assert_eq!(parser.dest, Some("D".to_string()));
    assert_eq!(parser.comp, Some("A".to_string()));
    assert_eq!(parser.jump, None);
    parser.advance().unwrap();
    assert_eq!(parser.symbol, Some("LOOP".to_string()));
    parser.advance().unwrap();
    assert_eq!(parser.dest, None);
    assert_eq!(parser.comp, Some("0".to_string()));
    assert_eq!(parser.jump, Some("JMP".to_string()));
    assert!(!parser.has_more_commands);
}

#[test]
fn test_init_index_rewinds() {
    let mut parser = Parser::new(vec!["@1".to_string(), "@2".to_string()]);
    parser.advance().unwrap();
    parser.advance().unwrap();
    assert!(!parser.has_more_commands);
    parser.init_index();
    assert!(parser.has_more_commands);
    parser.advance().unwrap();
    assert_eq!(parser.symbol, Some("1".to_string()));
}
