use assembler::code::comp_to_binary;
use assembler::code::decimal_to_binary;
use assembler::code::dest_to_binary;
use assembler::code::jump_to_binary;
use assembler::AsmError;

#[test]
fn test_dest_to_binary() {
    assert_eq!("000".to_string(), dest_to_binary(&None).unwrap());
}

#[test]
fn test_jump_to_binary() {
    assert_eq!("000".to_string(), jump_to_binary(&None).unwrap());
}

#[test]
fn test_decimal_to_binary() {
    assert_eq!(
        decimal_to_binary(&"100".to_string()).unwrap(),
        "0000000001100100"
    );
}

#[test]
fn test_dest_to_binary_unknown() {
    assert_eq!(
        dest_to_binary(&Some("UnknownMnemonic".to_string())),
        Err(AsmError::UnknownMnemonic)
    );
}

#[test]
fn test_jump_to_binary_unknown() {
    assert_eq!(
        jump_to_binary(&Some("UnknownMnemonic".to_string())),
        Err(AsmError::UnknownMnemonic)
    );
}

#[test]
fn test_comp_to_binary_unknown() {
    assert_eq!(
        comp_to_binary(&Some("UnknownMnemonic".to_string())),
        Err(AsmError::UnknownMnemonic)
    );
}

#[test]
fn test_comp_to_binary_absent() {
    assert_eq!(comp_to_binary(&None), Err(AsmError::UnknownMnemonic));
}

#[test]
fn test_dest_table() {
    let cases = [
        ("M", "001"),
        ("D", "010"),
        ("MD", "011"),
        ("A", "100"),
        ("AM", "101"),
        ("AD", "110"),
        ("AMD", "111"),
    ];
    for (mnemonic, code) in cases {
        assert_eq!(dest_to_binary(&Some(mnemonic.to_string())).unwrap(), code);
    }
}

#[test]
fn test_jump_table() {
    let cases = [
        ("JGT", "001"),
        ("JEQ", "010"),
        ("JGE", "011"),
        ("JLT", "100"),
        ("JNE", "101"),
        ("JLE", "110"),
        ("JMP", "111"),
    ];
    for (mnemonic, code) in cases {
        assert_eq!(jump_to_binary(&Some(mnemonic.to_string())).unwrap(), code);
    }
}

#[test]
fn test_comp_table() {
    let cases = [
        ("0", "0101010"),
        ("1", "0111111"),
        ("-1", "0111010"),
        ("D", "0001100"),
        ("A", "0110000"),
        ("M", "1110000"),
        ("!D", "0001101"),
        ("!A", "0110001"),
        ("!M", "1110001"),
        ("-D", "0001111"),
        ("-A", "0110011"),
        ("-M", "1110011"),
        ("D+1", "0011111"),
        ("A+1", "0110111"),
        ("M+1", "1110111"),
        ("D-1", "0001110"),
        ("A-1", "0110010"),
        ("M-1", "1110010"),
        ("D+A", "0000010"),
        ("D+M", "1000010"),
        ("D-A", "0010011"),
        ("D-M", "1010011"),
        ("A-D", "0000111"),
        ("M-D", "1000111"),
        ("D&A", "0000000"),
        ("D&M", "1000000"),
        ("D|A", "0010101"),
        ("D|M", "1010101"),
    ];
    let mut seen: Vec<&str> = Vec::new();
    for (mnemonic, code) in cases {
        assert_eq!(comp_to_binary(&Some(mnemonic.to_string())).unwrap(), code);
        assert!(!seen.contains(&code), "codes must not repeat");
        seen.push(code);
    }
}

#[test]
fn test_decimal_to_binary_zero() {
    assert_eq!(
        decimal_to_binary(&"0".to_string()).unwrap(),
        "0000000000000000"
    );
}

#[test]
fn test_decimal_to_binary_max() {
    assert_eq!(
        decimal_to_binary(&"65535".to_string()).unwrap(),
        "1111111111111111"
    );
}

#[test]
fn test_decimal_to_binary_too_large() {
    assert_eq!(
        decimal_to_binary(&"65536".to_string()),
        Err(AsmError::InvalidLiteral)
    );
}

#[test]
fn test_decimal_to_binary_negative() {
    assert_eq!(
        decimal_to_binary(&"-5".to_string()),
        Err(AsmError::InvalidLiteral)
    );
}

#[test]
fn test_decimal_to_binary_empty() {
    assert_eq!(
        decimal_to_binary(&"".to_string()),
        Err(AsmError::InvalidLiteral)
    );
}
