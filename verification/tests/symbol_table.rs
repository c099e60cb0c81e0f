use assembler::symbol_table::SymbolTable;
use assembler::AsmError;

#[test]
fn test_symbol_table_predefined() {
    let table = SymbolTable::new();
    assert_eq!(table.contains("R0".to_string()), true);
    assert_eq!(table.get_address("R0").unwrap(), format!("{:0>16b}", 0));

    assert_eq!(table.contains("KBD".to_string()), true);
    assert_eq!(table.get_address("KBD").unwrap(), format!("{:0>16b}", 24576));
}

#[test]
fn test_symbol_table() {
    let mut table = SymbolTable::new();
    let address = "0000000001100100".to_string();
    table.add_entry("symbol".to_string(), Some(address.clone()));
    assert_eq!(table.contains("symbol".to_string()), true);
    assert_eq!(table.get_address("symbol").unwrap(), address);
}

#[test]
fn test_symbol_table_not_contain() {
    let table = SymbolTable::new();
    assert_eq!(table.contains("symbol".to_string()), false);
}

#[test]
fn test_symbol_table_missing_entry() {
    let table = SymbolTable::new();
    assert_eq!(table.get_address("symbol"), Err(AsmError::EntryNotFound));
}

#[test]
fn test_ram_addr() {
    let mut table = SymbolTable::new();
    table.add_entry("address16".to_string(), None);
    table.add_entry("address17".to_string(), None);
    assert_eq!(table.contains("address16".to_string()), true);
    assert_eq!(
        table.get_address("address16").unwrap(),
        format!("{:0>16b}", 16)
    );

    assert_eq!(table.contains("address17".to_string()), true);
    assert_eq!(
        table.get_address("address17").unwrap(),
        format!("{:0>16b}", 17)
    );
}

#[test]
fn test_symbol_table_all_predefined() {
    let table = SymbolTable::new();
    let cases = [
        ("SP", 0u16),
        ("LCL", 1),
        ("ARG", 2),
        ("THIS", 3),
        ("THAT", 4),
        ("R0", 0),
        ("R1", 1),
        ("R2", 2),
        ("R3", 3),
        ("R4", 4),
        ("R5", 5),
        ("R6", 6),
        ("R7", 7),
        ("R8", 8),
        ("R9", 9),
        ("R10", 10),
        ("R11", 11),
        ("R12", 12),
        ("R13", 13),
        ("R14", 14),
        ("R15", 15),
        ("SCREEN", 16384),
        ("KBD", 24576),
    ];
    for (name, addr) in cases {
        assert!(table.contains(name.to_string()));
        assert_eq!(table.get_address(name).unwrap(), format!("{:0>16b}", addr));
    }
}

#[test]
fn test_symbol_table_rebind() {
    let mut table = SymbolTable::new();
    table.add_entry("x".to_string(), Some("0000000000000001".to_string()));
    table.add_entry("x".to_string(), Some("0000000000000010".to_string()));
    assert_eq!(table.get_address("x").unwrap(), "0000000000000010");
}
