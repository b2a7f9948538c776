use assembler::error::Error;
use assembler::labels::{resolve_labels, try_label};
use assembler::lexer::{normalize_source, Token};
use assembler::symbol::{Label, SymbolTable};

fn address(table: &SymbolTable, name: &str) -> Option<u16> {
    table.get(&Label::try_from(name).unwrap())
}

fn failure(source: &str) -> (usize, String, String) {
    let tokens = normalize_source(source).unwrap();
    match resolve_labels(SymbolTable::default(), tokens) {
        Err(Error::Parse { line_no, source, cause }) => (line_no, source, cause),
        Err(other) => panic!("unexpected error: {:?}", other),
        Ok(_) => panic!("unexpected success"),
    }
}

#[test]
fn try_label_takes_a_symbol_apart() {
    assert_eq!(try_label(""), (None, None, ""));
    assert_eq!(try_label("("), (Some('('), None, ""));
    assert_eq!(try_label("()"), (Some('('), Some(')'), ""));
    assert_eq!(try_label("(X)"), (Some('('), Some(')'), "X"));
    assert_eq!(try_label("(LOOP)"), (Some('('), Some(')'), "LOOP"));
    assert_eq!(try_label("D=A"), (Some('D'), Some('A'), "="));
    assert_eq!(try_label("\u{e9}t\u{e9}"), (Some('\u{e9}'), Some('\u{e9}'), "t"));
}

#[test]
fn labels_are_bound_to_the_next_instruction() {
    let tokens = normalize_source("(A)\n@1\n(B)\n(C)\n@2\n@3\n(D)").unwrap();
    let (table, program) = resolve_labels(SymbolTable::default(), tokens).unwrap();
    assert_eq!(address(&table, "A"), Some(0));
    assert_eq!(address(&table, "B"), Some(1));
    assert_eq!(address(&table, "C"), Some(1));
    assert_eq!(address(&table, "D"), Some(3));
    assert_eq!(address(&table, "KBD"), Some(24576));
    let texts: Vec<&str> = program.iter().map(|t| t.text).collect();
    assert_eq!(texts, vec!["@1", "@2", "@3"]);
    let places: Vec<(usize, usize)> = program.iter().map(|t| (t.line_no, t.column)).collect();
    assert_eq!(places, vec![(2, 1), (5, 1), (6, 1)]);
}

#[test]
fn label_in_the_example_points_to_instruction_one() {
    let tokens = normalize_source("@100\n(LOOP)\n@LOOP\n0;JMP").unwrap();
    let (table, program) = resolve_labels(SymbolTable::default(), tokens).unwrap();
    assert_eq!(address(&table, "LOOP"), Some(1));
    assert_eq!(program.len(), 3);
}

#[test]
fn symbols_in_brackets_only_in_part_are_instructions() {
    let tokens = normalize_source("(A (B C) ( )").unwrap();
    let (_, program) = resolve_labels(SymbolTable::default(), tokens).unwrap();
    let texts: Vec<&str> = program.iter().map(|t| t.text).collect();
    assert_eq!(texts, vec!["(A", "(B", "C)", "(", ")"]);
}

#[test]
fn first_pass_errors() {
    assert_eq!(failure("@1\n ()"), (2, "()".to_string(), "Empty symbol".to_string()));
    assert_eq!(
        failure("(9lives)"),
        (1, "(9lives)".to_string(), "Invalid symbol: `9lives`".to_string())
    );
    assert_eq!(
        failure("(A)\n@1\n@2\n(B)\n(A)"),
        (5, "(A)".to_string(), "Duplicate label `A`".to_string())
    );
    assert_eq!(
        failure("(THAT)"),
        (1, "(THAT)".to_string(), "Duplicate label `THAT`".to_string())
    );
}

#[test]
fn label_at_the_end_of_a_full_rom_is_bound() {
    let tokens: Vec<Token<'static>> = (0..32767)
        .map(|i| Token { line_no: i + 1, column: 1, text: "0;JMP" })
        .chain(std::iter::once(Token { line_no: 32768, column: 1, text: "(END)" }))
        .collect();
    let (table, program) = resolve_labels(SymbolTable::default(), tokens).unwrap();
    assert_eq!(address(&table, "END"), Some(32767));
    assert_eq!(program.len(), 32767);
}

#[test]
fn label_beyond_a_full_rom_is_refused() {
    let tokens: Vec<Token<'static>> = (0..32768)
        .map(|i| Token { line_no: i + 1, column: 1, text: "0;JMP" })
        .chain(std::iter::once(Token { line_no: 32769, column: 3, text: "(END)" }))
        .collect();
    match resolve_labels(SymbolTable::default(), tokens) {
        Err(Error::Parse { line_no, source, cause }) => {
            assert_eq!(line_no, 32769);
            assert_eq!(source, "(END)");
            assert_eq!(
                cause,
                "The label `END` is pointing to the address beyond the max ROM address"
            );
        }
        Err(other) => panic!("unexpected error: {:?}", other),
        Ok(_) => panic!("unexpected success"),
    }
}
