use assembler::error::Error;
use assembler::lexer::{normalize_source, Token};

fn texts<'a>(tokens: &[Token<'a>]) -> Vec<&'a str> {
    tokens.iter().map(|t| t.text).collect()
}

fn positions(tokens: &[Token<'_>]) -> Vec<(usize, usize)> {
    tokens.iter().map(|t| (t.line_no, t.column)).collect()
}

fn failure(source: &str) -> (usize, String, String) {
    match normalize_source(source) {
        Err(Error::Parse { line_no, source, cause }) => (line_no, source, cause),
        other => panic!("unexpected result: {:?}", other),
    }
}

#[test]
fn comments_abutting_symbols_leave_no_empty_tokens() {
    let tokens = normalize_source("A=1/*a really*/@foo").unwrap();
    assert_eq!(texts(&tokens), vec!["A=1", "@foo"]);
    assert_eq!(positions(&tokens), vec![(1, 1), (1, 16)]);
}

#[test]
fn line_comment_forms_give_the_same_token() {
    for source in ["D=A//comment", "D=A // comment", "D=A"] {
        let tokens = normalize_source(source).unwrap();
        assert_eq!(texts(&tokens), vec!["D=A"]);
        assert_eq!(positions(&tokens), vec![(1, 1)]);
    }
}

#[test]
fn normalizing_the_symbols_again_gives_them_back() {
    let source = "  @1 // one\n/* two */ D=M;JGT /* three\n*/ M=1/ (END)//\n";
    let first = normalize_source(source).unwrap();
    assert_eq!(texts(&first), vec!["@1", "D=M;JGT", "M=1/", "(END)"]);
    let joined = texts(&first).join(" ");
    let second = normalize_source(&joined).unwrap();
    assert_eq!(texts(&second), texts(&first));
}

#[test]
fn trailing_slash_stays_in_the_symbol() {
    let tokens = normalize_source("@100\nM=1/\n@NE/XT\n/\n0;JMP").unwrap();
    assert_eq!(texts(&tokens), vec!["@100", "M=1/", "@NE/XT", "/", "0;JMP"]);
    assert_eq!(positions(&tokens), vec![(1, 1), (2, 1), (3, 1), (4, 1), (5, 1)]);
}

#[test]
fn columns_count_from_one_on_every_line() {
    let tokens = normalize_source(" a  bc\n\td e\n\n   f").unwrap();
    assert_eq!(texts(&tokens), vec!["a", "bc", "d", "e", "f"]);
    assert_eq!(positions(&tokens), vec![(1, 2), (1, 5), (2, 2), (2, 4), (4, 4)]);
}

#[test]
fn symbol_after_a_block_comment_has_its_own_position() {
    let tokens = normalize_source("/*one\ntwo*/X /* three\n\n*/Y").unwrap();
    assert_eq!(texts(&tokens), vec!["X", "Y"]);
    assert_eq!(positions(&tokens), vec![(2, 6), (4, 3)]);
}

#[test]
fn comment_openers_need_a_slash_inside_a_symbol() {
    let tokens = normalize_source("*x /y a*b").unwrap();
    assert_eq!(texts(&tokens), vec!["*x", "/y", "a*b"]);
    let tokens = normalize_source("/*a*/*b*/").unwrap();
    assert_eq!(texts(&tokens), vec!["*b*/"]);
    assert_eq!(positions(&tokens), vec![(1, 6)]);
    let tokens = normalize_source("/*a*//b").unwrap();
    assert_eq!(texts(&tokens), vec!["/b"]);
    let tokens = normalize_source("/*a*///b\nc").unwrap();
    assert_eq!(texts(&tokens), vec!["c"]);
}

#[test]
fn block_comment_closes_only_on_star_slash() {
    assert_eq!(
        failure("/*/"),
        (1, "/*/".to_string(), "Unterminated multiline comment".to_string())
    );
    let tokens = normalize_source("/**/x").unwrap();
    assert_eq!(texts(&tokens), vec!["x"]);
    let tokens = normalize_source("/***/x").unwrap();
    assert_eq!(texts(&tokens), vec!["x"]);
    let tokens = normalize_source("/* // */x").unwrap();
    assert_eq!(texts(&tokens), vec!["x"]);
    let tokens = normalize_source("// /* \nx */").unwrap();
    assert_eq!(texts(&tokens), vec!["x", "*/"]);
}

#[test]
fn unterminated_block_comment_names_its_line() {
    assert_eq!(
        failure("@300\n  /*this is\nunfinished comment"),
        (
            2,
            "/*this is\nunfinished comment".to_string(),
            "Unterminated multiline comment".to_string()
        )
    );
    assert_eq!(
        failure("a\nb\nc/*"),
        (3, "/*".to_string(), "Unterminated multiline comment".to_string())
    );
    assert_eq!(
        failure("a/* one */\n\nb/* two *"),
        (3, "/* two *".to_string(), "Unterminated multiline comment".to_string())
    );
}

#[test]
fn every_kind_of_whitespace_separates() {
    let tokens = normalize_source("a\r\nb\u{000B}c\u{000C}d\u{00A0}e\u{2003}f\u{3000}g").unwrap();
    assert_eq!(texts(&tokens), vec!["a", "b", "c", "d", "e", "f", "g"]);
    assert_eq!(
        positions(&tokens),
        vec![(1, 1), (2, 1), (2, 3), (2, 5), (2, 7), (2, 9), (2, 11)]
    );
}

#[test]
fn offsets_count_characters_not_bytes() {
    let tokens = normalize_source("// caf\u{e9}\n\u{e9}t\u{e9} /* \u{4e2d}\u{6587} */ D=A").unwrap();
    assert_eq!(texts(&tokens), vec!["\u{e9}t\u{e9}", "D=A"]);
    assert_eq!(positions(&tokens), vec![(2, 1), (2, 14)]);
    assert_eq!(
        failure("\u{e9}\n x/*\u{4e2d}"),
        (2, "/*\u{4e2d}".to_string(), "Unterminated multiline comment".to_string())
    );
}

#[test]
fn empty_and_blank_sources_have_no_symbols() {
    assert!(normalize_source("").unwrap().is_empty());
    assert!(normalize_source(" \n\t\n").unwrap().is_empty());
    assert!(normalize_source("//").unwrap().is_empty());
    assert!(normalize_source("/**/").unwrap().is_empty());
}
