use assembler::assembler::parse;
use assembler::error::Error;

fn parse_failure(source: &str) -> (usize, String, String) {
    match parse(source) {
        Err(Error::Parse { line_no, source, cause }) => (line_no, source, cause),
        other => panic!("unexpected result: {:?}", other),
    }
}

#[test]
fn parse_address_instruction() {
    let source = "@100
/";

    assert_eq!(
        parse_failure(source),
        (2, "/".to_string(), "Unknown instruction".to_string())
    );
    assert_eq!("0000000001100100", parse("@100").unwrap());
}

#[test]
fn parse_comments() {
    let source = "// This is a comment
            @200 // This is also a comment
            (LABEL) // FOO /* This shouldn't start a multi-line comment
            D=A//Comment with no whitespace separator from the instruction
              // This is a tricky comment with some whitespace before it
            M=1\t//This is a comment after a tab
            /* Some comments
             * are very tricky*/
            @LABEL/*But they still
            should be handled properly*/
            0;JMP
            /*This is*/A=1/*a really*/@foo/*crazy
            situation*/M;JEQ//but still should be fine
        ";

    let binary = parse(source);

    assert_eq!(
        [
            "0000000011001000",
            "1110110000010000",
            "1110111111001000",
            "0000000000000001",
            "1110101010000111",
            "1110111111100000",
            "0000000000010000",
            "1111110000000010",
        ]
        .join("\n"),
        binary.unwrap()
    );
}

#[test]
fn parse_labels() {
    let source = "@100
@foo 0;JEQ
M=1
@NEXT
0;JMP";

    let binary = parse(source);

    assert_eq!(
        [
            "0000000001100100",
            "0000000000010000",
            "1110101010000010",
            "1110111111001000",
            "0000000000010001",
            "1110101010000111",
        ]
        .join("\n"),
        binary.unwrap()
    );
}

#[test]
fn parse_screen() {
    let source = "@300
/*this is unfinished comment";

    assert_eq!(
        parse_failure(source),
        (
            2,
            "/*this is unfinished comment".to_string(),
            "Unterminated multiline comment".to_string()
        )
    );
    assert_eq!("0100000000000000", parse("@SCREEN").unwrap());
}

#[test]
fn parse_keyboard() {
    let source = "@100
M=1/
@NE/XT
/
0;JMP";

    assert_eq!(
        parse_failure(source),
        (2, "M=1/".to_string(), "Unknown instruction".to_string())
    );
    assert_eq!("0110000000000000", parse("@KBD").unwrap());
}

#[test]
fn parse_jump_equal() {
    let source = "/*foo*/
@100 ";

    let binary = parse(source);

    assert_eq!("0000000001100100", binary.unwrap());
    assert_eq!("1110001100000010", parse("D;JEQ").unwrap());
}

#[test]
fn parse_jump_unconditional() {
    let source = "@100/* This is";

    assert_eq!(
        parse_failure(source),
        (1, "/* This is".to_string(), "Unterminated multiline comment".to_string())
    );
    assert_eq!("1110101010000111", parse("0;JMP").unwrap());
}

#[test]
fn parse_jump_less_than() {
    assert_eq!("1110001100000100", parse("D;JLT").unwrap());
}

#[test]
fn parse_jump_less_than_or_equal() {
    assert_eq!("1110001100000110", parse("D;JLE").unwrap());
}

#[test]
fn parse_jump_greater_than() {
    assert_eq!("1110001100000001", parse("D;JGT").unwrap());
}

#[test]
fn parse_jump_greater_than_or_equal() {
    assert_eq!("1110001100000011", parse("D;JGE").unwrap());
}

#[test]
fn parse_jump_not_equal() {
    assert_eq!("1110001100000101", parse("D;JNE").unwrap());
}

#[test]
fn empty_source_gives_empty_program() {
    assert_eq!("", parse("").unwrap());
    assert_eq!("", parse("  // nothing\n/* at all */\n").unwrap());
}

#[test]
fn label_resolves_to_the_instruction_after_it() {
    let binary = parse("@100\n(LOOP)\n@LOOP\n0;JMP").unwrap();
    assert_eq!(
        binary,
        ["0000000001100100", "0000000000000001", "1110101010000111"].join("\n")
    );
}

#[test]
fn label_used_before_its_declaration_resolves_alike() {
    let before = parse("@END\n0;JMP\n(END)\n@END\n0;JMP").unwrap();
    assert_eq!(
        before,
        [
            "0000000000000010",
            "1110101010000111",
            "0000000000000010",
            "1110101010000111"
        ]
        .join("\n")
    );
}

#[test]
fn variables_get_addresses_from_16_and_keep_them() {
    let binary = parse("@foo\n@bar\n@foo").unwrap();
    assert_eq!(
        binary,
        ["0000000000010000", "0000000000010001", "0000000000010000"].join("\n")
    );
}

#[test]
fn predefined_names_are_no_variables() {
    let names = [
        ("R0", 0),
        ("R1", 1),
        ("R2", 2),
        ("R3", 3),
        ("R4", 4),
        ("R5", 5),
        ("R6", 6),
        ("R7", 7),
        ("R8", 8),
        ("R9", 9),
        ("R10", 10),
        ("R11", 11),
        ("R12", 12),
        ("R13", 13),
        ("R14", 14),
        ("R15", 15),
        ("SP", 0),
        ("LCL", 1),
        ("ARG", 2),
        ("THIS", 3),
        ("THAT", 4),
        ("SCREEN", 16384),
        ("KBD", 24576),
    ];
    for (name, address) in names {
        let binary = parse(&format!("@{name}\n@first")).unwrap();
        assert_eq!(binary, format!("{:016b}\n{:016b}", address, 16));
    }
}

#[test]
fn duplicate_label_is_an_error_at_any_distance() {
    let mut source = String::from("(TWICE)\n");
    for _ in 0..500 {
        source.push_str("D=D+1\n");
    }
    source.push_str("(TWICE)\n");
    assert_eq!(
        parse_failure(&source),
        (502, "(TWICE)".to_string(), "Duplicate label `TWICE`".to_string())
    );
    assert_eq!(
        parse_failure("(X)(X)"),
        (1, "(X)(X)".to_string(), "Invalid symbol: `X)(X`".to_string())
    );
    assert_eq!(
        parse_failure("(X) (X)"),
        (1, "(X)".to_string(), "Duplicate label `X`".to_string())
    );
}

#[test]
fn label_with_a_predefined_name_is_a_duplicate() {
    assert_eq!(
        parse_failure("@1\n(SP)"),
        (2, "(SP)".to_string(), "Duplicate label `SP`".to_string())
    );
}

#[test]
fn program_of_the_rom_size_fits() {
    let source = "0;JMP\n".repeat(32767);
    let binary = parse(&source).unwrap();
    assert_eq!(binary.lines().count(), 32767);
    assert!(binary.lines().all(|line| line == "1110101010000111"));
}

#[test]
fn program_beyond_the_rom_size_is_too_long() {
    let source = "0;JMP\n".repeat(32768);
    match parse(&source) {
        Err(Error::SourceTooLong(len)) => assert_eq!(len, 32768),
        other => panic!("unexpected result: {:?}", other.map(|text| text.len())),
    }
    let source = "0;JMP\n".repeat(40000);
    match parse(&source) {
        Err(Error::SourceTooLong(len)) => assert_eq!(len, 40000),
        other => panic!("unexpected result: {:?}", other.map(|text| text.len())),
    }
}

#[test]
fn label_beyond_the_rom_is_over_capacity() {
    let mut source = "0;JMP\n".repeat(32767);
    source.push_str("(END)\n");
    assert_eq!(parse(&source).unwrap().lines().count(), 32767);
    let mut source = "0;JMP\n".repeat(32768);
    source.push_str("(END)\n");
    assert_eq!(
        parse_failure(&source),
        (
            32769,
            "(END)".to_string(),
            "The label `END` is pointing to the address beyond the max ROM address".to_string()
        )
    );
}

#[test]
fn address_literals_encode_themselves() {
    for n in [0u16, 1, 2, 15, 16, 100, 255, 256, 9999, 16384, 32766, 32767] {
        let binary = parse(&format!("@{n}")).unwrap();
        assert_eq!(binary, format!("{:016b}", n));
        let word = u16::from_str_radix(&binary, 2).unwrap();
        assert_eq!(word & 0x7FFF, n);
        assert_eq!(word & 0x8000, 0);
    }
}

#[test]
fn address_beyond_the_range_is_rejected() {
    assert_eq!(
        parse_failure("@32768"),
        (1, "@32768".to_string(), "Address out of range: `32768`".to_string())
    );
    assert_eq!(
        parse_failure("@99999999999999999999999999"),
        (
            1,
            "@99999999999999999999999999".to_string(),
            "Address out of range: `99999999999999999999999999`".to_string()
        )
    );
}

#[test]
fn malformed_symbols_are_rejected() {
    assert_eq!(parse_failure("@"), (1, "@".to_string(), "Empty symbol".to_string()));
    assert_eq!(
        parse_failure("D=A\n  @1abc"),
        (2, "@1abc".to_string(), "Invalid symbol: `1abc`".to_string())
    );
    assert_eq!(
        parse_failure("()"),
        (1, "()".to_string(), "Empty symbol".to_string())
    );
    assert_eq!(
        parse_failure("(a-b)"),
        (1, "(a-b)".to_string(), "Invalid symbol: `a-b`".to_string())
    );
}

#[test]
fn first_error_wins() {
    assert_eq!(
        parse_failure("D=Q\n/* open"),
        (2, "/* open".to_string(), "Unterminated multiline comment".to_string())
    );
    assert_eq!(
        parse_failure("D=Q\n(1)"),
        (2, "(1)".to_string(), "Invalid symbol: `1`".to_string())
    );
    assert_eq!(
        parse_failure("D=Q\n@1x"),
        (1, "D=Q".to_string(), "Unknown instruction".to_string())
    );
}
