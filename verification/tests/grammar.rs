use assembler::grammar::{parse_statement, Statement};
use assembler::instruction::{Comp, Compute, Dest, Jump};

fn compute(text: &str) -> Compute {
    match parse_statement(text) {
        Ok(Statement::Compute(compute)) => compute,
        other => panic!("unexpected result for {text}: {:?}", other),
    }
}

fn fault(text: &str) -> String {
    match parse_statement(text) {
        Err(fault) => fault,
        Ok(other) => panic!("unexpected result for {text}: {:?}", other),
    }
}

fn dest(a: bool, d: bool, m: bool) -> Dest {
    Dest { a, d, m }
}

#[test]
fn address_statements() {
    assert!(matches!(parse_statement("@0"), Ok(Statement::Address(0))));
    assert!(matches!(parse_statement("@007"), Ok(Statement::Address(7))));
    assert!(matches!(parse_statement("@32767"), Ok(Statement::Address(32767))));
    assert!(matches!(
        parse_statement("@0000000000000000000000032767"),
        Ok(Statement::Address(32767))
    ));
    match parse_statement("@sys.init$0:x_") {
        Ok(Statement::Symbol(label)) => assert_eq!(label.as_str(), "sys.init$0:x_"),
        other => panic!("unexpected result: {:?}", other),
    }
    assert_eq!(fault("@32768"), "Address out of range: `32768`");
    assert_eq!(fault("@65536"), "Address out of range: `65536`");
    assert_eq!(fault("@4294967296"), "Address out of range: `4294967296`");
    assert_eq!(fault("@"), "Empty symbol");
    assert_eq!(fault("@-1"), "Invalid symbol: `-1`");
    assert_eq!(fault("@1.5"), "Invalid symbol: `1.5`");
    assert_eq!(fault("@@x"), "Invalid symbol: `@x`");
    assert_eq!(fault("@\u{0663}"), "Invalid symbol: `\u{0663}`");
}

#[test]
fn every_computation_is_read() {
    let all = [
        ("0", Comp::Zero),
        ("1", Comp::One),
        ("-1", Comp::MinusOne),
        ("D", Comp::D),
        ("A", Comp::A),
        ("M", Comp::M),
        ("!D", Comp::NotD),
        ("!A", Comp::NotA),
        ("!M", Comp::NotM),
        ("-D", Comp::NegD),
        ("-A", Comp::NegA),
        ("-M", Comp::NegM),
        ("D+1", Comp::IncD),
        ("A+1", Comp::IncA),
        ("M+1", Comp::IncM),
        ("D-1", Comp::DecD),
        ("A-1", Comp::DecA),
        ("M-1", Comp::DecM),
        ("D+A", Comp::DPlusA),
        ("D+M", Comp::DPlusM),
        ("D-A", Comp::DMinusA),
        ("D-M", Comp::DMinusM),
        ("A-D", Comp::AMinusD),
        ("M-D", Comp::MMinusD),
        ("D&A", Comp::DAndA),
        ("D&M", Comp::DAndM),
        ("D|A", Comp::DOrA),
        ("D|M", Comp::DOrM),
    ];
    for (text, comp) in all {
        assert_eq!(comp.name(), text);
        assert_eq!(
            compute(text),
            Compute { dest: dest(false, false, false), comp, jump: Jump::Never }
        );
        assert_eq!(
            compute(&format!("MD={text};JNE")),
            Compute { dest: dest(false, true, true), comp, jump: Jump::Jne }
        );
    }
}

#[test]
fn destinations_in_any_order() {
    let all = [
        ("A", dest(true, false, false)),
        ("D", dest(false, true, false)),
        ("M", dest(false, false, true)),
        ("AD", dest(true, true, false)),
        ("DA", dest(true, true, false)),
        ("AM", dest(true, false, true)),
        ("MA", dest(true, false, true)),
        ("DM", dest(false, true, true)),
        ("MD", dest(false, true, true)),
        ("ADM", dest(true, true, true)),
        ("AMD", dest(true, true, true)),
        ("DAM", dest(true, true, true)),
        ("DMA", dest(true, true, true)),
        ("MAD", dest(true, true, true)),
        ("MDA", dest(true, true, true)),
    ];
    for (text, dest) in all {
        assert_eq!(
            compute(&format!("{text}=D+1")),
            Compute { dest, comp: Comp::IncD, jump: Jump::Never }
        );
    }
    for text in ["=D", "AA=D", "DMD=1", "ADMA=1", "X=1", "a=1", "A D=1", "AMDX=0"] {
        assert_eq!(fault(text), "Unknown instruction");
    }
}

#[test]
fn every_jump_is_read() {
    let all = [
        ("JGT", Jump::Jgt),
        ("JEQ", Jump::Jeq),
        ("JGE", Jump::Jge),
        ("JLT", Jump::Jlt),
        ("JNE", Jump::Jne),
        ("JLE", Jump::Jle),
        ("JMP", Jump::Jmp),
    ];
    for (text, jump) in all {
        assert_eq!(jump.name(), text);
        assert_eq!(
            compute(&format!("0;{text}")),
            Compute { dest: dest(false, false, false), comp: Comp::Zero, jump }
        );
    }
    assert_eq!(Jump::Never.name(), "");
    for text in ["0;", "0;JMP;", "0;jmp", "0;JXX", "0;JMPP", ";JMP", "0;JMP;JMP"] {
        assert_eq!(fault(text), "Unknown instruction");
    }
}

#[test]
fn what_is_no_instruction() {
    for text in [
        "", "=", ";", "=;", "D=", "D=;JMP", "D=A=M", "D=A;JMP=M", "D;JMP=A", "A+D", "1+D", "D+2",
        "D +1", "d+1", "D=M+", "0;JMP ", "(LOOP)", "/", "M=1/", "D==A", "2",
    ] {
        assert_eq!(fault(text), "Unknown instruction", "{text}");
    }
}
