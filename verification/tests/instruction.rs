use assembler::assembler::parse;
use assembler::instruction::{Comp, Compute, Dest, Instruction, Jump};

const COMPS: [(Comp, &str, u16); 28] = [
    (Comp::Zero, "0", 0b0101010),
    (Comp::One, "1", 0b0111111),
    (Comp::MinusOne, "-1", 0b0111010),
    (Comp::D, "D", 0b0001100),
    (Comp::A, "A", 0b0110000),
    (Comp::M, "M", 0b1110000),
    (Comp::NotD, "!D", 0b0001101),
    (Comp::NotA, "!A", 0b0110001),
    (Comp::NotM, "!M", 0b1110001),
    (Comp::NegD, "-D", 0b0001111),
    (Comp::NegA, "-A", 0b0110011),
    (Comp::NegM, "-M", 0b1110011),
    (Comp::IncD, "D+1", 0b0011111),
    (Comp::IncA, "A+1", 0b0110111),
    (Comp::IncM, "M+1", 0b1110111),
    (Comp::DecD, "D-1", 0b0001110),
    (Comp::DecA, "A-1", 0b0110010),
    (Comp::DecM, "M-1", 0b1110010),
    (Comp::DPlusA, "D+A", 0b0000010),
    (Comp::DPlusM, "D+M", 0b1000010),
    (Comp::DMinusA, "D-A", 0b0010011),
    (Comp::DMinusM, "D-M", 0b1010011),
    (Comp::AMinusD, "A-D", 0b0000111),
    (Comp::MMinusD, "M-D", 0b1000111),
    (Comp::DAndA, "D&A", 0b0000000),
    (Comp::DAndM, "D&M", 0b1000000),
    (Comp::DOrA, "D|A", 0b0010101),
    (Comp::DOrM, "D|M", 0b1010101),
];

const DESTS: [(&str, u16); 8] = [
    ("", 0b000),
    ("M", 0b001),
    ("D", 0b010),
    ("MD", 0b011),
    ("A", 0b100),
    ("AM", 0b101),
    ("AD", 0b110),
    ("AMD", 0b111),
];

const JUMPS: [(Jump, &str, u16); 8] = [
    (Jump::Never, "", 0b000),
    (Jump::Jgt, "JGT", 0b001),
    (Jump::Jeq, "JEQ", 0b010),
    (Jump::Jge, "JGE", 0b011),
    (Jump::Jlt, "JLT", 0b100),
    (Jump::Jne, "JNE", 0b101),
    (Jump::Jle, "JLE", 0b110),
    (Jump::Jmp, "JMP", 0b111),
];

fn dest_of(bits: u16) -> Dest {
    Dest { a: bits & 4 != 0, d: bits & 2 != 0, m: bits & 1 != 0 }
}

fn written(dest: &str, comp: &str, jump: &str) -> String {
    let mut text = String::new();
    if !dest.is_empty() {
        text.push_str(dest);
        text.push('=');
    }
    text.push_str(comp);
    if !jump.is_empty() {
        text.push(';');
        text.push_str(jump);
    }
    text
}

#[test]
fn field_codes() {
    for (comp, _, code) in COMPS {
        assert_eq!(comp.code(), code);
        assert_eq!(Comp::from_code(code), Some(comp));
    }
    let known: Vec<u16> = COMPS.iter().map(|c| c.2).collect();
    for code in 0..128u16 {
        if !known.contains(&code) {
            assert_eq!(Comp::from_code(code), None);
        }
    }
    assert_eq!(Comp::from_code(128 + 0b0101010), None);
    for (jump, _, code) in JUMPS {
        assert_eq!(jump.code(), code);
        assert_eq!(Jump::from_code(code), jump);
    }
    for (_, code) in DESTS {
        assert_eq!(dest_of(code).code(), code);
        assert_eq!(Dest::from_code(code), dest_of(code));
    }
}

#[test]
fn words_of_compute_instructions() {
    let d_is_a = Compute { dest: dest_of(0b010), comp: Comp::A, jump: Jump::Never };
    assert_eq!(d_is_a.encode(), 0b1110110000010000);
    let jump = Compute { dest: dest_of(0), comp: Comp::Zero, jump: Jump::Jmp };
    assert_eq!(jump.encode(), 0b1110101010000111);
    let all = Compute { dest: dest_of(0b111), comp: Comp::DOrM, jump: Jump::Jle };
    assert_eq!(all.encode(), 0b1111010101111110);
    assert_eq!(Compute::decode(0b1111010101111110), Some(all));
    assert_eq!(Compute::decode(0b0111010101111110), None);
    assert_eq!(Compute::decode(0b1101010101111110), None);
    assert_eq!(Compute::decode(0b1011010101111110), None);
    assert_eq!(Compute::decode(0b1110000001000000), None);
}

#[test]
fn encoding_then_decoding_gives_the_mnemonics_back() {
    for (comp, comp_text, comp_code) in COMPS {
        for (dest_text, dest_code) in DESTS {
            for (jump, jump_text, jump_code) in JUMPS {
                let source = written(dest_text, comp_text, jump_text);
                let binary = parse(&source).unwrap();
                assert_eq!(binary.len(), 16);
                let word = u16::from_str_radix(&binary, 2).unwrap();
                assert_eq!(word, 0xE000 | comp_code << 6 | dest_code << 3 | jump_code);
                let decoded = Compute::decode(word).unwrap();
                assert_eq!(decoded, Compute { dest: dest_of(dest_code), comp, jump });
                assert_eq!(decoded.comp.name(), comp_text);
                assert_eq!(decoded.jump.name(), jump_text);
                assert_eq!(decoded.encode(), word);
                assert_eq!(Instruction::decode(word), Some(Instruction::C(word)));
            }
        }
    }
}

#[test]
fn one_instruction_of_each_class() {
    let cases = [
        ("@0", "0000000000000000"),
        ("@21845", "0101010101010101"),
        ("@32767", "0111111111111111"),
        ("0", "1110101010000000"),
        ("D=M", "1111110000010000"),
        ("M=D", "1110001100001000"),
        ("AM=M-1", "1111110010101000"),
        ("D;JGT", "1110001100000001"),
        ("0;JMP", "1110101010000111"),
        ("AMD=D|M;JLE", "1111010101111110"),
        ("MD=D&A;JNE", "1110000000011101"),
    ];
    for (source, binary) in cases {
        assert_eq!(parse(source).unwrap(), binary, "{source}");
        let word = u16::from_str_radix(binary, 2).unwrap();
        let decoded = Instruction::decode(word).unwrap();
        assert_eq!(decoded.encode(), Some(word));
        match decoded {
            Instruction::A(address) => {
                assert!(source.starts_with('@'));
                assert_eq!(source[1..].parse::<u16>().unwrap(), address);
            }
            Instruction::C(word) => {
                let fields = Compute::decode(word).unwrap();
                let dest: String = [(fields.dest.a, 'A'), (fields.dest.m, 'M'), (fields.dest.d, 'D')]
                    .iter()
                    .filter(|(set, _)| *set)
                    .map(|(_, c)| *c)
                    .collect();
                assert_eq!(written(&dest, fields.comp.name(), fields.jump.name()), source);
            }
            Instruction::L(_) => panic!("a label marker has no word"),
        }
    }
}

#[test]
fn instructions_and_words() {
    assert_eq!(Instruction::A(5).encode(), Some(5));
    assert_eq!(Instruction::C(0xE000).encode(), Some(0xE000));
    assert_eq!(Instruction::L(12).encode(), None);
    assert_eq!(Instruction::decode(0), Some(Instruction::A(0)));
    assert_eq!(Instruction::decode(0x7FFF), Some(Instruction::A(0x7FFF)));
    assert_eq!(Instruction::decode(0x8000), None);
    assert_eq!(Instruction::decode(0xE000), Some(Instruction::C(0xE000)));
    assert_eq!(Instruction::decode(0xFFFF), None);
}
