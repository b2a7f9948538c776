//! Instructions, their fields and their 16-bit words.
//!
//! A compute instruction is written `dest=comp;jump`, where `dest=` and
//! `;jump` may be left out. Its word holds `111` in bits 15 to 13, the `a` bit
//! (set where the computation reads `M`) in bit 12, the code of the
//! computation in bits 11 to 6, the destinations in bits 5 to 3 and the jump
//! in bits 2 to 0. An address instruction is written `@` and an address; its
//! word is the address, with bit 15 clear.

use vstd::prelude::*;
use crate::ROM_SIZE;

verus! {

/// The registers that a compute instruction stores its result in.
#[derive(Debug, Clone, Copy, PartialEq, Eq, Structural)]
pub struct Dest {
    pub a: bool,
    pub d: bool,
    pub m: bool,
}

/// The computations of the ALU.
#[derive(Debug, Clone, Copy, PartialEq, Eq, Structural)]
pub enum Comp {
    Zero,
    One,
    MinusOne,
    D,
    A,
    M,
    NotD,
    NotA,
    NotM,
    NegD,
    NegA,
    NegM,
    IncD,
    IncA,
    IncM,
    DecD,
    DecA,
    DecM,
    DPlusA,
    DPlusM,
    DMinusA,
    DMinusM,
    AMinusD,
    MMinusD,
    DAndA,
    DAndM,
    DOrA,
    DOrM,
}

/// The condition on which a compute instruction jumps.
#[derive(Debug, Clone, Copy, PartialEq, Eq, Structural)]
pub enum Jump {
    /// No jump.
    Never,
    Jgt,
    Jeq,
    Jge,
    Jlt,
    Jne,
    Jle,
    Jmp,
}

/// The fields of a compute instruction.
#[derive(Debug, Clone, Copy, PartialEq, Eq, Structural)]
pub struct Compute {
    pub dest: Dest,
    pub comp: Comp,
    pub jump: Jump,
}

impl Dest {
    /// The destination bits: `A` in bit 2, `D` in bit 1, `M` in bit 0.
    pub open spec fn bits(self) -> nat {
        (if self.a {
            4nat
        } else {
            0
        }) + (if self.d {
            2nat
        } else {
            0
        }) + (if self.m {
            1nat
        } else {
            0
        })
    }

    /// How the destinations are written: the letters of the registers, `A`
    /// before `D` before `M`. Nothing is written where there is none.
    pub open spec fn mnemonic(self) -> Seq<char> {
        (if self.a {
            seq!['A']
        } else {
            Seq::empty()
        }) + (if self.d {
            seq!['D']
        } else {
            Seq::empty()
        }) + (if self.m {
            seq!['M']
        } else {
            Seq::empty()
        })
    }

    /// The destinations whose bits are `bits`.
    pub open spec fn of_bits(bits: nat) -> Dest {
        Dest { a: bits / 4 % 2 == 1, d: bits / 2 % 2 == 1, m: bits % 2 == 1 }
    }

    /// The destination bits of this value.
    pub fn code(&self) -> (r: u16)
        ensures
            r == self.bits(),
            r < 8,
    {
        let a: u16 = if self.a {
            4
        } else {
            0
        };
        let d: u16 = if self.d {
            2
        } else {
            0
        };
        let m: u16 = if self.m {
            1
        } else {
            0
        };
        a + d + m
    }

    /// The destinations whose bits are `bits`.
    pub fn from_code(bits: u16) -> (r: Dest)
        requires
            bits < 8,
        ensures
            r == Dest::of_bits(bits as nat),
            r.bits() == bits,
    {
        Dest { a: bits / 4 % 2 == 1, d: bits / 2 % 2 == 1, m: bits % 2 == 1 }
    }
}

impl Comp {
    /// How the computation is written.
    pub open spec fn mnemonic(self) -> Seq<char> {
        match self {
            Comp::Zero => "0"@,
            Comp::One => "1"@,
            Comp::MinusOne => "-1"@,
            Comp::D => "D"@,
            Comp::A => "A"@,
            Comp::M => "M"@,
            Comp::NotD => "!D"@,
            Comp::NotA => "!A"@,
            Comp::NotM => "!M"@,
            Comp::NegD => "-D"@,
            Comp::NegA => "-A"@,
            Comp::NegM => "-M"@,
            Comp::IncD => "D+1"@,
            Comp::IncA => "A+1"@,
            Comp::IncM => "M+1"@,
            Comp::DecD => "D-1"@,
            Comp::DecA => "A-1"@,
            Comp::DecM => "M-1"@,
            Comp::DPlusA => "D+A"@,
            Comp::DPlusM => "D+M"@,
            Comp::DMinusA => "D-A"@,
            Comp::DMinusM => "D-M"@,
            Comp::AMinusD => "A-D"@,
            Comp::MMinusD => "M-D"@,
            Comp::DAndA => "D&A"@,
            Comp::DAndM => "D&M"@,
            Comp::DOrA => "D|A"@,
            Comp::DOrM => "D|M"@,
        }
    }

    /// Whether the computation reads `M`, the memory, where its twin reads
    /// the register `A`.
    pub open spec fn reads_memory(self) -> bool {
        match self {
            Comp::M
            | Comp::NotM
            | Comp::NegM
            | Comp::IncM
            | Comp::DecM
            | Comp::DPlusM
            | Comp::DMinusM
            | Comp::MMinusD
            | Comp::DAndM
            | Comp::DOrM => true,
            _ => false,
        }
    }

    /// The six bits that select the computation; a computation on `M` has
    /// those of its twin on `A`.
    pub open spec fn bits(self) -> nat {
        match self {
            Comp::Zero => 0b101010,
            Comp::One => 0b111111,
            Comp::MinusOne => 0b111010,
            Comp::D => 0b001100,
            Comp::A | Comp::M => 0b110000,
            Comp::NotD => 0b001101,
            Comp::NotA | Comp::NotM => 0b110001,
            Comp::NegD => 0b001111,
            Comp::NegA | Comp::NegM => 0b110011,
            Comp::IncD => 0b011111,
            Comp::IncA | Comp::IncM => 0b110111,
            Comp::DecD => 0b001110,
            Comp::DecA | Comp::DecM => 0b110010,
            Comp::DPlusA | Comp::DPlusM => 0b000010,
            Comp::DMinusA | Comp::DMinusM => 0b010011,
            Comp::AMinusD | Comp::MMinusD => 0b000111,
            Comp::DAndA | Comp::DAndM => 0b000000,
            Comp::DOrA | Comp::DOrM => 0b010101,
        }
    }

    /// The `a` bit followed by the six bits of the computation.
    pub open spec fn field(self) -> nat {
        (if self.reads_memory() {
            64nat
        } else {
            0
        }) + self.bits()
    }

    /// The computation whose `a` bit and six bits make `field`, if there is
    /// one.
    pub open spec fn of_field(field: nat) -> Option<Comp> {
        if exists|c: Comp| c.field() == field {
            Some(choose|c: Comp| c.field() == field)
        } else {
            None
        }
    }

    /// The `a` bit followed by the six bits of this computation.
    pub fn code(&self) -> (r: u16)
        ensures
            r == self.field(),
            r < 128,
    {
        match self {
            Comp::Zero => 0b0101010,
            Comp::One => 0b0111111,
            Comp::MinusOne => 0b0111010,
            Comp::D => 0b0001100,
            Comp::A => 0b0110000,
            Comp::M => 0b1110000,
            Comp::NotD => 0b0001101,
            Comp::NotA => 0b0110001,
            Comp::NotM => 0b1110001,
            Comp::NegD => 0b0001111,
            Comp::NegA => 0b0110011,
            Comp::NegM => 0b1110011,
            Comp::IncD => 0b0011111,
            Comp::IncA => 0b0110111,
            Comp::IncM => 0b1110111,
            Comp::DecD => 0b0001110,
            Comp::DecA => 0b0110010,
            Comp::DecM => 0b1110010,
            Comp::DPlusA => 0b0000010,
            Comp::DPlusM => 0b1000010,
            Comp::DMinusA => 0b0010011,
            Comp::DMinusM => 0b1010011,
            Comp::AMinusD => 0b0000111,
            Comp::MMinusD => 0b1000111,
            Comp::DAndA => 0b0000000,
            Comp::DAndM => 0b1000000,
            Comp::DOrA => 0b0010101,
            Comp::DOrM => 0b1010101,
        }
    }

    /// The computation whose `a` bit and six bits make `field`, if there is
    /// one.
    pub fn from_code(field: u16) -> (r: Option<Comp>)
        ensures
            r == Comp::of_field(field as nat),
            r matches Some(c) ==> c.field() == field,
            r is None ==> forall|c: Comp| c.field() != field,
    {
        let r = if field == 0b0101010 {
            Some(Comp::Zero)
        } else if field == 0b0111111 {
            Some(Comp::One)
        } else if field == 0b0111010 {
            Some(Comp::MinusOne)
        } else if field == 0b0001100 {
            Some(Comp::D)
        } else if field == 0b0110000 {
            Some(Comp::A)
        } else if field == 0b1110000 {
            Some(Comp::M)
        } else if field == 0b0001101 {
            Some(Comp::NotD)
        } else if field == 0b0110001 {
            Some(Comp::NotA)
        } else if field == 0b1110001 {
            Some(Comp::NotM)
        } else if field == 0b0001111 {
            Some(Comp::NegD)
        } else if field == 0b0110011 {
            Some(Comp::NegA)
        } else if field == 0b1110011 {
            Some(Comp::NegM)
        } else if field == 0b0011111 {
            Some(Comp::IncD)
        } else if field == 0b0110111 {
            Some(Comp::IncA)
        } else if field == 0b1110111 {
            Some(Comp::IncM)
        } else if field == 0b0001110 {
            Some(Comp::DecD)
        } else if field == 0b0110010 {
            Some(Comp::DecA)
        } else if field == 0b1110010 {
            Some(Comp::DecM)
        } else if field == 0b0000010 {
            Some(Comp::DPlusA)
        } else if field == 0b1000010 {
            Some(Comp::DPlusM)
        } else if field == 0b0010011 {
            Some(Comp::DMinusA)
        } else if field == 0b1010011 {
            Some(Comp::DMinusM)
        } else if field == 0b0000111 {
            Some(Comp::AMinusD)
        } else if field == 0b1000111 {
            Some(Comp::MMinusD)
        } else if field == 0b0000000 {
            Some(Comp::DAndA)
        } else if field == 0b1000000 {
            Some(Comp::DAndM)
        } else if field == 0b0010101 {
            Some(Comp::DOrA)
        } else if field == 0b1010101 {
            Some(Comp::DOrM)
        } else {
            None
        };
        proof {
            lemma_comp_field_is_one_to_one();
            match r {
                Some(c) => {
                    assert(c.field() == field);
                },
                None => {
                    assert forall|c: Comp| c.field() != field by {}
                },
            }
        }
        r
    }
}

impl Comp {
    /// How the computation is written.
    pub fn name(&self) -> (text: &'static str)
        ensures
            text@ == self.mnemonic(),
    {
        match self {
            Comp::Zero => "0",
            Comp::One => "1",
            Comp::MinusOne => "-1",
            Comp::D => "D",
            Comp::A => "A",
            Comp::M => "M",
            Comp::NotD => "!D",
            Comp::NotA => "!A",
            Comp::NotM => "!M",
            Comp::NegD => "-D",
            Comp::NegA => "-A",
            Comp::NegM => "-M",
            Comp::IncD => "D+1",
            Comp::IncA => "A+1",
            Comp::IncM => "M+1",
            Comp::DecD => "D-1",
            Comp::DecA => "A-1",
            Comp::DecM => "M-1",
            Comp::DPlusA => "D+A",
            Comp::DPlusM => "D+M",
            Comp::DMinusA => "D-A",
            Comp::DMinusM => "D-M",
            Comp::AMinusD => "A-D",
            Comp::MMinusD => "M-D",
            Comp::DAndA => "D&A",
            Comp::DAndM => "D&M",
            Comp::DOrA => "D|A",
            Comp::DOrM => "D|M",
        }
    }
}

/// No two computations are written alike.
pub proof fn lemma_comp_mnemonic_is_one_to_one()
    ensures
        forall|c1: Comp, c2: Comp| c1.mnemonic() == c2.mnemonic() ==> c1 == c2,
{
    reveal_strlit("0");
    reveal_strlit("1");
    reveal_strlit("-1");
    reveal_strlit("D");
    reveal_strlit("A");
    reveal_strlit("M");
    reveal_strlit("!D");
    reveal_strlit("!A");
    reveal_strlit("!M");
    reveal_strlit("-D");
    reveal_strlit("-A");
    reveal_strlit("-M");
    reveal_strlit("D+1");
    reveal_strlit("A+1");
    reveal_strlit("M+1");
    reveal_strlit("D-1");
    reveal_strlit("A-1");
    reveal_strlit("M-1");
    reveal_strlit("D+A");
    reveal_strlit("D+M");
    reveal_strlit("D-A");
    reveal_strlit("D-M");
    reveal_strlit("A-D");
    reveal_strlit("M-D");
    reveal_strlit("D&A");
    reveal_strlit("D&M");
    reveal_strlit("D|A");
    reveal_strlit("D|M");
    assert forall|c1: Comp, c2: Comp| c1.mnemonic() == c2.mnemonic() implies c1 == c2 by {
        let s1 = c1.mnemonic();
        let s2 = c2.mnemonic();
        assert(s1.len() == s2.len());
        assert(s1[0] == s2[0]);
        assert(s1[1] == s2[1]);
        assert(s1[2] == s2[2]);
    }
}

/// A computation is written with one to three characters, none of them `=`
/// or `;`.
pub proof fn lemma_comp_mnemonic_shape(comp: Comp)
    ensures
        1 <= comp.mnemonic().len() <= 3,
        forall|k: int|
            0 <= k < comp.mnemonic().len() ==> (#[trigger] comp.mnemonic()[k]) != '='
                && comp.mnemonic()[k] != ';',
{
    reveal_strlit("0");
    reveal_strlit("1");
    reveal_strlit("-1");
    reveal_strlit("D");
    reveal_strlit("A");
    reveal_strlit("M");
    reveal_strlit("!D");
    reveal_strlit("!A");
    reveal_strlit("!M");
    reveal_strlit("-D");
    reveal_strlit("-A");
    reveal_strlit("-M");
    reveal_strlit("D+1");
    reveal_strlit("A+1");
    reveal_strlit("M+1");
    reveal_strlit("D-1");
    reveal_strlit("A-1");
    reveal_strlit("M-1");
    reveal_strlit("D+A");
    reveal_strlit("D+M");
    reveal_strlit("D-A");
    reveal_strlit("D-M");
    reveal_strlit("A-D");
    reveal_strlit("M-D");
    reveal_strlit("D&A");
    reveal_strlit("D&M");
    reveal_strlit("D|A");
    reveal_strlit("D|M");
    let text = comp.mnemonic();
    assert forall|k: int| 0 <= k < text.len() implies (#[trigger] text[k]) != '=' && text[k]
        != ';' by {
        if k == 0 {
        } else if k == 1 {
        } else {
        }
    }
}

/// No two computations have the same `a` bit and six bits.
pub proof fn lemma_comp_field_is_one_to_one()
    ensures
        forall|c1: Comp, c2: Comp| c1.field() == c2.field() ==> c1 == c2,
{
}

impl Jump {
    /// How the jump is written; a jump that is never taken is not written.
    pub open spec fn mnemonic(self) -> Seq<char> {
        match self {
            Jump::Never => Seq::empty(),
            Jump::Jgt => "JGT"@,
            Jump::Jeq => "JEQ"@,
            Jump::Jge => "JGE"@,
            Jump::Jlt => "JLT"@,
            Jump::Jne => "JNE"@,
            Jump::Jle => "JLE"@,
            Jump::Jmp => "JMP"@,
        }
    }

    /// The three jump bits.
    pub open spec fn bits(self) -> nat {
        match self {
            Jump::Never => 0b000,
            Jump::Jgt => 0b001,
            Jump::Jeq => 0b010,
            Jump::Jge => 0b011,
            Jump::Jlt => 0b100,
            Jump::Jne => 0b101,
            Jump::Jle => 0b110,
            Jump::Jmp => 0b111,
        }
    }

    /// The jump whose bits are `bits`.
    pub open spec fn of_bits(bits: nat) -> Jump {
        if bits == 0b001 {
            Jump::Jgt
        } else if bits == 0b010 {
            Jump::Jeq
        } else if bits == 0b011 {
            Jump::Jge
        } else if bits == 0b100 {
            Jump::Jlt
        } else if bits == 0b101 {
            Jump::Jne
        } else if bits == 0b110 {
            Jump::Jle
        } else if bits == 0b111 {
            Jump::Jmp
        } else {
            Jump::Never
        }
    }

    /// The three jump bits of this value.
    pub fn code(&self) -> (r: u16)
        ensures
            r == self.bits(),
            r < 8,
    {
        match self {
            Jump::Never => 0b000,
            Jump::Jgt => 0b001,
            Jump::Jeq => 0b010,
            Jump::Jge => 0b011,
            Jump::Jlt => 0b100,
            Jump::Jne => 0b101,
            Jump::Jle => 0b110,
            Jump::Jmp => 0b111,
        }
    }

    /// The jump whose bits are `bits`.
    pub fn from_code(bits: u16) -> (r: Jump)
        requires
            bits < 8,
        ensures
            r == Jump::of_bits(bits as nat),
            r.bits() == bits,
    {
        if bits == 0b001 {
            Jump::Jgt
        } else if bits == 0b010 {
            Jump::Jeq
        } else if bits == 0b011 {
            Jump::Jge
        } else if bits == 0b100 {
            Jump::Jlt
        } else if bits == 0b101 {
            Jump::Jne
        } else if bits == 0b110 {
            Jump::Jle
        } else if bits == 0b111 {
            Jump::Jmp
        } else {
            Jump::Never
        }
    }
}

impl Jump {
    /// How the jump is written; a jump that is never taken is not written.
    pub fn name(&self) -> (text: &'static str)
        ensures
            text@ == self.mnemonic(),
    {
        match self {
            Jump::Never => {
                proof {
                    reveal_strlit("");
                }
                assert(""@ =~= Seq::<char>::empty());
                ""
            },
            Jump::Jgt => "JGT",
            Jump::Jeq => "JEQ",
            Jump::Jge => "JGE",
            Jump::Jlt => "JLT",
            Jump::Jne => "JNE",
            Jump::Jle => "JLE",
            Jump::Jmp => "JMP",
        }
    }
}

/// No two jumps are written alike.
pub proof fn lemma_jump_mnemonic_is_one_to_one()
    ensures
        forall|j1: Jump, j2: Jump| j1.mnemonic() == j2.mnemonic() ==> j1 == j2,
{
    reveal_strlit("JGT");
    reveal_strlit("JEQ");
    reveal_strlit("JGE");
    reveal_strlit("JLT");
    reveal_strlit("JNE");
    reveal_strlit("JLE");
    reveal_strlit("JMP");
    assert forall|j1: Jump, j2: Jump| j1.mnemonic() == j2.mnemonic() implies j1 == j2 by {
        let s1 = j1.mnemonic();
        let s2 = j2.mnemonic();
        assert(s1.len() == s2.len());
        assert(s1[0] == s2[0]);
        assert(s1[1] == s2[1]);
        assert(s1[2] == s2[2]);
    }
}

/// A jump that can be taken is written with three characters, none of them
/// `=` or `;`.
pub proof fn lemma_jump_mnemonic_shape(jump: Jump)
    ensures
        jump != Jump::Never ==> jump.mnemonic().len() == 3,
        forall|k: int|
            0 <= k < jump.mnemonic().len() ==> (#[trigger] jump.mnemonic()[k]) != '='
                && jump.mnemonic()[k] != ';',
{
    reveal_strlit("JGT");
    reveal_strlit("JEQ");
    reveal_strlit("JGE");
    reveal_strlit("JLT");
    reveal_strlit("JNE");
    reveal_strlit("JLE");
    reveal_strlit("JMP");
    let text = jump.mnemonic();
    assert forall|k: int| 0 <= k < text.len() implies (#[trigger] text[k]) != '=' && text[k]
        != ';' by {
        if k == 0 {
        } else if k == 1 {
        } else {
        }
    }
}

impl Compute {
    /// The word of the instruction: `111`, the field of the computation, the
    /// destination bits and the jump bits.
    pub open spec fn word(self) -> nat {
        0b111 * 0x2000 + self.comp.field() * 64 + self.dest.bits() * 8 + self.jump.bits()
    }

    /// How the instruction is written: the destinations and `=` where there
    /// are destinations, the computation, and `;` and the jump where there is
    /// a jump.
    pub open spec fn written(self) -> Seq<char> {
        (if self.dest.mnemonic().len() > 0 {
            self.dest.mnemonic() + seq!['=']
        } else {
            Seq::empty()
        }) + self.comp.mnemonic() + (if self.jump != Jump::Never {
            seq![';'] + self.jump.mnemonic()
        } else {
            Seq::empty()
        })
    }

    /// The instruction that `word` encodes, if it encodes one: its three top
    /// bits are set and its computation exists.
    pub open spec fn of_word(word: nat) -> Option<Compute> {
        if 0xE000 <= word <= 0xFFFF {
            match Comp::of_field(word / 64 % 128) {
                Some(comp) => Some(
                    Compute {
                        dest: Dest::of_bits(word / 8 % 8),
                        comp,
                        jump: Jump::of_bits(word % 8),
                    },
                ),
                None => None,
            }
        } else {
            None
        }
    }

    /// Encodes the instruction.
    pub fn encode(&self) -> (r: u16)
        ensures
            r == self.word(),
            r >= 0xE000,
    {
        0xE000 + self.comp.code() * 64 + self.dest.code() * 8 + self.jump.code()
    }

    /// Decodes `word` where it encodes a compute instruction.
    pub fn decode(word: u16) -> (r: Option<Compute>)
        ensures
            r == Compute::of_word(word as nat),
            r matches Some(c) ==> c.word() == word,
    {
        if word < 0xE000 {
            return None;
        }
        match Comp::from_code(word / 64 % 128) {
            Some(comp) => Some(
                Compute {
                    dest: Dest::from_code(word / 8 % 8),
                    comp,
                    jump: Jump::from_code(word % 8),
                },
            ),
            None => None,
        }
    }
}

/// A word made of `111` and three fields gives each field back.
proof fn lemma_word_fields(comp: nat, dest: nat, jump: nat)
    requires
        comp < 128,
        dest < 8,
        jump < 8,
    ensures
        ({
            let word = 0b111 * 0x2000 + comp * 64 + dest * 8 + jump;
            &&& 0xE000 <= word <= 0xFFFF
            &&& word / 64 % 128 == comp
            &&& word / 8 % 8 == dest
            &&& word % 8 == jump
        }),
{
}

/// Decoding the word of a compute instruction gives the instruction back.
pub proof fn law_compute_round_trip(compute: Compute)
    ensures
        0xE000 <= compute.word() <= 0xFFFF,
        Compute::of_word(compute.word()) == Some(compute),
{
    let comp = compute.comp.field();
    let dest = compute.dest.bits();
    let jump = compute.jump.bits();
    assert(comp < 128);
    assert(dest < 8 && Dest::of_bits(dest) == compute.dest);
    assert(jump < 8 && Jump::of_bits(jump) == compute.jump);
    lemma_word_fields(comp, dest, jump);
    lemma_comp_field_is_one_to_one();
    assert(Comp::of_field(comp) == Some(compute.comp));
}

/// An instruction of the program.
#[derive(Debug, Clone, Copy, PartialEq, Eq, Structural)]
pub enum Instruction {
    /// Loads the address, at most 32767, into the register `A`.
    A(u16),
    /// Marks the address, at most `ROM_SIZE`, that a label stands for. It stays
    /// in the first pass and has no word.
    L(u32),
    /// Computes; holds the instruction's word.
    C(u16),
}

impl Instruction {
    /// Whether the instruction holds what its kind allows.
    pub open spec fn wf(self) -> bool {
        match self {
            Instruction::A(address) => address <= 0x7FFF,
            Instruction::L(address) => address <= ROM_SIZE,
            Instruction::C(word) => Compute::of_word(word as nat) is Some,
        }
    }

    /// The word that the instruction takes in the program, if it takes one.
    pub open spec fn word(self) -> Option<u16> {
        match self {
            Instruction::A(address) => Some(address),
            Instruction::L(_) => None,
            Instruction::C(word) => Some(word),
        }
    }

    /// The instruction that `word` encodes, if it encodes one.
    pub open spec fn of_word(word: u16) -> Option<Instruction> {
        if word <= 0x7FFF {
            Some(Instruction::A(word))
        } else if Compute::of_word(word as nat) is Some {
            Some(Instruction::C(word))
        } else {
            None
        }
    }

    /// The word of the instruction, if it has one.
    pub fn encode(&self) -> (r: Option<u16>)
        ensures
            r == self.word(),
    {
        match self {
            Instruction::A(address) => Some(*address),
            Instruction::L(_) => None,
            Instruction::C(word) => Some(*word),
        }
    }

    /// The instruction that `word` encodes, if it encodes one.
    pub fn decode(word: u16) -> (r: Option<Instruction>)
        ensures
            r == Instruction::of_word(word),
            r matches Some(i) ==> i.wf() && i.word() == Some(word),
    {
        if word <= 0x7FFF {
            Some(Instruction::A(word))
        } else if Compute::decode(word).is_some() {
            Some(Instruction::C(word))
        } else {
            None
        }
    }
}

} // verus!
