//! How instructions are written: the grammar of the symbols that are left
//! after the first pass.
//!
//! A symbol that begins with `@` is an address instruction; what follows the
//! `@` is a numeral of at most 32767 or a symbol. Any other symbol must be a
//! compute instruction, `dest=comp;jump`, of which `dest=` and `;jump` may be
//! left out.

use vstd::prelude::*;
use crate::decimal::{decimal_value, is_numeral, parse_decimal};
use crate::instruction::{
    lemma_comp_mnemonic_is_one_to_one, lemma_comp_mnemonic_shape,
    lemma_jump_mnemonic_is_one_to_one, lemma_jump_mnemonic_shape, Comp, Compute, Dest, Jump,
};
use crate::symbol::{symbol_fault, valid_symbol, Label};
use crate::text::{collect_chars, is_ascii_digit, is_digit};

verus! {

/// The greatest address that an address instruction can load.
pub const MAX_ADDRESS: u16 = 0x7FFF;

/// The least offset from `from` on at which `text` holds `c`, or the length
/// of `text` where it holds none there.
pub open spec fn find(text: Seq<char>, c: char, from: int) -> int
    decreases text.len() - from,
{
    if from < 0 || from >= text.len() {
        text.len() as int
    } else if text[from] == c {
        from
    } else {
        find(text, c, from + 1)
    }
}

/// Whether `c` names a register that can take a result.
pub open spec fn is_register(c: char) -> bool {
    c == 'A' || c == 'D' || c == 'M'
}

/// The destinations that `text` names: one register letter or more, in any
/// order, none of them twice.
pub open spec fn dest_of(text: Seq<char>) -> Option<Dest> {
    if text.len() > 0 && (forall|i: int| 0 <= i < text.len() ==> is_register(#[trigger] text[i]))
        && text.no_duplicates() {
        Some(Dest { a: text.contains('A'), d: text.contains('D'), m: text.contains('M') })
    } else {
        None
    }
}

/// The computation that is written `text`, if there is one.
pub open spec fn comp_of(text: Seq<char>) -> Option<Comp> {
    if exists|c: Comp| c.mnemonic() == text {
        Some(choose|c: Comp| c.mnemonic() == text)
    } else {
        None
    }
}

/// The jump that is written `text`, if there is one.
pub open spec fn jump_of(text: Seq<char>) -> Option<Jump> {
    if exists|j: Jump| j != Jump::Never && j.mnemonic() == text {
        Some(choose|j: Jump| j != Jump::Never && j.mnemonic() == text)
    } else {
        None
    }
}

/// The compute instruction that is written `text`, if `text` is one. The
/// destinations stand before the first `=`, the jump after the first `;` that
/// follows, the computation between the two.
pub open spec fn compute_of(text: Seq<char>) -> Option<Compute> {
    let n = text.len() as int;
    let eq = find(text, '=', 0);
    let start = if eq < n {
        eq + 1
    } else {
        0
    };
    let semi = find(text, ';', start);
    let dest = if eq < n {
        dest_of(text.subrange(0, eq))
    } else {
        Some(Dest { a: false, d: false, m: false })
    };
    let comp = comp_of(text.subrange(start, semi));
    let jump = if semi < n {
        jump_of(text.subrange(semi + 1, n))
    } else {
        Some(Jump::Never)
    };
    match (dest, comp, jump) {
        (Some(dest), Some(comp), Some(jump)) => Some(Compute { dest, comp, jump }),
        _ => None,
    }
}

/// The address that the numeral `text` stands for, if `text` is a numeral of
/// an address.
pub open spec fn address_literal(text: Seq<char>) -> Option<u16> {
    if is_numeral(text) && decimal_value(text) <= MAX_ADDRESS {
        Some(decimal_value(text) as u16)
    } else {
        None
    }
}

/// What a symbol of the program says.
#[derive(Debug)]
pub enum Statement {
    /// Load this address.
    Address(u16),
    /// Load the address that this symbol stands for.
    Symbol(Label),
    /// Compute.
    Compute(Compute),
}

/// The mathematical value of a [`Statement`].
pub enum StatementView {
    Address(u16),
    Symbol(Seq<char>),
    Compute(Compute),
}

impl View for Statement {
    type V = StatementView;

    open spec fn view(&self) -> StatementView {
        match self {
            Statement::Address(address) => StatementView::Address(*address),
            Statement::Symbol(label) => StatementView::Symbol(label@),
            Statement::Compute(compute) => StatementView::Compute(*compute),
        }
    }
}

/// The words of the error for a numeral that is greater than any address.
pub open spec fn range_fault(numeral: Seq<char>) -> Seq<char> {
    "Address out of range: `"@ + numeral + "`"@
}

/// What the symbol `text` says, or why it says nothing.
pub open spec fn statement_of(text: Seq<char>) -> Result<StatementView, Seq<char>> {
    if text.len() > 0 && text.first() == '@' {
        let operand = text.subrange(1, text.len() as int);
        match address_literal(operand) {
            Some(address) => Ok(StatementView::Address(address)),
            None => if is_numeral(operand) {
                Err(range_fault(operand))
            } else if valid_symbol(operand) {
                Ok(StatementView::Symbol(operand))
            } else {
                Err(symbol_fault(operand))
            },
        }
    } else {
        match compute_of(text) {
            Some(compute) => Ok(StatementView::Compute(compute)),
            None => Err("Unknown instruction"@),
        }
    }
}

/// Characters that are not `c` do not stop the search for `c`.
pub proof fn lemma_find_skips(text: Seq<char>, c: char, from: int, to: int)
    requires
        0 <= from <= to <= text.len(),
        forall|k: int| from <= k < to ==> #[trigger] text[k] != c,
    ensures
        find(text, c, from) == find(text, c, to),
    decreases to - from,
{
    if from < to {
        lemma_find_skips(text, c, from + 1, to);
    }
}

/// The destinations, as they are written, are read as themselves.
pub proof fn lemma_dest_round_trip(dest: Dest)
    requires
        dest.a || dest.d || dest.m,
    ensures
        dest_of(dest.mnemonic()) == Some(dest),
        1 <= dest.mnemonic().len() <= 3,
        forall|k: int|
            0 <= k < dest.mnemonic().len() ==> (#[trigger] dest.mnemonic()[k]) != '='
                && dest.mnemonic()[k] != ';',
{
    let text = dest.mnemonic();
    let a = if dest.a {
        seq!['A']
    } else {
        Seq::<char>::empty()
    };
    let d = if dest.d {
        seq!['D']
    } else {
        Seq::<char>::empty()
    };
    let m = if dest.m {
        seq!['M']
    } else {
        Seq::<char>::empty()
    };
    assert(text == a + d + m);
    assert forall|k: int| 0 <= k < text.len() implies is_register(#[trigger] text[k]) by {
        if k < a.len() {
            assert(text[k] == a[k]);
        } else if k < a.len() + d.len() {
            assert(text[k] == d[k - a.len()]);
        } else {
            assert(text[k] == m[k - a.len() - d.len()]);
        }
    }
    if dest.a {
        assert(text[0] == 'A');
    }
    if dest.d {
        assert(text[a.len() as int] == 'D');
    }
    if dest.m {
        assert(text[(a.len() + d.len()) as int] == 'M');
    }
    assert(text.contains('A') == dest.a);
    assert(text.contains('D') == dest.d);
    assert(text.contains('M') == dest.m);
    assert(text.no_duplicates());
}

/// Reading what a compute instruction is written as gives the instruction
/// back: its destinations, its computation and its jump.
pub proof fn law_written_round_trip(compute: Compute)
    ensures
        compute_of(compute.written()) == Some(compute),
        statement_of(compute.written()) == Ok::<StatementView, Seq<char>>(
            StatementView::Compute(compute),
        ),
{
    let text = compute.written();
    let n = text.len() as int;
    let dest = compute.dest.mnemonic();
    let comp = compute.comp.mnemonic();
    let jump = compute.jump.mnemonic();
    let head = if dest.len() > 0 {
        dest + seq!['=']
    } else {
        Seq::<char>::empty()
    };
    let tail = if compute.jump != Jump::Never {
        seq![';'] + jump
    } else {
        Seq::<char>::empty()
    };
    assert(text == head + comp + tail);
    lemma_comp_mnemonic_shape(compute.comp);
    lemma_jump_mnemonic_shape(compute.jump);
    lemma_comp_mnemonic_is_one_to_one();
    lemma_jump_mnemonic_is_one_to_one();
    let start = head.len() as int;
    let semi = start + comp.len();
    assert forall|k: int| start <= k < semi implies #[trigger] text[k] == comp[k - start] by {}
    assert forall|k: int| semi < k < n implies #[trigger] text[k] == jump[k - semi - 1] by {}
    if dest.len() > 0 {
        assert(compute.dest.a || compute.dest.d || compute.dest.m);
        lemma_dest_round_trip(compute.dest);
        let eq = dest.len() as int;
        assert forall|k: int| 0 <= k < eq implies #[trigger] text[k] == dest[k] by {}
        assert(text[eq] == '=');
        lemma_find_skips(text, '=', 0, eq);
        assert(find(text, '=', 0) == eq);
        assert(text.subrange(0, eq) =~= dest);
    } else {
        assert(dest =~= Seq::<char>::empty());
        assert(!compute.dest.a && !compute.dest.d && !compute.dest.m);
        assert forall|k: int| 0 <= k < n implies #[trigger] text[k] != '=' by {
            if k < semi {
                assert(text[k] == comp[k - start]);
            } else if k == semi {
                assert(text[k] == ';');
            } else {
                assert(text[k] == jump[k - semi - 1]);
            }
        }
        lemma_find_skips(text, '=', 0, n);
        assert(find(text, '=', 0) == n);
    }
    assert forall|k: int| start <= k < semi implies #[trigger] text[k] != ';' by {
        assert(text[k] == comp[k - start]);
    }
    lemma_find_skips(text, ';', start, semi);
    if compute.jump != Jump::Never {
        assert(text[semi] == ';');
        assert(text.subrange(semi + 1, n) =~= jump);
    }
    assert(find(text, ';', start) == semi);
    assert(text.subrange(start, semi) =~= comp);
    assert(comp_of(comp) == Some(compute.comp));
    assert(text[0] != '@') by {
        if dest.len() > 0 {
            assert(text[0] == dest[0]);
            assert(is_register(dest[0]));
        } else {
            assert(text[0] == comp[0]);
            lemma_comp_starts_plainly(compute.comp);
        }
    }
}

/// No computation is written with `@` in front.
proof fn lemma_comp_starts_plainly(comp: Comp)
    ensures
        comp.mnemonic().len() > 0,
        comp.mnemonic()[0] != '@',
{
    reveal_strlit("0");
    reveal_strlit("1");
    reveal_strlit("-1");
    reveal_strlit("D");
    reveal_strlit("A");
    reveal_strlit("M");
    reveal_strlit("!D");
    reveal_strlit("!A");
    reveal_strlit("!M");
    reveal_strlit("-D");
    reveal_strlit("-A");
    reveal_strlit("-M");
    reveal_strlit("D+1");
    reveal_strlit("A+1");
    reveal_strlit("M+1");
    reveal_strlit("D-1");
    reveal_strlit("A-1");
    reveal_strlit("M-1");
    reveal_strlit("D+A");
    reveal_strlit("D+M");
    reveal_strlit("D-A");
    reveal_strlit("D-M");
    reveal_strlit("A-D");
    reveal_strlit("M-D");
    reveal_strlit("D&A");
    reveal_strlit("D&M");
    reveal_strlit("D|A");
    reveal_strlit("D|M");
}

/// Finds the first `c` in `chars` from offset `from` on.
fn find_char(chars: &Vec<char>, c: char, from: usize) -> (r: usize)
    requires
        from <= chars.len(),
    ensures
        r == find(chars@, c, from as int),
        from <= r <= chars.len(),
{
    let mut i: usize = from;
    while i < chars.len() && chars[i] != c
        invariant
            from <= i <= chars.len(),
            find(chars@, c, i as int) == find(chars@, c, from as int),
        decreases chars.len() - i,
    {
        i = i + 1;
    }
    i
}

/// Tells whether `chars[from..to]` is the text `word`.
fn same_text(chars: &Vec<char>, from: usize, to: usize, word: &str) -> (r: bool)
    requires
        from <= to <= chars.len(),
    ensures
        r == (chars@.subrange(from as int, to as int) == word@),
{
    let ghost text = chars@.subrange(from as int, to as int);
    let len = word.unicode_len();
    if to - from != len {
        return false;
    }
    let mut i: usize = 0;
    while i < len
        invariant
            i <= len,
            len == word@.len(),
            len == to - from,
            to <= chars.len(),
            text == chars@.subrange(from as int, to as int),
            forall|k: int| 0 <= k < i ==> text[k] == word@[k],
        decreases len - i,
    {
        if chars[from + i] != word.get_char(i) {
            assert(text[i as int] != word@[i as int]);
            return false;
        }
        i = i + 1;
    }
    assert(text =~= word@);
    true
}

/// Reads the destinations `chars[from..to]`.
fn parse_dest(chars: &Vec<char>, from: usize, to: usize) -> (r: Option<Dest>)
    requires
        from <= to <= chars.len(),
    ensures
        r == dest_of(chars@.subrange(from as int, to as int)),
{
    let ghost text = chars@.subrange(from as int, to as int);
    if from == to {
        return None;
    }
    let mut dest = Dest { a: false, d: false, m: false };
    let mut i: usize = from;
    while i < to
        invariant
            from <= i <= to <= chars.len(),
            text == chars@.subrange(from as int, to as int),
            forall|k: int| 0 <= k < i - from ==> is_register(#[trigger] text[k]),
            text.take(i - from).no_duplicates(),
            dest.a == text.take(i - from).contains('A'),
            dest.d == text.take(i - from).contains('D'),
            dest.m == text.take(i - from).contains('M'),
        decreases to - i,
    {
        let c = chars[i];
        let ghost seen = text.take(i - from);
        let ghost longer = text.take(i - from + 1);
        assert(text[i - from] == c);
        assert(longer =~= seen.push(c));
        let twice = if c == 'A' {
            dest.a
        } else if c == 'D' {
            dest.d
        } else if c == 'M' {
            dest.m
        } else {
            return None;
        };
        if twice {
            proof {
                let k = choose|k: int| 0 <= k < seen.len() && seen[k] == c;
                assert(text[k] == text[i - from] && k != i - from);
            }
            return None;
        }
        if c == 'A' {
            dest.a = true;
        } else if c == 'D' {
            dest.d = true;
        } else {
            dest.m = true;
        }
        proof {
            assert(longer[seen.len() as int] == c);
            assert forall|x: char| #[trigger] longer.contains(x) == (seen.contains(x) || x == c) by {
                if seen.contains(x) {
                    let k = choose|k: int| 0 <= k < seen.len() && seen[k] == x;
                    assert(longer[k] == x);
                }
            }
        }
        i = i + 1;
    }
    assert(text.take(to - from) =~= text);
    Some(dest)
}

/// Reads the computation `chars[from..to]`.
fn parse_comp(chars: &Vec<char>, from: usize, to: usize) -> (r: Option<Comp>)
    requires
        from <= to <= chars.len(),
    ensures
        r == comp_of(chars@.subrange(from as int, to as int)),
{
    let ghost text = chars@.subrange(from as int, to as int);
    let r = if same_text(chars, from, to, Comp::Zero.name()) {
        Some(Comp::Zero)
    } else if same_text(chars, from, to, Comp::One.name()) {
        Some(Comp::One)
    } else if same_text(chars, from, to, Comp::MinusOne.name()) {
        Some(Comp::MinusOne)
    } else if same_text(chars, from, to, Comp::D.name()) {
        Some(Comp::D)
    } else if same_text(chars, from, to, Comp::A.name()) {
        Some(Comp::A)
    } else if same_text(chars, from, to, Comp::M.name()) {
        Some(Comp::M)
    } else if same_text(chars, from, to, Comp::NotD.name()) {
        Some(Comp::NotD)
    } else if same_text(chars, from, to, Comp::NotA.name()) {
        Some(Comp::NotA)
    } else if same_text(chars, from, to, Comp::NotM.name()) {
        Some(Comp::NotM)
    } else if same_text(chars, from, to, Comp::NegD.name()) {
        Some(Comp::NegD)
    } else if same_text(chars, from, to, Comp::NegA.name()) {
        Some(Comp::NegA)
    } else if same_text(chars, from, to, Comp::NegM.name()) {
        Some(Comp::NegM)
    } else if same_text(chars, from, to, Comp::IncD.name()) {
        Some(Comp::IncD)
    } else if same_text(chars, from, to, Comp::IncA.name()) {
        Some(Comp::IncA)
    } else if same_text(chars, from, to, Comp::IncM.name()) {
        Some(Comp::IncM)
    } else if same_text(chars, from, to, Comp::DecD.name()) {
        Some(Comp::DecD)
    } else if same_text(chars, from, to, Comp::DecA.name()) {
        Some(Comp::DecA)
    } else if same_text(chars, from, to, Comp::DecM.name()) {
        Some(Comp::DecM)
    } else if same_text(chars, from, to, Comp::DPlusA.name()) {
        Some(Comp::DPlusA)
    } else if same_text(chars, from, to, Comp::DPlusM.name()) {
        Some(Comp::DPlusM)
    } else if same_text(chars, from, to, Comp::DMinusA.name()) {
        Some(Comp::DMinusA)
    } else if same_text(chars, from, to, Comp::DMinusM.name()) {
        Some(Comp::DMinusM)
    } else if same_text(chars, from, to, Comp::AMinusD.name()) {
        Some(Comp::AMinusD)
    } else if same_text(chars, from, to, Comp::MMinusD.name()) {
        Some(Comp::MMinusD)
    } else if same_text(chars, from, to, Comp::DAndA.name()) {
        Some(Comp::DAndA)
    } else if same_text(chars, from, to, Comp::DAndM.name()) {
        Some(Comp::DAndM)
    } else if same_text(chars, from, to, Comp::DOrA.name()) {
        Some(Comp::DOrA)
    } else if same_text(chars, from, to, Comp::DOrM.name()) {
        Some(Comp::DOrM)
    } else {
        None
    };
    proof {
        lemma_comp_mnemonic_is_one_to_one();
        match r {
            Some(c) => {
                assert(c.mnemonic() == text);
            },
            None => {
                assert forall|c: Comp| c.mnemonic() != text by {}
            },
        }
    }
    r
}

/// Reads the jump `chars[from..to]`.
fn parse_jump(chars: &Vec<char>, from: usize, to: usize) -> (r: Option<Jump>)
    requires
        from <= to <= chars.len(),
    ensures
        r == jump_of(chars@.subrange(from as int, to as int)),
{
    let ghost text = chars@.subrange(from as int, to as int);
    let r = if same_text(chars, from, to, Jump::Jgt.name()) {
        Some(Jump::Jgt)
    } else if same_text(chars, from, to, Jump::Jeq.name()) {
        Some(Jump::Jeq)
    } else if same_text(chars, from, to, Jump::Jge.name()) {
        Some(Jump::Jge)
    } else if same_text(chars, from, to, Jump::Jlt.name()) {
        Some(Jump::Jlt)
    } else if same_text(chars, from, to, Jump::Jne.name()) {
        Some(Jump::Jne)
    } else if same_text(chars, from, to, Jump::Jle.name()) {
        Some(Jump::Jle)
    } else if same_text(chars, from, to, Jump::Jmp.name()) {
        Some(Jump::Jmp)
    } else {
        None
    };
    proof {
        lemma_jump_mnemonic_is_one_to_one();
        match r {
            Some(j) => {
                assert(j != Jump::Never && j.mnemonic() == text);
            },
            None => {
                assert forall|j: Jump| !(j != Jump::Never && j.mnemonic() == text) by {}
            },
        }
    }
    r
}

/// Reads the compute instruction `chars`.
fn parse_compute(chars: &Vec<char>) -> (r: Option<Compute>)
    ensures
        r == compute_of(chars@),
{
    let n = chars.len();
    let eq = find_char(chars, '=', 0);
    let start = if eq < n {
        eq + 1
    } else {
        0
    };
    let semi = find_char(chars, ';', start);
    let dest = if eq < n {
        match parse_dest(chars, 0, eq) {
            Some(dest) => dest,
            None => {
                return None;
            },
        }
    } else {
        Dest { a: false, d: false, m: false }
    };
    let comp = match parse_comp(chars, start, semi) {
        Some(comp) => comp,
        None => {
            return None;
        },
    };
    let jump = if semi < n {
        match parse_jump(chars, semi + 1, n) {
            Some(jump) => jump,
            None => {
                return None;
            },
        }
    } else {
        Jump::Never
    };
    Some(Compute { dest, comp, jump })
}

/// Tells whether `chars[from..]` is a numeral.
fn all_digits(chars: &Vec<char>, from: usize) -> (r: bool)
    requires
        from <= chars.len(),
    ensures
        r == is_numeral(chars@.subrange(from as int, chars.len() as int)),
{
    let ghost text = chars@.subrange(from as int, chars.len() as int);
    if from == chars.len() {
        return false;
    }
    let mut i: usize = from;
    while i < chars.len()
        invariant
            from <= i <= chars.len(),
            text == chars@.subrange(from as int, chars.len() as int),
            forall|k: int| 0 <= k < i - from ==> is_digit(#[trigger] text[k]),
        decreases chars.len() - i,
    {
        assert(text[i - from] == chars[i as int]);
        if !is_ascii_digit(chars[i]) {
            return false;
        }
        i = i + 1;
    }
    true
}

/// Reads what the symbol `text` says, or says why it says nothing.
pub fn parse_statement(text: &str) -> (r: Result<Statement, String>)
    ensures
        match r {
            Ok(statement) => statement_of(text@) == Ok::<StatementView, Seq<char>>(statement@),
            Err(fault) => statement_of(text@) == Err::<StatementView, Seq<char>>(fault@),
        },
{
    let chars = collect_chars(text);
    let n = chars.len();
    if n > 0 && chars[0] == '@' {
        let operand = text.substring_char(1, n);
        match parse_decimal(&chars, 1, n, MAX_ADDRESS) {
            Some(address) => Ok(Statement::Address(address)),
            None => {
                if all_digits(&chars, 1) {
                    let mut fault = "Address out of range: `".to_owned();
                    fault.append(operand);
                    fault.append("`");
                    Err(fault)
                } else {
                    match Label::try_from(operand) {
                        Ok(label) => Ok(Statement::Symbol(label)),
                        Err(fault) => Err(fault),
                    }
                }
            },
        }
    } else {
        match parse_compute(&chars) {
            Some(compute) => Ok(Statement::Compute(compute)),
            None => Err("Unknown instruction".to_owned()),
        }
    }
}

} // verus!
