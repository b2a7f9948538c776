//! The second pass: from the symbols of the program to its words.
//!
//! Every symbol that the first pass has left is one instruction. A symbol
//! that an address instruction names and the table does not hold is a
//! variable: it gets the next free address of the data memory, from 16 on,
//! and keeps it.

use vstd::prelude::*;
use crate::decimal::{decimal, lemma_decimal_round_trip};
use crate::error::{Error, ErrorView};
use crate::grammar::{
    address_literal, parse_statement, statement_of, Statement, StatementView, MAX_ADDRESS,
};
use crate::instruction::{law_compute_round_trip, Instruction};
use crate::lexer::{parse_error, parse_fault, Source, TokenView};
use crate::symbol::{
    lemma_predefined_names_are_symbols, lemma_symbol_is_no_numeral, predefined, valid_symbol,
    well_formed, SymbolTable,
};
use crate::text::{join, joined};

verus! {

/// The address of the first variable.
pub const FIRST_VARIABLE: u16 = 16;

/// The words of the error for a variable that finds the data memory full.
pub open spec fn memory_fault(name: Seq<char>) -> Seq<char> {
    "No memory left for the variable `"@ + name + "`"@
}

/// The second pass after some symbols: the table with the variables bound so
/// far, the address that the next variable gets, and the instructions.
pub struct Generated {
    pub table: Map<Seq<char>, u16>,
    pub next: nat,
    pub program: Seq<Instruction>,
}

/// What the second pass does with one symbol. A numeral loads itself, a
/// symbol in the table loads its address, and any other symbol becomes a
/// variable first. A compute instruction gives its word. The pass fails where
/// the symbol says nothing, or where a variable finds no address left.
pub open spec fn generate(state: Generated, token: TokenView) -> Result<Generated, ErrorView> {
    match statement_of(token.text) {
        Err(cause) => Err(parse_error(token, cause)),
        Ok(StatementView::Address(address)) => Ok(
            Generated {
                table: state.table,
                next: state.next,
                program: state.program.push(Instruction::A(address)),
            },
        ),
        Ok(StatementView::Compute(compute)) => Ok(
            Generated {
                table: state.table,
                next: state.next,
                program: state.program.push(Instruction::C(compute.word() as u16)),
            },
        ),
        Ok(StatementView::Symbol(name)) => if state.table.contains_key(name) {
            Ok(
                Generated {
                    table: state.table,
                    next: state.next,
                    program: state.program.push(Instruction::A(state.table[name])),
                },
            )
        } else if state.next > MAX_ADDRESS {
            Err(parse_error(token, memory_fault(name)))
        } else {
            Ok(
                Generated {
                    table: state.table.insert(name, state.next as u16),
                    next: state.next + 1,
                    program: state.program.push(Instruction::A(state.next as u16)),
                },
            )
        },
    }
}

/// The second pass over the first `n` of `tokens`, begun with `table`: the
/// first error, if a symbol among them fails.
pub open spec fn generated_prefix(table: Map<Seq<char>, u16>, tokens: Seq<TokenView>, n: int)
    -> Result<Generated, ErrorView>
    decreases n,
{
    if n <= 0 {
        Ok(Generated { table, next: FIRST_VARIABLE as nat, program: Seq::empty() })
    } else {
        match generated_prefix(table, tokens, n - 1) {
            Ok(state) => generate(state, tokens[n - 1]),
            Err(e) => Err(e),
        }
    }
}

/// The instructions that the second pass makes of `tokens`, begun with
/// `table`.
pub open spec fn generated(table: Map<Seq<char>, u16>, tokens: Seq<TokenView>) -> Result<
    Seq<Instruction>,
    ErrorView,
> {
    match generated_prefix(table, tokens, tokens.len() as int) {
        Ok(state) => Ok(state.program),
        Err(e) => Err(e),
    }
}

/// Once the second pass has failed, the symbols that follow change nothing.
pub proof fn lemma_fault_is_final(
    table: Map<Seq<char>, u16>,
    tokens: Seq<TokenView>,
    k: int,
    n: int,
)
    requires
        0 <= k <= n,
        generated_prefix(table, tokens, k) is Err,
    ensures
        generated_prefix(table, tokens, n) == generated_prefix(table, tokens, k),
    decreases n - k,
{
    if k < n {
        lemma_fault_is_final(table, tokens, k, n - 1);
    }
}

/// The second pass gives one instruction for each symbol, and none of them is
/// a label marker or holds what its kind does not allow.
pub proof fn lemma_generated_program(table: Map<Seq<char>, u16>, tokens: Seq<TokenView>, n: int)
    requires
        0 <= n <= tokens.len(),
        forall|name: Seq<char>| #[trigger] table.contains_key(name) ==> table[name] <= MAX_ADDRESS,
        generated_prefix(table, tokens, n) is Ok,
    ensures
        ({
            let state = generated_prefix(table, tokens, n)->Ok_0;
            &&& state.program.len() == n
            &&& FIRST_VARIABLE <= state.next <= MAX_ADDRESS + 1
            &&& forall|name: Seq<char>| #[trigger]
                state.table.contains_key(name) ==> state.table[name] <= MAX_ADDRESS
            &&& forall|i: int|
                0 <= i < n ==> (#[trigger] state.program[i]).wf() && state.program[i].word()
                    is Some
        }),
    decreases n,
{
    if n > 0 {
        lemma_generated_program(table, tokens, n - 1);
        let before = generated_prefix(table, tokens, n - 1)->Ok_0;
        let state = generated_prefix(table, tokens, n)->Ok_0;
        match statement_of(tokens[n - 1].text) {
            Ok(StatementView::Compute(compute)) => {
                law_compute_round_trip(compute);
            },
            _ => {},
        }
        assert forall|i: int| 0 <= i < n implies (#[trigger] state.program[i]).wf()
            && state.program[i].word() is Some by {
            if i < n - 1 {
                assert(state.program[i] == before.program[i]);
            }
        }
    }
}

/// A step of the second pass keeps every entry of the table and every
/// instruction, and adds one instruction.
pub proof fn lemma_generate_grows(state: Generated, token: TokenView)
    requires
        generate(state, token) is Ok,
    ensures
        ({
            let after = generate(state, token)->Ok_0;
            &&& state.table.submap_of(after.table)
            &&& after.program.len() == state.program.len() + 1
            &&& after.program.drop_last() == state.program
            &&& state.next <= after.next
        }),
{
    let after = generate(state, token)->Ok_0;
    assert(after.program.drop_last() =~= state.program);
}

/// Where the second pass has come through `n` symbols, it has come through
/// every shorter prefix, and what it had then, it still has: each entry of
/// the table and each instruction.
pub proof fn lemma_generation_only_grows(
    table: Map<Seq<char>, u16>,
    tokens: Seq<TokenView>,
    k: int,
    n: int,
)
    requires
        0 <= k <= n,
        generated_prefix(table, tokens, n) is Ok,
    ensures
        generated_prefix(table, tokens, k) is Ok,
        ({
            let early = generated_prefix(table, tokens, k)->Ok_0;
            let late = generated_prefix(table, tokens, n)->Ok_0;
            &&& early.table.submap_of(late.table)
            &&& early.program.is_prefix_of(late.program)
            &&& early.next <= late.next
        }),
    decreases n - k,
{
    if k < n {
        lemma_generation_only_grows(table, tokens, k, n - 1);
        let early = generated_prefix(table, tokens, k)->Ok_0;
        let middle = generated_prefix(table, tokens, n - 1)->Ok_0;
        let late = generated_prefix(table, tokens, n)->Ok_0;
        lemma_generate_grows(middle, tokens[n - 1]);
        assert(late.program.drop_last() == middle.program);
        assert(early.program.is_prefix_of(late.program)) by {
            assert forall|i: int| 0 <= i < early.program.len() implies early.program[i]
                == late.program[i] by {
                assert(middle.program[i] == late.program.drop_last()[i]);
            }
        }
    }
}

/// The second pass makes one instruction of each symbol.
pub proof fn lemma_program_length(table: Map<Seq<char>, u16>, tokens: Seq<TokenView>, n: int)
    requires
        0 <= n,
        generated_prefix(table, tokens, n) is Ok,
    ensures
        generated_prefix(table, tokens, n)->Ok_0.program.len() == n,
    decreases n,
{
    if n > 0 {
        lemma_generation_only_grows(table, tokens, n - 1, n);
        lemma_program_length(table, tokens, n - 1);
    }
}

/// What an address instruction that names `name` says.
pub proof fn lemma_symbol_statement(text: Seq<char>, name: Seq<char>)
    requires
        valid_symbol(name),
        text == seq!['@'] + name,
    ensures
        statement_of(text) == Ok::<StatementView, Seq<char>>(StatementView::Symbol(name)),
{
    lemma_symbol_is_no_numeral(name);
    assert(text.subrange(1, text.len() as int) =~= name);
}

/// An address instruction with a numeral of at most 32767 loads that number:
/// its word is the number, so the low 15 bits of the word are the number and
/// bit 15 is clear, and decoding the word gives the instruction back.
pub proof fn law_address_literal(state: Generated, token: TokenView, n: nat)
    requires
        n <= MAX_ADDRESS,
        token.text == seq!['@'] + decimal(n),
    ensures
        generate(state, token) == Ok::<Generated, ErrorView>(
            Generated {
                table: state.table,
                next: state.next,
                program: state.program.push(Instruction::A(n as u16)),
            },
        ),
        Instruction::A(n as u16).word() == Some(n as u16),
        (n as u16) & 0x7FFF == n,
        (n as u16) & 0x8000 == 0,
        Instruction::of_word(n as u16) == Some(Instruction::A(n as u16)),
{
    lemma_decimal_round_trip(n);
    assert(token.text.subrange(1, token.text.len() as int) =~= decimal(n));
    assert(address_literal(decimal(n)) == Some(n as u16));
    let word = n as u16;
    assert(word & 0x7FFF == word && word & 0x8000 == 0) by (bit_vector)
        requires
            word <= 0x7FFF,
    ;
}

/// An address instruction that names a symbol of the table loads the address
/// of that symbol, wherever the instruction stands, and neither changes the
/// table nor takes an address for a variable.
pub proof fn law_bound_symbol(state: Generated, token: TokenView, name: Seq<char>)
    requires
        valid_symbol(name),
        state.table.contains_key(name),
        token.text == seq!['@'] + name,
    ensures
        generate(state, token) == Ok::<Generated, ErrorView>(
            Generated {
                table: state.table,
                next: state.next,
                program: state.program.push(Instruction::A(state.table[name])),
            },
        ),
{
    lemma_symbol_statement(token.text, name);
}

/// An address instruction that names a predefined name loads the address
/// that the architecture gives that name, and takes no address for a
/// variable.
pub proof fn law_predefined_name(state: Generated, token: TokenView, name: Seq<char>)
    requires
        well_formed(state.table),
        predefined().contains_key(name),
        token.text == seq!['@'] + name,
    ensures
        generate(state, token) == Ok::<Generated, ErrorView>(
            Generated {
                table: state.table,
                next: state.next,
                program: state.program.push(Instruction::A(predefined()[name])),
            },
        ),
{
    lemma_predefined_names_are_symbols();
    assert(predefined().submap_of(state.table));
    assert(predefined().dom().contains(name));
    assert(state.table.dom().contains(name));
    assert(state.table[name] == predefined()[name]);
    law_bound_symbol(state, token, name);
}

/// An address instruction that names a symbol that the table does not hold
/// makes a variable of it: it binds the symbol to the next free address,
/// loads that address, and leaves the address after it as the next.
pub proof fn law_new_variable(state: Generated, token: TokenView, name: Seq<char>)
    requires
        valid_symbol(name),
        !state.table.contains_key(name),
        state.next <= MAX_ADDRESS,
        token.text == seq!['@'] + name,
    ensures
        generate(state, token) == Ok::<Generated, ErrorView>(
            Generated {
                table: state.table.insert(name, state.next as u16),
                next: state.next + 1,
                program: state.program.push(Instruction::A(state.next as u16)),
            },
        ),
{
    lemma_symbol_statement(token.text, name);
}

/// The first variable of a program gets the address 16, the second the
/// address 17, and a variable that is named again keeps its address.
pub proof fn law_variables_from_16(
    table: Map<Seq<char>, u16>,
    first: Seq<char>,
    second: Seq<char>,
    tokens: Seq<TokenView>,
)
    requires
        valid_symbol(first),
        valid_symbol(second),
        first != second,
        !table.contains_key(first),
        !table.contains_key(second),
        tokens.len() == 3,
        tokens[0].text == seq!['@'] + first,
        tokens[1].text == seq!['@'] + second,
        tokens[2].text == seq!['@'] + first,
    ensures
        generated(table, tokens) == Ok::<Seq<Instruction>, ErrorView>(
            seq![Instruction::A(16), Instruction::A(17), Instruction::A(16)],
        ),
{
    let s0 = Generated { table, next: FIRST_VARIABLE as nat, program: Seq::empty() };
    assert(generated_prefix(table, tokens, 0) == Ok::<Generated, ErrorView>(s0));
    law_new_variable(s0, tokens[0], first);
    let s1 = generate(s0, tokens[0])->Ok_0;
    assert(generated_prefix(table, tokens, 1) == Ok::<Generated, ErrorView>(s1));
    law_new_variable(s1, tokens[1], second);
    let s2 = generate(s1, tokens[1])->Ok_0;
    assert(generated_prefix(table, tokens, 2) == Ok::<Generated, ErrorView>(s2));
    law_bound_symbol(s2, tokens[2], first);
    let s3 = generate(s2, tokens[2])->Ok_0;
    assert(generated_prefix(table, tokens, 3) == Ok::<Generated, ErrorView>(s3));
    assert(s3.program =~= seq![Instruction::A(16), Instruction::A(17), Instruction::A(16)]);
}

/// A symbol that the table holds before the second pass loads the same
/// address at every place of the program where it is named.
pub proof fn law_symbol_use(
    table: Map<Seq<char>, u16>,
    tokens: Seq<TokenView>,
    name: Seq<char>,
    u: int,
)
    requires
        valid_symbol(name),
        table.contains_key(name),
        0 <= u < tokens.len(),
        tokens[u].text == seq!['@'] + name,
        generated(table, tokens) is Ok,
    ensures
        generated(table, tokens)->Ok_0[u] == Instruction::A(table[name]),
{
    let n = tokens.len() as int;
    lemma_generation_only_grows(table, tokens, u + 1, n);
    lemma_generation_only_grows(table, tokens, u, u + 1);
    lemma_generation_only_grows(table, tokens, 0, u);
    lemma_program_length(table, tokens, u);
    let before = generated_prefix(table, tokens, u)->Ok_0;
    let after = generated_prefix(table, tokens, u + 1)->Ok_0;
    let start = generated_prefix(table, tokens, 0)->Ok_0;
    assert(start.table == table);
    assert(start.table.submap_of(before.table));
    assert(start.table.dom().contains(name));
    assert(before.table.dom().contains(name));
    assert(before.table.contains_key(name) && before.table[name] == table[name]);
    law_bound_symbol(before, tokens[u], name);
    assert(after.program[u] == Instruction::A(table[name]));
}

/// The second pass: the instructions that the symbols of `source` stand for,
/// in their order.
///
/// Fails at the first symbol that is neither an address instruction nor a
/// compute instruction, and at a new variable for which no address is left.
pub fn generate_instructions<'a>(symbol_table: SymbolTable, source: Source<'a>) -> (r: Result<
    Vec<Instruction>,
    Error,
>)
    ensures
        match r {
            Ok(program) => generated(symbol_table@, source.deep_view()) == Ok::<
                Seq<Instruction>,
                ErrorView,
            >(program@),
            Err(e) => generated(symbol_table@, source.deep_view()) == Err::<
                Seq<Instruction>,
                ErrorView,
            >(e@),
        },
{
    let mut table = symbol_table;
    let mut next: u16 = FIRST_VARIABLE;
    let mut program: Vec<Instruction> = Vec::new();
    let mut i: usize = 0;
    while i < source.len()
        invariant
            i <= source.len(),
            next <= MAX_ADDRESS + 1,
            generated_prefix(symbol_table@, source.deep_view(), i as int) == Ok::<
                Generated,
                ErrorView,
            >(Generated { table: table@, next: next as nat, program: program@ }),
        decreases source.len() - i,
    {
        let token = source[i];
        assert(source.deep_view()[i as int] == token@);
        proof {
            let all = source.deep_view();
            if generated_prefix(symbol_table@, all, i + 1) is Err {
                lemma_fault_is_final(symbol_table@, all, i + 1, all.len() as int);
            }
        }
        match parse_statement(token.text) {
            Err(cause) => {
                return Err(parse_fault(&token, cause));
            },
            Ok(Statement::Address(address)) => {
                program.push(Instruction::A(address));
            },
            Ok(Statement::Compute(compute)) => {
                program.push(Instruction::C(compute.encode()));
            },
            Ok(Statement::Symbol(label)) => {
                match table.get(&label) {
                    Some(address) => {
                        program.push(Instruction::A(address));
                    },
                    None => {
                        if next > MAX_ADDRESS {
                            let mut cause = "No memory left for the variable `".to_owned();
                            cause.append(label.as_str());
                            cause.append("`");
                            return Err(parse_fault(&token, cause));
                        }
                        let bound = table.add_entry(label, next);
                        table = bound.0;
                        program.push(Instruction::A(next));
                        next = next + 1;
                    },
                }
            },
        }
        i = i + 1;
    }
    Ok(program)
}

/// The words of the instructions of `program` that have one, in order.
pub open spec fn words_of(program: Seq<Instruction>) -> Seq<u16>
    decreases program.len(),
{
    if program.len() == 0 {
        Seq::empty()
    } else {
        match program.last().word() {
            Some(word) => words_of(program.drop_last()).push(word),
            None => words_of(program.drop_last()),
        }
    }
}

/// The words of the instructions of `program` that have one, in order.
pub fn words(program: &Vec<Instruction>) -> (r: Vec<u16>)
    ensures
        r@ == words_of(program@),
{
    let mut r: Vec<u16> = Vec::new();
    let mut i: usize = 0;
    while i < program.len()
        invariant
            i <= program.len(),
            r@ == words_of(program@.take(i as int)),
        decreases program.len() - i,
    {
        proof {
            let longer = program@.take(i + 1);
            assert(longer.drop_last() =~= program@.take(i as int));
            assert(longer.last() == program@[i as int]);
        }
        match program[i].encode() {
            Some(word) => {
                r.push(word);
            },
            None => {},
        }
        i = i + 1;
    }
    assert(program@.take(i as int) =~= program@);
    r
}

/// The words that `tokens` encode, begun with `table`.
pub open spec fn encoded(table: Map<Seq<char>, u16>, tokens: Seq<TokenView>) -> Result<
    Seq<u16>,
    ErrorView,
> {
    match generated(table, tokens) {
        Ok(program) => Ok(words_of(program)),
        Err(e) => Err(e),
    }
}

/// Encodes the symbols of `source`, one word for each, in their order.
pub fn encode<'a>(symbol_table: SymbolTable, source: Source<'a>) -> (r: Result<Vec<u16>, Error>)
    ensures
        match r {
            Ok(program) => encoded(symbol_table@, source.deep_view()) == Ok::<
                Seq<u16>,
                ErrorView,
            >(program@),
            Err(e) => encoded(symbol_table@, source.deep_view()) == Err::<Seq<u16>, ErrorView>(
                e@,
            ),
        },
{
    match generate_instructions(symbol_table, source) {
        Ok(program) => Ok(words(&program)),
        Err(e) => Err(e),
    }
}

/// The last `width` binary digits of `value`, the highest first.
pub open spec fn binary(value: nat, width: nat) -> Seq<char>
    decreases width,
{
    if width == 0 {
        Seq::empty()
    } else {
        binary(value / 2, (width - 1) as nat).push(
            if value % 2 == 1 {
                '1'
            } else {
                '0'
            },
        )
    }
}

/// The binary digits of a value are as many as asked for, each `0` or `1`,
/// and the last of them tells whether the value is odd.
pub proof fn lemma_binary_shape(value: nat, width: nat)
    ensures
        binary(value, width).len() == width,
        forall|i: int|
            0 <= i < width ==> (#[trigger] binary(value, width)[i]) == '0' || binary(
                value,
                width,
            )[i] == '1',
        width > 0 ==> (binary(value, width).last() == '1') == (value % 2 == 1),
    decreases width,
{
    if width > 0 {
        lemma_binary_shape(value / 2, (width - 1) as nat);
    }
}

/// Writes the last `width` binary digits of `value`, the highest first.
pub fn binary_text(value: u16, width: usize) -> (text: String)
    ensures
        text@ == binary(value as nat, width as nat),
    decreases width,
{
    if width == 0 {
        String::new()
    } else {
        let mut text = binary_text(value / 2, width - 1);
        proof {
            reveal_strlit("0");
            reveal_strlit("1");
        }
        if value % 2 == 1 {
            text.append("1");
            assert(text@ =~= binary((value / 2) as nat, (width - 1) as nat).push('1'));
        } else {
            text.append("0");
            assert(text@ =~= binary((value / 2) as nat, (width - 1) as nat).push('0'));
        }
        text
    }
}

/// The 16 binary digits of each word, one word on a line.
pub open spec fn rendered(words: Seq<u16>) -> Seq<char> {
    joined(words.map_values(|word: u16| binary(word as nat, 16)), "\n"@)
}

/// Writes a program as text: the 16 binary digits of each word, one word on
/// a line.
pub fn render(words: &Vec<u16>) -> (text: String)
    ensures
        text@ == rendered(words@),
{
    let mut lines: Vec<String> = Vec::new();
    let mut i: usize = 0;
    while i < words.len()
        invariant
            i <= words.len(),
            lines.deep_view() == words@.take(i as int).map_values(
                |word: u16| binary(word as nat, 16),
            ),
        decreases words.len() - i,
    {
        let ghost before = lines.deep_view();
        lines.push(binary_text(words[i], 16));
        assert(lines.deep_view() =~= before.push(binary(words[i as int] as nat, 16)));
        assert(lines.deep_view() =~= words@.take(i + 1).map_values(
            |word: u16| binary(word as nat, 16),
        ));
        i = i + 1;
    }
    assert(words@.take(i as int) =~= words@);
    join(&lines, "\n")
}

} // verus!
