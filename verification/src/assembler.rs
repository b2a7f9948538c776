//! The assembler as one function from source text to program text.

use vstd::prelude::*;
use crate::decimal::{decimal, lemma_decimal_round_trip};
use crate::encoder::{
    binary, encode, encoded, generated, generated_prefix, law_address_literal, law_symbol_use,
    lemma_binary_shape, lemma_generated_program, render, rendered, words_of, Generated,
};
use crate::error::{Error, ErrorView};
use crate::grammar::MAX_ADDRESS;
use crate::instruction::Instruction;
use crate::labels::{
    declared_name, instructions, law_label_address, lemma_program_is_instructions,
    lemma_table_stays_well_formed, resolve_labels, resolved, resolved_prefix, Resolved,
};
use crate::lexer::{
    is_plain, law_plain_symbol, law_unterminated_comment, line_of, normalize_source, normalized,
    scan_state, TokenView,
};
use crate::symbol::{lemma_predefined_well_formed, predefined, well_formed, SymbolTable};
use crate::text::joined;
use crate::ROM_SIZE;

verus! {

/// What assembling `source` gives: the program as text, or the first error
/// of the first stage that fails. The stages are the normalizer, the first
/// pass, begun with the predefined names, the second pass, and the test that
/// the program fits the ROM.
pub open spec fn assembled(source: Seq<char>) -> Result<Seq<char>, ErrorView> {
    match normalized(source) {
        Err(e) => Err(e),
        Ok(tokens) => match resolved(predefined(), tokens) {
            Err(e) => Err(e),
            Ok(pass) => match encoded(pass.table, pass.program) {
                Err(e) => Err(e),
                Ok(words) => if words.len() > ROM_SIZE {
                    Err(ErrorView::SourceTooLong(words.len()))
                } else {
                    Ok(rendered(words))
                },
            },
        },
    }
}

/// Assembles a source text: gives the program as lines of 16 binary digits,
/// one line for each instruction, or the first error.
pub fn parse(source: &str) -> (r: Result<String, Error>)
    ensures
        match r {
            Ok(binary) => assembled(source@) == Ok::<Seq<char>, ErrorView>(binary@),
            Err(e) => assembled(source@) == Err::<Seq<char>, ErrorView>(e@),
        },
{
    let symbol_table = SymbolTable::default();
    let source = match normalize_source(source) {
        Ok(tokens) => tokens,
        Err(e) => {
            return Err(e);
        },
    };
    let (symbol_table, source) = match resolve_labels(symbol_table, source) {
        Ok(pass) => pass,
        Err(e) => {
            return Err(e);
        },
    };
    let words = match encode(symbol_table, source) {
        Ok(words) => words,
        Err(e) => {
            return Err(e);
        },
    };
    if words.len() > ROM_SIZE {
        return Err(Error::SourceTooLong(words.len()));
    }
    Ok(render(&words))
}

/// Instructions that all have a word give as many words.
pub proof fn lemma_one_word_each(program: Seq<Instruction>)
    requires
        forall|i: int| 0 <= i < program.len() ==> (#[trigger] program[i]).word() is Some,
    ensures
        words_of(program).len() == program.len(),
        forall|i: int|
            0 <= i < program.len() ==> Some(#[trigger] words_of(program)[i]) == program[i].word(),
    decreases program.len(),
{
    if program.len() > 0 {
        let head = program.drop_last();
        assert forall|i: int| 0 <= i < head.len() implies (#[trigger] head[i]).word() is Some by {
            assert(head[i] == program[i]);
        }
        lemma_one_word_each(head);
        assert forall|i: int| 0 <= i < program.len() implies Some(
            #[trigger] words_of(program)[i],
        ) == program[i].word() by {
            if i < head.len() {
                assert(head[i] == program[i]);
                assert(words_of(program)[i] == words_of(head)[i]);
            }
        }
    }
}

/// The second pass gives a word for each symbol that the first pass has
/// left.
pub proof fn lemma_word_count(table: Map<Seq<char>, u16>, tokens: Seq<TokenView>)
    requires
        well_formed(table),
        encoded(table, tokens) is Ok,
    ensures
        encoded(table, tokens)->Ok_0.len() == tokens.len(),
{
    lemma_generated_program(table, tokens, tokens.len() as int);
    lemma_one_word_each(generated(table, tokens)->Ok_0);
}

/// A program of more instructions than the ROM holds is an error that holds
/// their number, where no stage before the test of the size finds an error
/// of its own.
pub proof fn law_source_too_long(source: Seq<char>)
    requires
        normalized(source) is Ok,
        resolved(predefined(), normalized(source)->Ok_0) is Ok,
        ({
            let pass = resolved(predefined(), normalized(source)->Ok_0)->Ok_0;
            encoded(pass.table, pass.program) is Ok && pass.program.len() > ROM_SIZE
        }),
    ensures
        assembled(source) == Err::<Seq<char>, ErrorView>(
            ErrorView::SourceTooLong(
                instructions(
                    normalized(source)->Ok_0,
                    normalized(source)->Ok_0.len() as int,
                ).len(),
            ),
        ),
{
    let tokens = normalized(source)->Ok_0;
    let pass = resolved(predefined(), tokens)->Ok_0;
    lemma_predefined_well_formed();
    lemma_table_stays_well_formed(predefined(), tokens, tokens.len() as int);
    lemma_program_is_instructions(predefined(), tokens, tokens.len() as int);
    lemma_word_count(pass.table, pass.program);
}

/// A program that is assembled is whole: it has one line of 16 binary digits
/// for each instruction of the source, in their order, every line is the
/// word of an instruction, and there are no more lines than the ROM holds
/// words.
pub proof fn law_program_is_whole(source: Seq<char>)
    requires
        assembled(source) is Ok,
    ensures
        ({
            let tokens = normalized(source)->Ok_0;
            let pass = resolved(predefined(), tokens)->Ok_0;
            let words = encoded(pass.table, pass.program)->Ok_0;
            &&& pass.program == instructions(tokens, tokens.len() as int)
            &&& words.len() == pass.program.len()
            &&& words.len() <= ROM_SIZE
            &&& forall|i: int|
                0 <= i < words.len() ==> Instruction::of_word(#[trigger] words[i]) is Some
            &&& forall|i: int|
                0 <= i < words.len() ==> (#[trigger] binary(words[i] as nat, 16)).len() == 16
            &&& assembled(source) == Ok::<Seq<char>, ErrorView>(
                joined(Seq::new(words.len(), |i: int| binary(words[i] as nat, 16)), "\n"@),
            )
        }),
{
    let tokens = normalized(source)->Ok_0;
    let pass = resolved(predefined(), tokens)->Ok_0;
    let words = encoded(pass.table, pass.program)->Ok_0;
    lemma_predefined_well_formed();
    lemma_table_stays_well_formed(predefined(), tokens, tokens.len() as int);
    lemma_program_is_instructions(predefined(), tokens, tokens.len() as int);
    lemma_word_count(pass.table, pass.program);
    let program = generated(pass.table, pass.program)->Ok_0;
    lemma_generated_program(pass.table, pass.program, pass.program.len() as int);
    lemma_one_word_each(program);
    assert forall|i: int| 0 <= i < words.len() implies Instruction::of_word(
        #[trigger] words[i],
    ) is Some by {
        assert(program[i].wf() && program[i].word() == Some(words[i]));
    }
    assert forall|i: int| 0 <= i < words.len() implies (#[trigger] binary(
        words[i] as nat,
        16,
    )).len() == 16 by {
        lemma_binary_shape(words[i] as nat, 16);
    }
    assert(words.map_values(|word: u16| binary(word as nat, 16)) =~= Seq::new(
        words.len(),
        |i: int| binary(words[i] as nat, 16),
    ));
}

/// A label loads the address of the instruction that follows its
/// declaration at every place where it is named, before the declaration as
/// well as after it.
pub proof fn law_label_resolves(
    table: Map<Seq<char>, u16>,
    tokens: Seq<TokenView>,
    i: int,
    u: int,
)
    requires
        0 <= i < tokens.len(),
        declared_name(tokens[i].text) is Some,
        resolved(table, tokens) is Ok,
        ({
            let pass = resolved(table, tokens)->Ok_0;
            &&& generated(pass.table, pass.program) is Ok
            &&& 0 <= u < pass.program.len()
            &&& pass.program[u].text == seq!['@'] + declared_name(tokens[i].text)->0
        }),
    ensures
        ({
            let pass = resolved(table, tokens)->Ok_0;
            generated(pass.table, pass.program)->Ok_0[u] == Instruction::A(
                instructions(tokens, i).len() as u16,
            )
        }),
{
    let pass = resolved(table, tokens)->Ok_0;
    let name = declared_name(tokens[i].text)->0;
    law_label_address(table, tokens, i);
    law_symbol_use(pass.table, pass.program, name, u);
}

/// A block comment that is still open at the end of the source fails the
/// assembly with the error that names the line of the comment's opener.
pub proof fn law_open_comment_fails(source: Seq<char>)
    requires
        scan_state(source, source.len() as int) is BlockComment,
    ensures
        assembled(source) == Err::<Seq<char>, ErrorView>(
            ErrorView::Parse {
                line_no: line_of(source, scan_state(source, source.len() as int)->open),
                source: source.subrange(
                    scan_state(source, source.len() as int)->open,
                    source.len() as int,
                ),
                cause: "Unterminated multiline comment"@,
            },
        ),
{
    law_unterminated_comment(source);
}

/// The source `@n`, for a number `n` of at most 32767, assembles to the 16
/// binary digits of `n`.
pub proof fn law_address_source(n: nat)
    requires
        n <= MAX_ADDRESS,
    ensures
        assembled(seq!['@'] + decimal(n)) == Ok::<Seq<char>, ErrorView>(binary(n, 16)),
{
    let source = seq!['@'] + decimal(n);
    let token = TokenView { line_no: 1, column: 1, text: source };
    let tokens = seq![token];
    lemma_decimal_round_trip(n);
    assert forall|k: int| 0 <= k < source.len() implies is_plain(
        #[trigger] source[k],
    ) by {
        if k > 0 {
            assert(source[k] == decimal(n)[k - 1]);
        }
    }
    law_plain_symbol(source);
    assert(declared_name(source) is None);
    let start = Resolved { table: predefined(), program: Seq::empty() };
    assert(resolved_prefix(predefined(), tokens, 0) == Ok::<Resolved, ErrorView>(start));
    let pass = Resolved { table: predefined(), program: Seq::<TokenView>::empty().push(token) };
    assert(resolved_prefix(predefined(), tokens, 1) == Ok::<Resolved, ErrorView>(pass));
    assert(pass.program =~= tokens);
    let begun = Generated { table: predefined(), next: 16, program: Seq::empty() };
    assert(generated_prefix(predefined(), tokens, 0) == Ok::<Generated, ErrorView>(begun));
    law_address_literal(begun, token, n);
    let program = Seq::<Instruction>::empty().push(Instruction::A(n as u16));
    assert(generated(predefined(), tokens) == Ok::<Seq<Instruction>, ErrorView>(program));
    assert(program.drop_last() =~= Seq::<Instruction>::empty());
    assert(words_of(program.drop_last()) =~= Seq::<u16>::empty());
    let words = seq![n as u16];
    assert(words_of(program) =~= words);
    assert(words.map_values(|word: u16| binary(word as nat, 16)) =~= seq![binary(n, 16)]);
}

} // verus!
