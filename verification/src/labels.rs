//! The first pass: binding label declarations to instruction addresses.
//!
//! A symbol wrapped in round brackets declares a label. The label stands for
//! the address of the instruction that follows the declaration, which is the
//! number of instructions before it. Declarations take no address of their
//! own and do not reach the second pass.

use vstd::prelude::*;
use crate::error::{Error, ErrorView};
use crate::lexer::{parse_error, parse_fault, Source, Token, TokenView};
use crate::symbol::{symbol_fault, valid_symbol, well_formed, Label, SymbolTable};
use crate::ROM_SIZE;

verus! {

/// The name that `text` declares as a label, if `text` is a declaration: what
/// stands between a leading `(` and a trailing `)`.
pub open spec fn declared_name(text: Seq<char>) -> Option<Seq<char>> {
    if text.len() >= 2 && text.first() == '(' && text.last() == ')' {
        Some(text.subrange(1, text.len() - 1))
    } else {
        None
    }
}

/// Takes a symbol apart: its first character, its last character where that
/// is another one, and what stands between the two.
pub fn try_label<'a>(line: &'a str) -> (r: (Option<char>, Option<char>, &'a str))
    ensures
        r.0 == if line@.len() >= 1 {
            Some(line@.first())
        } else {
            None
        },
        r.1 == if line@.len() >= 2 {
            Some(line@.last())
        } else {
            None
        },
        r.2@ == if line@.len() >= 2 {
            line@.subrange(1, line@.len() - 1)
        } else {
            Seq::<char>::empty()
        },
{
    let len = line.unicode_len();
    if len == 0 {
        (None, None, line)
    } else if len == 1 {
        (Some(line.get_char(0)), None, line.substring_char(1, 1))
    } else {
        (
            Some(line.get_char(0)),
            Some(line.get_char(len - 1)),
            line.substring_char(1, len - 1),
        )
    }
}

/// The words of the error for a label that is declared a second time.
pub open spec fn duplicate_fault(name: Seq<char>) -> Seq<char> {
    "Duplicate label `"@ + name + "`"@
}

/// The words of the error for a label that follows more instructions than
/// the ROM holds.
pub open spec fn capacity_fault(name: Seq<char>) -> Seq<char> {
    "The label `"@ + name + "` is pointing to the address beyond the max ROM address"@
}

/// The outcome of the first pass over some symbols: the table with the labels
/// bound, and the symbols that are instructions, in order.
pub struct Resolved {
    pub table: Map<Seq<char>, u16>,
    pub program: Seq<TokenView>,
}

/// What the first pass does with one symbol. A declaration is bound to the
/// number of instructions before it, and fails where its name is no symbol,
/// is already in the table, or lies beyond the ROM. Any other symbol is an
/// instruction and joins the program.
pub open spec fn bind(state: Resolved, token: TokenView) -> Result<Resolved, ErrorView> {
    match declared_name(token.text) {
        None => Ok(Resolved { table: state.table, program: state.program.push(token) }),
        Some(name) => if !valid_symbol(name) {
            Err(parse_error(token, symbol_fault(name)))
        } else if state.table.contains_key(name) {
            Err(parse_error(token, duplicate_fault(name)))
        } else if state.program.len() > ROM_SIZE {
            Err(parse_error(token, capacity_fault(name)))
        } else {
            Ok(
                Resolved {
                    table: state.table.insert(name, state.program.len() as u16),
                    program: state.program,
                },
            )
        },
    }
}

/// The outcome of the first pass over the first `n` of `tokens`, begun with
/// `table`: the first error, if a symbol among them fails.
pub open spec fn resolved_prefix(table: Map<Seq<char>, u16>, tokens: Seq<TokenView>, n: int)
    -> Result<Resolved, ErrorView>
    decreases n,
{
    if n <= 0 {
        Ok(Resolved { table, program: Seq::empty() })
    } else {
        match resolved_prefix(table, tokens, n - 1) {
            Ok(state) => bind(state, tokens[n - 1]),
            Err(e) => Err(e),
        }
    }
}

/// The outcome of the first pass over all of `tokens`, begun with `table`.
pub open spec fn resolved(table: Map<Seq<char>, u16>, tokens: Seq<TokenView>) -> Result<
    Resolved,
    ErrorView,
> {
    resolved_prefix(table, tokens, tokens.len() as int)
}

/// Once the first pass has failed, the symbols that follow change nothing.
pub proof fn lemma_failure_is_final(
    table: Map<Seq<char>, u16>,
    tokens: Seq<TokenView>,
    k: int,
    n: int,
)
    requires
        0 <= k <= n,
        resolved_prefix(table, tokens, k) is Err,
    ensures
        resolved_prefix(table, tokens, n) == resolved_prefix(table, tokens, k),
    decreases n - k,
{
    if k < n {
        lemma_failure_is_final(table, tokens, k, n - 1);
    }
}

/// The symbols among the first `n` of `tokens` that declare no label: the
/// instructions, in their order.
pub open spec fn instructions(tokens: Seq<TokenView>, n: int) -> Seq<TokenView>
    decreases n,
{
    if n <= 0 {
        Seq::empty()
    } else if declared_name(tokens[n - 1].text) is Some {
        instructions(tokens, n - 1)
    } else {
        instructions(tokens, n - 1).push(tokens[n - 1])
    }
}

/// Where the first pass has come through `n` symbols, it has come through
/// every shorter prefix, and what it had then, it still has: each entry of
/// the table and each instruction.
pub proof fn lemma_pass_only_grows(
    table: Map<Seq<char>, u16>,
    tokens: Seq<TokenView>,
    k: int,
    n: int,
)
    requires
        0 <= k <= n,
        resolved_prefix(table, tokens, n) is Ok,
    ensures
        resolved_prefix(table, tokens, k) is Ok,
        ({
            let early = resolved_prefix(table, tokens, k)->Ok_0;
            let late = resolved_prefix(table, tokens, n)->Ok_0;
            &&& early.table.submap_of(late.table)
            &&& early.program.is_prefix_of(late.program)
        }),
    decreases n - k,
{
    if k < n {
        lemma_pass_only_grows(table, tokens, k, n - 1);
    }
}

/// Where the first pass has come through `n` symbols, its program is the
/// instructions among them.
pub proof fn lemma_program_is_instructions(
    table: Map<Seq<char>, u16>,
    tokens: Seq<TokenView>,
    n: int,
)
    requires
        0 <= n,
        resolved_prefix(table, tokens, n) is Ok,
    ensures
        resolved_prefix(table, tokens, n)->Ok_0.program == instructions(tokens, n),
    decreases n,
{
    if n > 0 {
        lemma_pass_only_grows(table, tokens, n - 1, n);
        lemma_program_is_instructions(table, tokens, n - 1);
    }
}

/// The first pass fails with no other error than one that names the
/// offending symbol.
pub proof fn lemma_failure_is_parse(table: Map<Seq<char>, u16>, tokens: Seq<TokenView>, n: int)
    requires
        resolved_prefix(table, tokens, n) is Err,
    ensures
        resolved_prefix(table, tokens, n)->Err_0 is Parse,
    decreases n,
{
    if n > 0 && resolved_prefix(table, tokens, n - 1) is Err {
        lemma_failure_is_parse(table, tokens, n - 1);
    }
}

/// The first pass keeps a well-formed table well-formed.
pub proof fn lemma_table_stays_well_formed(
    table: Map<Seq<char>, u16>,
    tokens: Seq<TokenView>,
    n: int,
)
    requires
        well_formed(table),
        resolved_prefix(table, tokens, n) is Ok,
    ensures
        well_formed(resolved_prefix(table, tokens, n)->Ok_0.table),
    decreases n,
{
    if n > 0 {
        lemma_table_stays_well_formed(table, tokens, n - 1);
    }
}

/// A label stands for the address of the instruction that follows its
/// declaration: where the first pass succeeds, it has bound every declared
/// name to the number of instructions before the declaration, and its
/// program is the instructions in their order.
pub proof fn law_label_address(table: Map<Seq<char>, u16>, tokens: Seq<TokenView>, i: int)
    requires
        0 <= i < tokens.len(),
        declared_name(tokens[i].text) is Some,
        resolved(table, tokens) is Ok,
    ensures
        ({
            let pass = resolved(table, tokens)->Ok_0;
            let name = declared_name(tokens[i].text)->0;
            &&& valid_symbol(name)
            &&& !table.contains_key(name)
            &&& pass.table.contains_key(name)
            &&& pass.table[name] == instructions(tokens, i).len()
            &&& pass.program == instructions(tokens, tokens.len() as int)
        }),
{
    let n = tokens.len() as int;
    let name = declared_name(tokens[i].text)->0;
    lemma_pass_only_grows(table, tokens, i + 1, n);
    lemma_pass_only_grows(table, tokens, i, i + 1);
    lemma_pass_only_grows(table, tokens, 0, i);
    lemma_program_is_instructions(table, tokens, i);
    lemma_program_is_instructions(table, tokens, n);
    let bound = resolved_prefix(table, tokens, i + 1)->Ok_0;
    assert(bound.table.contains_key(name));
    assert(bound.table.dom().contains(name));
}

/// A label that is declared a second time is an error, however far apart
/// the two declarations stand: the first pass fails, and if it has not
/// failed before the second declaration, it fails there, with the words for
/// a duplicate label.
pub proof fn law_duplicate_label(table: Map<Seq<char>, u16>, tokens: Seq<TokenView>, i: int, j: int)
    requires
        0 <= i < j < tokens.len(),
        declared_name(tokens[i].text) is Some,
        declared_name(tokens[i].text) == declared_name(tokens[j].text),
    ensures
        resolved(table, tokens) is Err,
        resolved(table, tokens)->Err_0 is Parse,
        resolved_prefix(table, tokens, j) is Ok ==> resolved(table, tokens) == Err::<
            Resolved,
            ErrorView,
        >(parse_error(tokens[j], duplicate_fault(declared_name(tokens[j].text)->0))),
{
    let n = tokens.len() as int;
    let name = declared_name(tokens[i].text)->0;
    if resolved_prefix(table, tokens, j) is Ok {
        lemma_pass_only_grows(table, tokens, i + 1, j);
        lemma_pass_only_grows(table, tokens, i, i + 1);
        let bound = resolved_prefix(table, tokens, i + 1)->Ok_0;
        let late = resolved_prefix(table, tokens, j)->Ok_0;
        assert(bound.table.contains_key(name));
        assert(bound.table.dom().contains(name));
        assert(late.table.contains_key(name));
        assert(resolved_prefix(table, tokens, j + 1) == bind(late, tokens[j]));
        lemma_failure_is_final(table, tokens, j + 1, n);
    } else {
        lemma_failure_is_final(table, tokens, j, n);
    }
    lemma_failure_is_parse(table, tokens, n);
}

/// The first pass: binds every label that `source` declares in
/// `symbol_table` and returns the table with the symbols that are left, the
/// instructions, in their order.
///
/// Fails at the first declaration whose name is no symbol, is already bound,
/// or would point beyond the ROM.
pub fn resolve_labels<'a>(symbol_table: SymbolTable, source: Source<'a>) -> (r: Result<
    (SymbolTable, Source<'a>),
    Error,
>)
    ensures
        match r {
            Ok((table, program)) => resolved(symbol_table@, source.deep_view()) == Ok::<
                Resolved,
                ErrorView,
            >(Resolved { table: table@, program: program.deep_view() }),
            Err(e) => resolved(symbol_table@, source.deep_view()) == Err::<Resolved, ErrorView>(
                e@,
            ),
        },
{
    let mut table = symbol_table;
    let mut program: Vec<Token<'a>> = Vec::new();
    let mut i: usize = 0;
    assert(program.deep_view() =~= Seq::empty());
    while i < source.len()
        invariant
            i <= source.len(),
            resolved_prefix(symbol_table@, source.deep_view(), i as int) == Ok::<
                Resolved,
                ErrorView,
            >(Resolved { table: table@, program: program.deep_view() }),
        decreases source.len() - i,
    {
        let token = source[i];
        assert(source.deep_view()[i as int] == token@);
        let ghost before = program.deep_view();
        proof {
            let all = source.deep_view();
            if resolved_prefix(symbol_table@, all, i + 1) is Err {
                lemma_failure_is_final(symbol_table@, all, i + 1, all.len() as int);
            }
        }
        let parts = try_label(token.text);
        if parts.0 == Some('(') && parts.1 == Some(')') {
            let label = match Label::try_from(parts.2) {
                Ok(label) => label,
                Err(fault) => {
                    return Err(parse_fault(&token, fault));
                },
            };
            if table.contains(&label) {
                let mut cause = "Duplicate label `".to_owned();
                cause.append(label.as_str());
                cause.append("`");
                return Err(parse_fault(&token, cause));
            }
            let address = program.len();
            if address > ROM_SIZE {
                let mut cause = "The label `".to_owned();
                cause.append(label.as_str());
                cause.append("` is pointing to the address beyond the max ROM address");
                return Err(parse_fault(&token, cause));
            }
            let bound = table.add_entry(label, address as u16);
            table = bound.0;
        } else {
            program.push(token);
            assert(program.deep_view() =~= before.push(token@));
        }
        i = i + 1;
    }
    Ok((table, program))
}

} // verus!
