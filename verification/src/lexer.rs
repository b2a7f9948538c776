//! The lexical normalizer: from source text to positioned symbols.
//!
//! The normalizer is a scanner with four states. It drops whitespace, line
//! comments (`//` to the end of the line) and block comments (`/*` to `*/`),
//! and emits the remaining runs of characters with the line and column at
//! which each begins. A comment opener counts only where its first `/` has
//! already been taken into a symbol.

use vstd::prelude::*;
use crate::error::{Error, ErrorView};
use crate::text::{collect_chars, is_space, is_whitespace, joined};

verus! {

/// A symbol of the source text with the position of its first character.
#[derive(Debug, Clone, Copy)]
pub struct Token<'a> {
    /// The 1-based line on which the symbol begins.
    pub line_no: usize,
    /// The 1-based column at which the symbol begins.
    pub column: usize,
    /// The symbol, a slice of the source text.
    pub text: &'a str,
}

/// The symbols of a source text, in source order.
pub type Source<'a> = Vec<Token<'a>>;

/// The mathematical value of a [`Token`].
pub struct TokenView {
    pub line_no: nat,
    pub column: nat,
    pub text: Seq<char>,
}

impl<'a> View for Token<'a> {
    type V = TokenView;

    open spec fn view(&self) -> TokenView {
        TokenView { line_no: self.line_no as nat, column: self.column as nat, text: self.text@ }
    }
}

impl<'a> DeepView for Token<'a> {
    type V = TokenView;

    open spec fn deep_view(&self) -> TokenView {
        self@
    }
}

/// The error that names `token` as the offending text, with `cause` as the
/// reason.
pub open spec fn parse_error(token: TokenView, cause: Seq<char>) -> ErrorView {
    ErrorView::Parse { line_no: token.line_no, source: token.text, cause }
}

/// The error that names `token` as the offending text, with `cause` as the
/// reason.
pub fn parse_fault(token: &Token<'_>, cause: String) -> (e: Error)
    ensures
        e@ == parse_error(token@, cause@),
{
    Error::Parse { line_no: token.line_no, source: token.text.to_owned(), cause }
}

/// The number of line breaks among the first `k` characters.
pub open spec fn newlines(chars: Seq<char>, k: int) -> nat
    decreases k,
{
    if k <= 0 {
        0
    } else if chars[k - 1] == '\n' {
        newlines(chars, k - 1) + 1
    } else {
        newlines(chars, k - 1)
    }
}

/// The offset at which the line that holds offset `k` begins.
pub open spec fn line_begin(chars: Seq<char>, k: int) -> int
    decreases k,
{
    if k <= 0 {
        0
    } else if chars[k - 1] == '\n' {
        k
    } else {
        line_begin(chars, k - 1)
    }
}

/// The 1-based line of offset `k`.
pub open spec fn line_of(chars: Seq<char>, k: int) -> nat {
    newlines(chars, k) + 1
}

/// The 1-based column of offset `k`.
pub open spec fn column_of(chars: Seq<char>, k: int) -> nat {
    (k - line_begin(chars, k) + 1) as nat
}

/// The state of the scanner between two characters.
pub enum Scan {
    /// Between symbols.
    Whitespace,
    /// Inside a symbol that began at offset `start`; the symbol is still
    /// empty where `start` is the offset of the next character.
    Symbol { start: int },
    /// Inside a `//` comment.
    LineComment,
    /// Inside a `/* */` comment whose `/` stands at offset `open`; `star`
    /// tells whether the last character of the comment's body was `*`.
    BlockComment { open: int, star: bool },
}

/// Whether `chars[i]` completes a comment opener whose `/` is the last
/// character of the symbol that began at `start`.
pub open spec fn opens_comment(chars: Seq<char>, start: int, i: int) -> bool {
    start < i && chars[i - 1] == '/' && (chars[i] == '/' || chars[i] == '*')
}

/// The state after the scanner, in `state`, has read `chars[i]`.
pub open spec fn step(chars: Seq<char>, state: Scan, i: int) -> Scan {
    let c = chars[i];
    match state {
        Scan::Whitespace => if is_space(c) {
            Scan::Whitespace
        } else {
            Scan::Symbol { start: i }
        },
        Scan::Symbol { start } => if is_space(c) {
            Scan::Whitespace
        } else if opens_comment(chars, start, i) {
            if c == '/' {
                Scan::LineComment
            } else {
                Scan::BlockComment { open: i - 1, star: false }
            }
        } else {
            Scan::Symbol { start }
        },
        Scan::LineComment => if c == '\n' {
            Scan::Whitespace
        } else {
            Scan::LineComment
        },
        Scan::BlockComment { open, star } => if star && c == '/' {
            Scan::Symbol { start: i + 1 }
        } else {
            Scan::BlockComment { open, star: c == '*' }
        },
    }
}

/// The end of the symbol that the scanner, in `state`, completes on reading
/// `chars[i]`, if it completes one. The symbol then begins where `state`
/// says and is not empty.
pub open spec fn symbol_end(chars: Seq<char>, state: Scan, i: int) -> Option<int> {
    match state {
        Scan::Symbol { start } => if is_space(chars[i]) && start < i {
            Some(i)
        } else if opens_comment(chars, start, i) && start < i - 1 {
            Some(i - 1)
        } else {
            None
        },
        _ => None,
    }
}

/// The state of the scanner after the first `n` characters.
pub open spec fn scan_state(chars: Seq<char>, n: int) -> Scan
    decreases n,
{
    if n <= 0 {
        Scan::Symbol { start: 0 }
    } else {
        step(chars, scan_state(chars, n - 1), n - 1)
    }
}

/// The place of a symbol in the source text: the offset of its first
/// character and the offset after its last.
pub struct Span {
    pub start: int,
    pub end: int,
}

/// The places of the symbols that the scanner has completed within the first
/// `n` characters.
pub open spec fn scan_spans(chars: Seq<char>, n: int) -> Seq<Span>
    decreases n,
{
    if n <= 0 {
        Seq::empty()
    } else {
        let state = scan_state(chars, n - 1);
        match symbol_end(chars, state, n - 1) {
            Some(end) => scan_spans(chars, n - 1).push(Span { start: state->start, end }),
            None => scan_spans(chars, n - 1),
        }
    }
}

/// The places of all symbols of `chars`: those that the scanner completes
/// within the text and the one, if any, that the end of the text completes.
pub open spec fn spans_of(chars: Seq<char>) -> Seq<Span> {
    let n = chars.len() as int;
    match scan_state(chars, n) {
        Scan::Symbol { start } => if start < n {
            scan_spans(chars, n).push(Span { start, end: n })
        } else {
            scan_spans(chars, n)
        },
        _ => scan_spans(chars, n),
    }
}

/// The symbol at `span` with the line and column of its first character.
pub open spec fn token_at(chars: Seq<char>, span: Span) -> TokenView {
    TokenView {
        line_no: line_of(chars, span.start),
        column: column_of(chars, span.start),
        text: chars.subrange(span.start, span.end),
    }
}

/// The symbols at `spans`.
pub open spec fn tokens_at(chars: Seq<char>, spans: Seq<Span>) -> Seq<TokenView> {
    Seq::new(spans.len(), |i: int| token_at(chars, spans[i]))
}

/// What normalizing `chars` gives: the symbols in source order, or the error
/// for a block comment that is still open at the end of the text. The error
/// names the line on which the comment opened and holds the text from the
/// opener on.
pub open spec fn normalized(chars: Seq<char>) -> Result<Seq<TokenView>, ErrorView> {
    let n = chars.len() as int;
    match scan_state(chars, n) {
        Scan::BlockComment { open, star } => Err(
            ErrorView::Parse {
                line_no: line_of(chars, open),
                source: chars.subrange(open, n),
                cause: "Unterminated multiline comment"@,
            },
        ),
        _ => Ok(tokens_at(chars, spans_of(chars))),
    }
}

/// The scanner's state as the executable scanner holds it.
enum ParserState {
    Whitespace,
    Symbol { offset: usize },
    Comment,
    MultiLineComment { offset: usize, line_no: usize, star: bool },
}

impl ParserState {
    /// The state that this value stands for.
    spec fn model(&self) -> Scan {
        match self {
            ParserState::Whitespace => Scan::Whitespace,
            ParserState::Symbol { offset } => Scan::Symbol { start: *offset as int },
            ParserState::Comment => Scan::LineComment,
            ParserState::MultiLineComment { offset, line_no, star } => Scan::BlockComment {
                open: *offset as int,
                star: *star,
            },
        }
    }

    /// What the scanner keeps true of its state before it reads `chars[i]`:
    /// a symbol lies on the current line, and an open block comment carries
    /// the line on which it opened.
    spec fn positioned(&self, chars: Seq<char>, i: int) -> bool {
        match self {
            ParserState::Symbol { offset } => {
                &&& *offset <= i
                &&& newlines(chars, *offset as int) == newlines(chars, i)
                &&& line_begin(chars, *offset as int) == line_begin(chars, i)
            },
            ParserState::MultiLineComment { offset, line_no, star } => {
                &&& *offset < i
                &&& *line_no == line_of(chars, *offset as int)
            },
            _ => true,
        }
    }
}

/// A line never begins after the offset it holds, and no more lines break
/// before an offset than characters stand there.
proof fn lemma_line_bounds(chars: Seq<char>, k: int)
    requires
        0 <= k,
    ensures
        0 <= line_begin(chars, k) <= k,
        newlines(chars, k) <= k,
    decreases k,
{
    if k > 0 {
        lemma_line_bounds(chars, k - 1);
    }
}

/// The characters of `source` from offset `from` up to offset `to`. Offsets
/// count characters: in a text that is all ASCII they are the byte offsets,
/// in any other text the slice is found by counting from the front.
fn slice<'a>(source: &'a str, ascii: bool, from: usize, to: usize) -> (text: &'a str)
    requires
        from <= to <= source@.len(),
        ascii ==> source.is_ascii(),
    ensures
        text@ == source@.subrange(from as int, to as int),
{
    if ascii {
        source.substring_ascii(from, to)
    } else {
        source.substring_char(from, to)
    }
}

/// The symbol `source[start..end]`, positioned by the line breaks before it.
fn token<'a>(
    source: &'a str,
    ascii: bool,
    start: usize,
    end: usize,
    breaks: usize,
    line_start: usize,
) -> (t: Token<'a>)
    requires
        start < end <= source@.len(),
        ascii ==> source.is_ascii(),
        breaks == newlines(source@, start as int),
        line_start == line_begin(source@, start as int),
    ensures
        t@ == token_at(source@, Span { start: start as int, end: end as int }),
{
    proof {
        lemma_line_bounds(source@, start as int);
    }
    Token {
        line_no: breaks + 1,
        column: start - line_start + 1,
        text: slice(source, ascii, start, end),
    }
}

/// Splits a source text into its symbols, dropping whitespace and comments.
///
/// Fails only where a block comment is still open at the end of the text;
/// the error then names the line on which that comment opened and holds the
/// text from its opener on.
pub fn normalize_source<'a>(source: &'a str) -> (r: Result<Source<'a>, Error>)
    ensures
        match r {
            Ok(tokens) => normalized(source@) == Ok::<Seq<TokenView>, ErrorView>(
                tokens.deep_view(),
            ),
            Err(e) => normalized(source@) == Err::<Seq<TokenView>, ErrorView>(e@),
        },
{
    let chars = collect_chars(source);
    let ascii = source.is_ascii();
    let n = chars.len();
    let mut tokens: Vec<Token<'a>> = Vec::new();
    let mut state = ParserState::Symbol { offset: 0 };
    let mut breaks: usize = 0;
    let mut line_start: usize = 0;
    let mut i: usize = 0;
    while i < n
        invariant
            i <= n,
            n == chars.len(),
            chars@ == source@,
            ascii ==> source.is_ascii(),
            state.model() == scan_state(chars@, i as int),
            state.positioned(chars@, i as int),
            tokens.deep_view() == tokens_at(chars@, scan_spans(chars@, i as int)),
            breaks == newlines(chars@, i as int),
            line_start == line_begin(chars@, i as int),
        decreases n - i,
    {
        let c = chars[i];
        let ghost before = tokens.deep_view();
        let mut next = ParserState::Whitespace;
        match state {
            ParserState::Whitespace => {
                if !is_whitespace(c) {
                    next = ParserState::Symbol { offset: i };
                }
            },
            ParserState::Symbol { offset } => {
                if is_whitespace(c) {
                    if offset < i {
                        tokens.push(token(source, ascii, offset, i, breaks, line_start));
                    }
                } else if offset < i && chars[i - 1] == '/' && (c == '/' || c == '*') {
                    if offset < i - 1 {
                        tokens.push(token(source, ascii, offset, i - 1, breaks, line_start));
                    }
                    if c == '/' {
                        next = ParserState::Comment;
                    } else {
                        proof {
                            lemma_line_bounds(chars@, i as int);
                        }
                        next = ParserState::MultiLineComment {
                            offset: i - 1,
                            line_no: breaks + 1,
                            star: false,
                        };
                    }
                } else {
                    next = ParserState::Symbol { offset };
                }
            },
            ParserState::Comment => {
                if c != '\n' {
                    next = ParserState::Comment;
                }
            },
            ParserState::MultiLineComment { offset, line_no, star } => {
                if star && c == '/' {
                    next = ParserState::Symbol { offset: i + 1 };
                } else {
                    next = ParserState::MultiLineComment { offset, line_no, star: c == '*' };
                }
            },
        }
        proof {
            let end = symbol_end(chars@, state.model(), i as int);
            assert(tokens.deep_view() =~= match end {
                Some(e) => before.push(
                    token_at(chars@, Span { start: state.model()->start, end: e }),
                ),
                None => before,
            });
            assert(tokens.deep_view() =~= tokens_at(chars@, scan_spans(chars@, i + 1)));
        }
        if c == '\n' {
            proof {
                lemma_line_bounds(chars@, i as int);
            }
            breaks = breaks + 1;
            line_start = i + 1;
        }
        state = next;
        i = i + 1;
    }
    match state {
        ParserState::MultiLineComment { offset, line_no, star } => Err(
            Error::Parse {
                line_no,
                source: slice(source, ascii, offset, n).to_owned(),
                cause: "Unterminated multiline comment".to_owned(),
            },
        ),
        ParserState::Symbol { offset } => {
            if offset < n {
                let ghost before = tokens.deep_view();
                tokens.push(token(source, ascii, offset, n, breaks, line_start));
                proof {
                    let last = Span { start: offset as int, end: n as int };
                    assert(tokens.deep_view() =~= before.push(token_at(chars@, last)));
                    assert(spans_of(chars@) == scan_spans(chars@, n as int).push(last));
                    assert(tokens.deep_view() =~= tokens_at(chars@, spans_of(chars@)));
                }
            }
            Ok(tokens)
        },
        _ => Ok(tokens),
    }
}

/// Where the scanner stands after the first `n` characters: a symbol in the
/// making holds no whitespace, and an open block comment has its opener where
/// the state says.
pub proof fn lemma_scan_state(chars: Seq<char>, n: int)
    requires
        0 <= n <= chars.len(),
    ensures
        match scan_state(chars, n) {
            Scan::Symbol { start } => {
                &&& 0 <= start <= n
                &&& forall|k: int| start <= k < n ==> !is_space(#[trigger] chars[k])
            },
            Scan::BlockComment { open, star } => {
                &&& 0 <= open
                &&& open + 2 <= n
                &&& chars[open] == '/'
                &&& chars[open + 1] == '*'
            },
            _ => true,
        },
    decreases n,
{
    if n > 0 {
        lemma_scan_state(chars, n - 1);
    }
}

/// Whether `span` marks a run of one character or more of `chars` that
/// holds no whitespace.
pub open spec fn is_run(chars: Seq<char>, span: Span) -> bool {
    &&& 0 <= span.start < span.end <= chars.len()
    &&& forall|k: int| span.start <= k < span.end ==> !is_space(#[trigger] chars[k])
}

/// What holds of the symbols that the scanner has completed within the first
/// `n` characters: each is a run without whitespace that ends before the
/// offset `n`, before the next one begins, and before the symbol in the
/// making.
pub proof fn lemma_scan_spans(chars: Seq<char>, n: int)
    requires
        0 <= n <= chars.len(),
    ensures
        ({
            let spans = scan_spans(chars, n);
            &&& forall|i: int|
                0 <= i < spans.len() ==> is_run(chars, #[trigger] spans[i]) && spans[i].end < n
            &&& forall|i: int, j: int|
                0 <= i < j < spans.len() ==> (#[trigger] spans[i]).end < (#[trigger] spans[j]).start
            &&& forall|i: int|
                0 <= i < spans.len() && scan_state(chars, n) is Symbol ==> (#[trigger] spans[i]).end
                    < scan_state(chars, n)->start
        }),
    decreases n,
{
    if n > 0 {
        lemma_scan_spans(chars, n - 1);
        lemma_scan_state(chars, n - 1);
        let before = scan_spans(chars, n - 1);
        let spans = scan_spans(chars, n);
        let state = scan_state(chars, n - 1);
        match symbol_end(chars, state, n - 1) {
            Some(end) => {
                let last = Span { start: state->start, end };
                assert(spans == before.push(last));
                assert(is_run(chars, last));
                assert forall|i: int| 0 <= i < spans.len() implies is_run(
                    chars,
                    #[trigger] spans[i],
                ) && spans[i].end < n by {
                    if i < before.len() {
                        assert(spans[i] == before[i]);
                    }
                }
                assert forall|i: int, j: int| 0 <= i < j < spans.len() implies (
                #[trigger] spans[i]).end < (#[trigger] spans[j]).start by {
                    assert(spans[i] == before[i]);
                    if j < before.len() {
                        assert(spans[j] == before[j]);
                    }
                }
            },
            None => {
                assert(spans == before);
            },
        }
    }
}

/// Every symbol of a text is a run of one character or more that holds no
/// whitespace, and the symbols follow each other in the text without
/// touching.
pub proof fn law_symbols_are_runs(chars: Seq<char>)
    ensures
        ({
            let spans = spans_of(chars);
            &&& forall|i: int| 0 <= i < spans.len() ==> is_run(chars, #[trigger] spans[i])
            &&& forall|i: int, j: int|
                0 <= i < j < spans.len() ==> (#[trigger] spans[i]).end < (#[trigger] spans[j]).start
        }),
{
    let n = chars.len() as int;
    lemma_scan_spans(chars, n);
    lemma_scan_state(chars, n);
    let before = scan_spans(chars, n);
    let spans = spans_of(chars);
    if spans != before {
        let last = Span { start: scan_state(chars, n)->start, end: n };
        assert(spans == before.push(last));
        assert(is_run(chars, last));
        assert forall|i: int| 0 <= i < spans.len() implies is_run(chars, #[trigger] spans[i]) by {
            if i < before.len() {
                assert(spans[i] == before[i]);
            }
        }
        assert forall|i: int, j: int| 0 <= i < j < spans.len() implies (#[trigger] spans[i]).end
            < (#[trigger] spans[j]).start by {
            assert(spans[i] == before[i]);
            if j < before.len() {
                assert(spans[j] == before[j]);
            }
        }
    }
}

/// Whether `c` neither ends a symbol nor can open a comment.
pub open spec fn is_plain(c: char) -> bool {
    !is_space(c) && c != '/'
}

/// While the text holds only plain characters, the scanner is in the symbol
/// that began the text and has completed none.
pub proof fn lemma_plain_prefix(chars: Seq<char>, n: int)
    requires
        0 <= n <= chars.len(),
        forall|k: int| 0 <= k < n ==> is_plain(#[trigger] chars[k]),
    ensures
        scan_state(chars, n) == (Scan::Symbol { start: 0 }),
        scan_spans(chars, n) == Seq::<Span>::empty(),
    decreases n,
{
    if n > 0 {
        lemma_plain_prefix(chars, n - 1);
    }
}

/// A text of plain characters is one symbol, at line 1 and column 1.
pub proof fn law_plain_symbol(chars: Seq<char>)
    requires
        chars.len() > 0,
        forall|k: int| 0 <= k < chars.len() ==> is_plain(#[trigger] chars[k]),
    ensures
        normalized(chars) == Ok::<Seq<TokenView>, ErrorView>(
            seq![TokenView { line_no: 1, column: 1, text: chars }],
        ),
{
    let n = chars.len() as int;
    lemma_plain_prefix(chars, n);
    let whole = Span { start: 0, end: n };
    assert(spans_of(chars) == Seq::<Span>::empty().push(whole));
    assert(chars.subrange(0, n) =~= chars);
    assert(tokens_at(chars, spans_of(chars)) =~= seq![token_at(chars, whole)]);
}

/// Inside a line comment the scanner stays there, and completes no symbol,
/// until the line breaks.
pub proof fn lemma_line_comment_runs(chars: Seq<char>, from: int, n: int)
    requires
        0 <= from <= n <= chars.len(),
        scan_state(chars, from) is LineComment,
        forall|k: int| from <= k < n ==> #[trigger] chars[k] != '\n',
    ensures
        scan_state(chars, n) is LineComment,
        scan_spans(chars, n) == scan_spans(chars, from),
    decreases n - from,
{
    if from < n {
        lemma_line_comment_runs(chars, from, n - 1);
    }
}

/// A line comment takes nothing from the symbol before it and adds nothing
/// to it: a symbol of plain characters, the same symbol with a line comment
/// right behind it, and the same symbol with a blank and a line comment
/// behind it all normalize to that one symbol, at line 1 and column 1.
pub proof fn law_line_comment(symbol: Seq<char>, comment: Seq<char>)
    requires
        symbol.len() > 0,
        forall|k: int| 0 <= k < symbol.len() ==> is_plain(#[trigger] symbol[k]),
        forall|k: int| 0 <= k < comment.len() ==> #[trigger] comment[k] != '\n',
    ensures
        normalized(symbol) == Ok::<Seq<TokenView>, ErrorView>(
            seq![TokenView { line_no: 1, column: 1, text: symbol }],
        ),
        normalized(symbol + seq!['/', '/'] + comment) == normalized(symbol),
        normalized(symbol + seq![' ', '/', '/'] + comment) == normalized(symbol),
{
    law_plain_symbol(symbol);
    let m = symbol.len() as int;
    let only = Span { start: 0, end: m };
    let none = Seq::<Span>::empty();
    assert forall|chars: Seq<char>|
        chars.len() >= m && chars.subrange(0, m) == symbol && spans_of(chars) == none.push(only)
            && !(scan_state(chars, chars.len() as int) is BlockComment) implies normalized(chars)
        == normalized(symbol) by {
        assert(tokens_at(chars, spans_of(chars)) =~= seq![token_at(chars, only)]);
    }
    {
        let chars = symbol + seq!['/', '/'] + comment;
        let n = chars.len() as int;
        assert(chars.subrange(0, m) =~= symbol);
        assert forall|k: int| 0 <= k < m implies is_plain(#[trigger] chars[k]) by {
            assert(chars[k] == symbol[k]);
        }
        lemma_plain_prefix(chars, m);
        assert(chars[m - 1] == symbol[m - 1]);
        assert(chars[m] == '/' && chars[m + 1] == '/');
        assert(scan_state(chars, m + 1) == (Scan::Symbol { start: 0 }));
        assert(scan_spans(chars, m + 1) == none);
        assert(scan_state(chars, m + 2) == Scan::LineComment);
        assert(scan_spans(chars, m + 2) == none.push(only));
        assert forall|k: int| m + 2 <= k < n implies #[trigger] chars[k] != '\n' by {
            assert(chars[k] == comment[k - m - 2]);
        }
        lemma_line_comment_runs(chars, m + 2, n);
        assert(spans_of(chars) == none.push(only));
    }
    {
        let chars = symbol + seq![' ', '/', '/'] + comment;
        let n = chars.len() as int;
        assert(chars.subrange(0, m) =~= symbol);
        assert forall|k: int| 0 <= k < m implies is_plain(#[trigger] chars[k]) by {
            assert(chars[k] == symbol[k]);
        }
        lemma_plain_prefix(chars, m);
        assert(chars[m] == ' ' && chars[m + 1] == '/' && chars[m + 2] == '/');
        assert(scan_state(chars, m + 1) == Scan::Whitespace);
        assert(scan_spans(chars, m + 1) == none.push(only));
        assert(scan_state(chars, m + 2) == (Scan::Symbol { start: m + 1 }));
        assert(scan_spans(chars, m + 2) == none.push(only));
        assert(scan_state(chars, m + 3) == Scan::LineComment);
        assert(scan_spans(chars, m + 3) == none.push(only));
        assert forall|k: int| m + 3 <= k < n implies #[trigger] chars[k] != '\n' by {
            assert(chars[k] == comment[k - m - 3]);
        }
        lemma_line_comment_runs(chars, m + 3, n);
        assert(spans_of(chars) == none.push(only));
    }
}

/// Whether `text` can be a symbol of a source text: it is not empty, holds no
/// whitespace, and no comment opens inside it.
pub open spec fn is_symbol_text(text: Seq<char>) -> bool {
    &&& text.len() > 0
    &&& forall|k: int| 0 <= k < text.len() ==> !is_space(#[trigger] text[k])
    &&& forall|k: int| 0 < k < text.len() ==> !#[trigger] opens_comment(text, 0, k)
}

/// The texts of `tokens`.
pub open spec fn texts(tokens: Seq<TokenView>) -> Seq<Seq<char>> {
    Seq::new(tokens.len(), |i: int| tokens[i].text)
}

/// No comment opens inside the symbol that the scanner is making.
pub proof fn lemma_symbol_in_the_making(chars: Seq<char>, n: int)
    requires
        0 <= n <= chars.len(),
    ensures
        scan_state(chars, n) matches Scan::Symbol { start } ==> forall|k: int|
            start < k < n ==> !#[trigger] opens_comment(chars, start, k),
    decreases n,
{
    if n > 0 {
        lemma_symbol_in_the_making(chars, n - 1);
    }
}

/// No comment opens inside a symbol that the scanner has completed.
pub proof fn lemma_spans_hold_no_opener(chars: Seq<char>, n: int)
    requires
        0 <= n <= chars.len(),
    ensures
        forall|i: int, k: int|
            0 <= i < scan_spans(chars, n).len() && scan_spans(chars, n)[i].start < k < scan_spans(
                chars,
                n,
            )[i].end ==> !#[trigger] opens_comment(chars, (#[trigger] scan_spans(chars, n)[i]).start, k),
    decreases n,
{
    if n > 0 {
        lemma_spans_hold_no_opener(chars, n - 1);
        lemma_symbol_in_the_making(chars, n - 1);
        let before = scan_spans(chars, n - 1);
        let spans = scan_spans(chars, n);
        assert forall|i: int, k: int|
            0 <= i < spans.len() && spans[i].start < k < spans[i].end implies !#[trigger] opens_comment(
            chars,
            (#[trigger] spans[i]).start,
            k,
        ) by {
            if i < before.len() {
                assert(spans[i] == before[i]);
            }
        }
    }
}

/// Every symbol of a text can be a symbol of a source text.
pub proof fn lemma_symbols_are_symbol_texts(chars: Seq<char>)
    ensures
        forall|i: int|
            0 <= i < spans_of(chars).len() ==> is_symbol_text(
                (#[trigger] tokens_at(chars, spans_of(chars))[i]).text,
            ),
{
    let n = chars.len() as int;
    let spans = spans_of(chars);
    law_symbols_are_runs(chars);
    lemma_spans_hold_no_opener(chars, n);
    lemma_symbol_in_the_making(chars, n);
    let before = scan_spans(chars, n);
    assert forall|i: int| 0 <= i < spans.len() implies is_symbol_text(
        (#[trigger] tokens_at(chars, spans)[i]).text,
    ) by {
        let span = spans[i];
        let text = chars.subrange(span.start, span.end);
        assert(is_run(chars, span));
        assert forall|k: int| 0 <= k < text.len() implies !is_space(#[trigger] text[k]) by {
            assert(text[k] == chars[span.start + k]);
        }
        assert forall|k: int| 0 < k < text.len() implies !#[trigger] opens_comment(text, 0, k) by {
            assert(text[k] == chars[span.start + k]);
            assert(text[k - 1] == chars[span.start + k - 1]);
            if i < before.len() {
                assert(span == before[i]);
                assert(!opens_comment(chars, span.start, span.start + k));
            } else {
                assert(!opens_comment(chars, span.start, span.start + k));
            }
        }
    }
}

/// The scanner reads a text from the front: what it has done after `n`
/// characters depends on those characters alone.
pub proof fn lemma_scan_reads_prefix(a: Seq<char>, b: Seq<char>, n: int)
    requires
        0 <= n <= a.len(),
        n <= b.len(),
        forall|k: int| 0 <= k < n ==> a[k] == b[k],
    ensures
        scan_state(a, n) == scan_state(b, n),
        scan_spans(a, n) == scan_spans(b, n),
    decreases n,
{
    if n > 0 {
        lemma_scan_reads_prefix(a, b, n - 1);
        lemma_scan_state(a, n - 1);
    }
}

/// From between two symbols, or from the front of an empty one, the scanner
/// reads a run that can be a symbol as one symbol in the making.
pub proof fn lemma_symbol_text_is_read_whole(chars: Seq<char>, p: int, q: int)
    requires
        0 <= p < q <= chars.len(),
        scan_state(chars, p) is Whitespace || scan_state(chars, p) == (Scan::Symbol { start: p }),
        is_symbol_text(chars.subrange(p, q)),
    ensures
        scan_state(chars, q) == (Scan::Symbol { start: p }),
        scan_spans(chars, q) == scan_spans(chars, p),
    decreases q - p,
{
    let text = chars.subrange(p, q);
    assert(text[q - 1 - p] == chars[q - 1]);
    assert(!is_space(chars[q - 1]));
    if p + 1 < q {
        let shorter = chars.subrange(p, q - 1);
        assert forall|k: int| 0 <= k < shorter.len() implies !is_space(#[trigger] shorter[k]) by {
            assert(shorter[k] == text[k]);
        }
        assert forall|k: int| 0 < k < shorter.len() implies !#[trigger] opens_comment(
            shorter,
            0,
            k,
        ) by {
            assert(shorter[k] == text[k] && shorter[k - 1] == text[k - 1]);
            assert(!opens_comment(text, 0, k));
        }
        lemma_symbol_text_is_read_whole(chars, p, q - 1);
        assert(text[q - 2 - p] == chars[q - 2]);
        assert(!opens_comment(text, 0, q - 1 - p));
        assert(!opens_comment(chars, p, q - 1));
    }
}

/// Symbols that are written one after the other with a blank between each
/// two are read as they were written: at the end of the text the scanner is
/// making the last of them and has completed the others, in their order.
pub proof fn lemma_rescan(parts: Seq<Seq<char>>)
    requires
        parts.len() > 0,
        forall|i: int| 0 <= i < parts.len() ==> is_symbol_text(#[trigger] parts[i]),
    ensures
        ({
            let text = joined(parts, seq![' ']);
            let n = text.len() as int;
            let spans = scan_spans(text, n);
            &&& n >= parts.last().len()
            &&& scan_state(text, n) == (Scan::Symbol { start: n - parts.last().len() })
            &&& text.subrange(n - parts.last().len(), n) == parts.last()
            &&& spans.len() == parts.len() - 1
            &&& forall|i: int|
                0 <= i < spans.len() ==> 0 <= (#[trigger] spans[i]).start <= spans[i].end <= n
                    && text.subrange(spans[i].start, spans[i].end) == parts[i]
        }),
    decreases parts.len(),
{
    let text = joined(parts, seq![' ']);
    let n = text.len() as int;
    let last = parts.last();
    if parts.len() == 1 {
        assert(text == last);
        assert(text.subrange(0, n) =~= last);
        lemma_symbol_text_is_read_whole(text, 0, n);
    } else {
        let head = parts.drop_last();
        let first = joined(head, seq![' ']);
        let m = first.len() as int;
        assert forall|i: int| 0 <= i < head.len() implies is_symbol_text(#[trigger] head[i]) by {
            assert(head[i] == parts[i]);
        }
        lemma_rescan(head);
        assert(text == first + seq![' '] + last);
        assert(n == m + 1 + last.len());
        assert forall|k: int| 0 <= k < m implies text[k] == first[k] by {}
        lemma_scan_reads_prefix(text, first, m);
        let start = m - head.last().len();
        assert(scan_state(text, m) == (Scan::Symbol { start }));
        assert(text[m] == ' ');
        assert(is_space(' '));
        assert(start < m);
        assert(scan_state(text, m + 1) == Scan::Whitespace);
        let before = scan_spans(text, m);
        let done = Span { start, end: m };
        assert(scan_spans(text, m + 1) == before.push(done));
        assert(text.subrange(m + 1, n) =~= last);
        lemma_symbol_text_is_read_whole(text, m + 1, n);
        let spans = scan_spans(text, n);
        assert(spans == before.push(done));
        assert(text.subrange(start, m) =~= first.subrange(start, m));
        assert forall|i: int| 0 <= i < spans.len() implies 0 <= (#[trigger] spans[i]).start
            <= spans[i].end <= n && text.subrange(spans[i].start, spans[i].end) == parts[i] by {
            if i < before.len() {
                assert(spans[i] == before[i]);
                assert(before[i] == scan_spans(first, m)[i]);
                assert(text.subrange(spans[i].start, spans[i].end) =~= first.subrange(
                    spans[i].start,
                    spans[i].end,
                ));
                assert(head[i] == parts[i]);
            } else {
                assert(spans[i] == done);
                assert(head.last() == parts[i]);
            }
        }
    }
}

/// Normalizing is idempotent: the symbols of a text, written one after the
/// other with a blank between each two, normalize to the same symbols.
pub proof fn law_normalizing_again(chars: Seq<char>)
    requires
        normalized(chars) is Ok,
    ensures
        ({
            let tokens = normalized(chars)->Ok_0;
            let again = normalized(joined(texts(tokens), seq![' ']));
            again is Ok && texts(again->Ok_0) == texts(tokens)
        }),
{
    let tokens = normalized(chars)->Ok_0;
    let parts = texts(tokens);
    let text = joined(parts, seq![' ']);
    let n = text.len() as int;
    if parts.len() == 0 {
        assert(text =~= Seq::<char>::empty());
        assert(texts(normalized(text)->Ok_0) =~= parts);
    } else {
        lemma_symbols_are_symbol_texts(chars);
        assert forall|i: int| 0 <= i < parts.len() implies is_symbol_text(#[trigger] parts[i]) by {
            assert(parts[i] == tokens_at(chars, spans_of(chars))[i].text);
        }
        lemma_rescan(parts);
        let last = Span { start: n - parts.last().len(), end: n };
        let spans = scan_spans(text, n);
        assert(spans_of(text) == spans.push(last));
        let again = normalized(text)->Ok_0;
        assert(again == tokens_at(text, spans_of(text)));
        assert forall|i: int| 0 <= i < parts.len() implies texts(again)[i] == parts[i] by {
            if i < spans.len() {
                assert(spans_of(text)[i] == spans[i]);
            } else {
                assert(spans_of(text)[i] == last);
            }
        }
        assert(texts(again) =~= parts);
    }
}

/// A block comment that is still open at the end of the text is an error
/// that names the line on which the comment's opener stands and holds the
/// text from the opener to the end.
pub proof fn law_unterminated_comment(chars: Seq<char>)
    requires
        scan_state(chars, chars.len() as int) is BlockComment,
    ensures
        ({
            let open = scan_state(chars, chars.len() as int)->open;
            &&& 0 <= open
            &&& open + 2 <= chars.len()
            &&& chars[open] == '/'
            &&& chars[open + 1] == '*'
            &&& normalized(chars) == Err::<Seq<TokenView>, ErrorView>(
                ErrorView::Parse {
                    line_no: line_of(chars, open),
                    source: chars.subrange(open, chars.len() as int),
                    cause: "Unterminated multiline comment"@,
                },
            )
        }),
{
    lemma_scan_state(chars, chars.len() as int);
}

} // verus!
