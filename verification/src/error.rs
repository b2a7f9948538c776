//! The errors of the assembler and their rendering as messages.

use vstd::prelude::*;
use crate::decimal::{decimal, decimal_text};
use crate::text::{join, joined};
use crate::ROM_SIZE;

verus! {

/// Why a compilation failed.
#[derive(Debug)]
pub enum Error {
    /// The source file could not be read. Holds the messages of the failure
    /// and of its causes, the innermost last.
    LoadSource(Vec<String>),
    /// The output file could not be written. Holds the messages of the
    /// failure and of its causes, the innermost last.
    WriteOutput(Vec<String>),
    /// The source text is not a valid program.
    Parse {
        /// The 1-based line of the offending text.
        line_no: usize,
        /// The offending text.
        source: String,
        /// What is wrong with it.
        cause: String,
    },
    /// The program has more instructions than the ROM can hold; holds their
    /// number.
    SourceTooLong(usize),
}

/// The mathematical value of an [`Error`].
pub enum ErrorView {
    LoadSource(Seq<Seq<char>>),
    WriteOutput(Seq<Seq<char>>),
    Parse { line_no: nat, source: Seq<char>, cause: Seq<char> },
    SourceTooLong(nat),
}

impl View for Error {
    type V = ErrorView;

    open spec fn view(&self) -> ErrorView {
        match self {
            Error::LoadSource(chain) => ErrorView::LoadSource(chain.deep_view()),
            Error::WriteOutput(chain) => ErrorView::WriteOutput(chain.deep_view()),
            Error::Parse { line_no, source, cause } => ErrorView::Parse {
                line_no: *line_no as nat,
                source: source@,
                cause: cause@,
            },
            Error::SourceTooLong(len) => ErrorView::SourceTooLong(*len as nat),
        }
    }
}

/// The messages of a failure and of its causes as one line: the messages in
/// order, with a colon and a space between each two.
pub open spec fn traced(chain: Seq<Seq<char>>) -> Seq<char> {
    joined(chain, ": "@)
}

/// The message that describes the error `e`.
pub open spec fn message(e: ErrorView) -> Seq<char> {
    match e {
        ErrorView::LoadSource(chain) => "Failed to read the input source file: "@ + traced(chain),
        ErrorView::WriteOutput(chain) => "Failed to write the output file: "@ + traced(chain),
        ErrorView::Parse { line_no, source, cause } => "Error on line "@ + decimal(line_no)
            + ": "@ + cause + ":\n"@ + source,
        ErrorView::SourceTooLong(len) =>
            "The source code is too long, maximum number of lines must be less or equal to "@
            + decimal(ROM_SIZE as nat) + ", got "@ + decimal(len),
    }
}

/// Renders the messages of a failure and of its causes, the innermost last,
/// as one line.
pub fn trace_error(chain: &Vec<String>) -> (text: String)
    ensures
        text@ == traced(chain.deep_view()),
{
    join(chain, ": ")
}

impl Error {
    /// The message that describes this error.
    pub fn cause(&self) -> (text: String)
        ensures
            text@ == message(self@),
    {
        match self {
            Error::LoadSource(chain) => {
                let mut text = "Failed to read the input source file: ".to_owned();
                text.append(trace_error(chain).as_str());
                text
            },
            Error::WriteOutput(chain) => {
                let mut text = "Failed to write the output file: ".to_owned();
                text.append(trace_error(chain).as_str());
                text
            },
            Error::Parse { line_no, source, cause } => {
                let mut text = "Error on line ".to_owned();
                text.append(decimal_text(*line_no).as_str());
                text.append(": ");
                text.append(cause.as_str());
                text.append(":\n");
                text.append(source.as_str());
                text
            },
            Error::SourceTooLong(len) => {
                let mut text =
                    "The source code is too long, maximum number of lines must be less or equal to ".to_owned();
                text.append(decimal_text(ROM_SIZE).as_str());
                text.append(", got ");
                text.append(decimal_text(*len).as_str());
                text
            },
        }
    }
}

} // verus!
