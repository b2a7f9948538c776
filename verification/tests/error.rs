use assembler::decimal::decimal_text;
use assembler::error::{trace_error, Error};

#[test]
fn parse_error_message_names_line_cause_and_text() {
    let error = Error::Parse {
        line_no: 12,
        source: "D=Q".to_string(),
        cause: "Unknown instruction".to_string(),
    };
    assert_eq!(error.cause(), "Error on line 12: Unknown instruction:\nD=Q");
}

#[test]
fn too_long_message_names_the_limit_and_the_count() {
    assert_eq!(
        Error::SourceTooLong(40000).cause(),
        "The source code is too long, maximum number of lines must be less or equal to 32767, got 40000"
    );
}

#[test]
fn io_messages_print_the_chain_innermost_last() {
    let chain = vec!["cannot open".to_string(), "permission denied".to_string()];
    assert_eq!(
        Error::LoadSource(chain.clone()).cause(),
        "Failed to read the input source file: cannot open: permission denied"
    );
    assert_eq!(
        Error::WriteOutput(chain).cause(),
        "Failed to write the output file: cannot open: permission denied"
    );
}

#[test]
fn trace_of_a_single_message_is_the_message() {
    assert_eq!(trace_error(&vec!["disk full".to_string()]), "disk full");
    assert_eq!(trace_error(&vec![]), "");
}

#[test]
fn decimal_text_writes_numerals() {
    assert_eq!(decimal_text(0), "0");
    assert_eq!(decimal_text(7), "7");
    assert_eq!(decimal_text(10), "10");
    assert_eq!(decimal_text(32767), "32767");
    assert_eq!(decimal_text(usize::MAX), usize::MAX.to_string());
}
