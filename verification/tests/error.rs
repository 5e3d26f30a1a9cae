use scpify::error::{
    command_error, data_out_of_range, data_type_error, device_specific_error, execution_error,
    get_not_allowed, hardware_error, header_not_allowed, header_suffix_out_of_range,
    invalid_character, invalid_separator, missing_parameter, no_error, parameter_not_allowed,
    query_deadlocked, query_error, query_interrupted, query_unterminated,
    query_unterminated_after_indefinite_response, storage_fault, syntax_error, undefined_header,
    unexpected_number_of_parameters,
};
use scpify::{ErrorQueue, ScpiError};

#[test]
fn empty_queue_returns_no_error() {
    let mut q = ErrorQueue::new();
    assert_eq!(q.pop(), no_error());
}

#[test]
fn fifo_order() {
    let mut q = ErrorQueue::new();
    q.push(command_error());
    q.push(data_out_of_range());
    assert_eq!(q.pop().code, -100);
    assert_eq!(q.pop().code, -222);
    assert_eq!(q.pop(), no_error());
}

#[test]
fn clear_empties_queue() {
    let mut q = ErrorQueue::new();
    q.push(command_error());
    q.clear();
    assert!(q.is_empty());
    assert_eq!(q.pop(), no_error());
}

#[test]
fn display_format() {
    let err = command_error();
    assert_eq!(err.to_string(), "-100,\"Command error\"");
}

#[test]
fn display_escapes_the_description() {
    let err = ScpiError::custom(-350, "a \"b\"\n");
    assert_eq!(err.to_string(), "-350,\"a \\\"b\\\"\\n\"");
    assert_eq!(no_error().to_string(), "0,\"No error\"");
}

#[test]
fn errors_compare_by_code_and_text() {
    assert_eq!(ScpiError::custom(-100, "Command error"), command_error());
    assert_ne!(ScpiError::custom(-101, "Command error"), command_error());
    assert_ne!(ScpiError::custom(-100, "Command errors"), command_error());
}

#[test]
fn the_queue_counts_its_errors() {
    let mut q = ErrorQueue::default();
    assert_eq!(q.len(), 0);
    for i in 0..40 {
        q.push(ScpiError::custom(-i, "x"));
    }
    assert_eq!(q.len(), 40);
    assert!(!q.is_empty());
    for i in 0..40 {
        assert_eq!(q.pop().code, -i);
    }
    assert_eq!(q.len(), 0);
}

#[test]
fn standard_errors() {
    let all: [(ScpiError, i16, &str); 23] = [
        (no_error(), 0, "No error"),
        (command_error(), -100, "Command error"),
        (invalid_character(), -101, "Invalid character"),
        (syntax_error(), -102, "Syntax error"),
        (invalid_separator(), -103, "Invalid separator"),
        (data_type_error(), -104, "Data type error"),
        (get_not_allowed(), -105, "GET not allowed"),
        (parameter_not_allowed(), -108, "Parameter not allowed"),
        (missing_parameter(), -109, "Missing parameter"),
        (undefined_header(), -113, "Undefined header"),
        (header_suffix_out_of_range(), -114, "Header suffix out of range"),
        (
            unexpected_number_of_parameters(),
            -115,
            "Unexpected number of parameters",
        ),
        (header_not_allowed(), -116, "Header not allowed"),
        (execution_error(), -200, "Execution error"),
        (data_out_of_range(), -222, "Data out of range"),
        (hardware_error(), -240, "Hardware error"),
        (device_specific_error(), -300, "Device-specific error"),
        (storage_fault(), -350, "Storage fault"),
        (query_error(), -400, "Query error"),
        (query_interrupted(), -410, "Query INTERRUPTED"),
        (query_unterminated(), -420, "Query UNTERMINATED"),
        (query_deadlocked(), -430, "Query DEADLOCKED"),
        (
            query_unterminated_after_indefinite_response(),
            -440,
            "Query UNTERMINATED after indefinite response",
        ),
    ];
    for (error, code, message) in all {
        assert_eq!(error.code, code);
        assert_eq!(error.message, message);
    }
}
