//! SCPI error types and error queue.
//!
//! SCPI defines a standardised set of error codes.  Negative codes are
//! instrument-defined; the ranges used here follow the IEEE 488.2 / SCPI-1999
//! standard appendix.

use std::collections::VecDeque;

use vstd::prelude::*;

use crate::number::{
    law_signed_decimal_form, law_signed_decimal_reads_back, push_signed_decimal, signed_decimal,
    signed_value,
};
use crate::text::same_text;

verus! {

/// A single SCPI error: a numeric code plus a human-readable description.
#[derive(Debug, Clone, Eq)]
pub struct ScpiError {
    /// Numeric error code (negative = instrument error, 0 = no error).
    pub code: i16,
    /// Short description string as defined by the standard.
    pub message: &'static str,
}

/// What a [`ScpiError`] stands for.
pub struct ScpiErrorView {
    pub code: int,
    pub message: Seq<char>,
}

impl View for ScpiError {
    type V = ScpiErrorView;

    open spec fn view(&self) -> ScpiErrorView {
        ScpiErrorView { code: self.code as int, message: self.message@ }
    }
}

impl PartialEq for ScpiError {
    fn eq(&self, other: &Self) -> (r: bool) {
        self.code == other.code && same_text(self.message, other.message)
    }
}

impl vstd::std_specs::cmp::PartialEqSpecImpl for ScpiError {
    open spec fn obeys_eq_spec() -> bool {
        true
    }

    open spec fn eq_spec(&self, other: &Self) -> bool {
        self@ == other@
    }
}

/// What `{:?}` makes of a text: it stands in double quotes, with some
/// characters escaped.
pub uninterp spec fn debug_text(s: Seq<char>) -> Seq<char>;

/// A character that stands for itself between double quotes: printable ASCII
/// other than the quote and the backslash.
pub open spec fn is_plain(c: char) -> bool {
    ' ' <= c <= '~' && c != '"' && c != '\\'
}

/// Format `s` with the `Debug` implementation of `str`, which puts it in
/// double quotes.  Printable ASCII stands there unescaped, but for the quote
/// and the backslash.  What becomes of other characters is left to the name
/// `debug_text`.
#[verifier::external_body]
fn format_debug(s: &str) -> (r: String)
    ensures
        r@ == debug_text(s@),
        (forall|i: int| 0 <= i < s@.len() ==> is_plain(s@[i])) ==> r@ == seq!['"'] + s@ + seq!['"'],
{
    format!("{:?}", s)
}

impl ScpiError {
    /// Create a custom (non-standard) error with `code < 0`.
    pub fn custom(code: i16, message: &'static str) -> (r: Self)
        ensures
            r@ == (ScpiErrorView { code: code as int, message: message@ }),
    {
        ScpiError { code, message }
    }

    /// The error as an instrument reports it: the code, a comma, and the
    /// description in double quotes.
    pub fn to_string(&self) -> (r: String)
        ensures
            r@ == signed_decimal(self.code as int) + seq![','] + debug_text(self.message@),
            (forall|i: int| 0 <= i < self.message@.len() ==> is_plain(self.message@[i])) ==> r@
                == signed_decimal(self.code as int) + seq![',', '"'] + self.message@ + seq!['"'],
    {
        let mut out = String::new();
        push_signed_decimal(&mut out, self.code as i64);
        out.push(',');
        let quoted = format_debug(self.message);
        out.append(quoted.as_str());
        out
    }
}

// ---------------------------------------------------------------------------
// Standard SCPI errors (SCPI-1999 section 21.8.9)
// ---------------------------------------------------------------------------

/// No error.
pub fn no_error() -> (r: ScpiError)
    ensures
        r@ == (ScpiErrorView { code: 0, message: "No error"@ }),
{
    ScpiError { code: 0, message: "No error" }
}

// Command errors (-100 to -199)

/// Command error, generic.
pub fn command_error() -> (r: ScpiError)
    ensures
        r@ == (ScpiErrorView { code: -100, message: "Command error"@ }),
{
    ScpiError { code: -100, message: "Command error" }
}

/// Invalid character.
pub fn invalid_character() -> (r: ScpiError)
    ensures
        r@ == (ScpiErrorView { code: -101, message: "Invalid character"@ }),
{
    ScpiError { code: -101, message: "Invalid character" }
}

/// Syntax error.
pub fn syntax_error() -> (r: ScpiError)
    ensures
        r@ == (ScpiErrorView { code: -102, message: "Syntax error"@ }),
{
    ScpiError { code: -102, message: "Syntax error" }
}

/// Invalid separator.
pub fn invalid_separator() -> (r: ScpiError)
    ensures
        r@ == (ScpiErrorView { code: -103, message: "Invalid separator"@ }),
{
    ScpiError { code: -103, message: "Invalid separator" }
}

/// Data type error.
pub fn data_type_error() -> (r: ScpiError)
    ensures
        r@ == (ScpiErrorView { code: -104, message: "Data type error"@ }),
{
    ScpiError { code: -104, message: "Data type error" }
}

/// GET not allowed.
pub fn get_not_allowed() -> (r: ScpiError)
    ensures
        r@ == (ScpiErrorView { code: -105, message: "GET not allowed"@ }),
{
    ScpiError { code: -105, message: "GET not allowed" }
}

/// Undefined header.
pub fn undefined_header() -> (r: ScpiError)
    ensures
        r@ == (ScpiErrorView { code: -113, message: "Undefined header"@ }),
{
    ScpiError { code: -113, message: "Undefined header" }
}

/// Header suffix out of range.
pub fn header_suffix_out_of_range() -> (r: ScpiError)
    ensures
        r@ == (ScpiErrorView { code: -114, message: "Header suffix out of range"@ }),
{
    ScpiError { code: -114, message: "Header suffix out of range" }
}

/// Unexpected number of parameters.
pub fn unexpected_number_of_parameters() -> (r: ScpiError)
    ensures
        r@ == (ScpiErrorView { code: -115, message: "Unexpected number of parameters"@ }),
{
    ScpiError { code: -115, message: "Unexpected number of parameters" }
}

/// Header not allowed.
pub fn header_not_allowed() -> (r: ScpiError)
    ensures
        r@ == (ScpiErrorView { code: -116, message: "Header not allowed"@ }),
{
    ScpiError { code: -116, message: "Header not allowed" }
}

/// Missing parameter.
pub fn missing_parameter() -> (r: ScpiError)
    ensures
        r@ == (ScpiErrorView { code: -109, message: "Missing parameter"@ }),
{
    ScpiError { code: -109, message: "Missing parameter" }
}

/// Parameter not allowed.
pub fn parameter_not_allowed() -> (r: ScpiError)
    ensures
        r@ == (ScpiErrorView { code: -108, message: "Parameter not allowed"@ }),
{
    ScpiError { code: -108, message: "Parameter not allowed" }
}

// Execution errors (-200 to -299)

/// Execution error, generic.
pub fn execution_error() -> (r: ScpiError)
    ensures
        r@ == (ScpiErrorView { code: -200, message: "Execution error"@ }),
{
    ScpiError { code: -200, message: "Execution error" }
}

/// Data out of range.
pub fn data_out_of_range() -> (r: ScpiError)
    ensures
        r@ == (ScpiErrorView { code: -222, message: "Data out of range"@ }),
{
    ScpiError { code: -222, message: "Data out of range" }
}

/// Hardware error.
pub fn hardware_error() -> (r: ScpiError)
    ensures
        r@ == (ScpiErrorView { code: -240, message: "Hardware error"@ }),
{
    ScpiError { code: -240, message: "Hardware error" }
}

// Device-specific errors (-300 to -399)

/// Device-specific error, generic.
pub fn device_specific_error() -> (r: ScpiError)
    ensures
        r@ == (ScpiErrorView { code: -300, message: "Device-specific error"@ }),
{
    ScpiError { code: -300, message: "Device-specific error" }
}

/// Storage fault.
pub fn storage_fault() -> (r: ScpiError)
    ensures
        r@ == (ScpiErrorView { code: -350, message: "Storage fault"@ }),
{
    ScpiError { code: -350, message: "Storage fault" }
}

// Query errors (-400 to -499)

/// Query error, generic.
pub fn query_error() -> (r: ScpiError)
    ensures
        r@ == (ScpiErrorView { code: -400, message: "Query error"@ }),
{
    ScpiError { code: -400, message: "Query error" }
}

/// Query interrupted.
pub fn query_interrupted() -> (r: ScpiError)
    ensures
        r@ == (ScpiErrorView { code: -410, message: "Query INTERRUPTED"@ }),
{
    ScpiError { code: -410, message: "Query INTERRUPTED" }
}

/// Query unterminated.
pub fn query_unterminated() -> (r: ScpiError)
    ensures
        r@ == (ScpiErrorView { code: -420, message: "Query UNTERMINATED"@ }),
{
    ScpiError { code: -420, message: "Query UNTERMINATED" }
}

/// Query deadlocked.
pub fn query_deadlocked() -> (r: ScpiError)
    ensures
        r@ == (ScpiErrorView { code: -430, message: "Query DEADLOCKED"@ }),
{
    ScpiError { code: -430, message: "Query DEADLOCKED" }
}

/// Query unterminated after indefinite response.
pub fn query_unterminated_after_indefinite_response() -> (r: ScpiError)
    ensures
        r@ == (ScpiErrorView { code: -440, message: "Query UNTERMINATED after indefinite response"@ }),
{
    ScpiError { code: -440, message: "Query UNTERMINATED after indefinite response" }
}

// ---------------------------------------------------------------------------
// Error queue
// ---------------------------------------------------------------------------

/// FIFO error queue as specified by SCPI (maximum depth 15+).
///
/// Errors are pushed onto the back and pulled from the front with
/// [`ErrorQueue::pop`].  When the queue is empty [`no_error`] is returned.
#[derive(Debug)]
pub struct ErrorQueue {
    errors: VecDeque<ScpiError>,
}

impl View for ErrorQueue {
    /// The errors that wait, the oldest first.
    type V = Seq<ScpiErrorView>;

    closed spec fn view(&self) -> Seq<ScpiErrorView> {
        Seq::new(self.errors@.len(), |i: int| self.errors@[i]@)
    }
}

/// What [`no_error`] stands for.
pub open spec fn no_error_view() -> ScpiErrorView {
    ScpiErrorView { code: 0, message: "No error"@ }
}

/// The error that comes out of a queue next.
pub open spec fn next_out(queue: Seq<ScpiErrorView>) -> ScpiErrorView {
    if queue.len() > 0 {
        queue[0]
    } else {
        no_error_view()
    }
}

/// What is left of a queue once an error has been taken out.
pub open spec fn left_over(queue: Seq<ScpiErrorView>) -> Seq<ScpiErrorView> {
    if queue.len() > 0 {
        queue.drop_first()
    } else {
        queue
    }
}

/// What is left of a queue once `n` errors have been asked for.
pub open spec fn left_over_after(queue: Seq<ScpiErrorView>, n: nat) -> Seq<ScpiErrorView>
    decreases n,
{
    if n == 0 {
        queue
    } else {
        left_over_after(left_over(queue), (n - 1) as nat)
    }
}

impl ErrorQueue {
    /// Create an empty error queue.
    pub fn new() -> (r: Self)
        ensures
            r@ == Seq::<ScpiErrorView>::empty(),
    {
        ErrorQueue { errors: VecDeque::new() }
    }

    /// Push an error into the queue.
    pub fn push(&mut self, error: ScpiError)
        ensures
            final(self)@ == old(self)@.push(error@),
    {
        self.errors.push_back(error);
    }

    /// Remove and return the oldest error, or [`no_error`] if empty.
    pub fn pop(&mut self) -> (r: ScpiError)
        ensures
            r@ == next_out(old(self)@),
            final(self)@ == left_over(old(self)@),
    {
        match self.errors.pop_front() {
            Some(error) => error,
            None => no_error(),
        }
    }

    /// Return the number of errors currently queued.
    pub fn len(&self) -> (r: usize)
        ensures
            r == self@.len(),
    {
        self.errors.len()
    }

    /// Return `true` if no errors are queued.
    pub fn is_empty(&self) -> (r: bool)
        ensures
            r == (self@.len() == 0),
    {
        self.errors.len() == 0
    }

    /// Discard all queued errors.
    pub fn clear(&mut self)
        ensures
            final(self)@ == Seq::<ScpiErrorView>::empty(),
    {
        self.errors.clear();
    }
}

impl Default for ErrorQueue {
    fn default() -> (r: Self)
        ensures
            r@ == Seq::<ScpiErrorView>::empty(),
    {
        ErrorQueue::new()
    }
}

/// First in, first out: the errors of a queue come out in the order in which
/// they stand in it, and once all are out, only "No error" does.
pub proof fn law_fifo(queue: Seq<ScpiErrorView>, n: nat)
    ensures
        next_out(left_over_after(queue, n)) == (if n < queue.len() {
            queue[n as int]
        } else {
            no_error_view()
        }),
        left_over_after(queue, n) == (if n < queue.len() {
            queue.skip(n as int)
        } else {
            Seq::empty()
        }),
    decreases n,
{
    if n > 0 {
        law_fifo(left_over(queue), (n - 1) as nat);
    }
}

/// An error that is pushed waits until every error before it has come out,
/// and changes nothing for those.
pub proof fn law_push_goes_last(queue: Seq<ScpiErrorView>, error: ScpiErrorView, n: nat)
    requires
        n <= queue.len(),
    ensures
        next_out(left_over_after(queue.push(error), n)) == (if n < queue.len() {
            next_out(left_over_after(queue, n))
        } else {
            error
        }),
{
    law_fifo(queue, n);
    law_fifo(queue.push(error), n);
}

/// An empty queue gives "No error", with code zero, and stays empty.
pub proof fn law_empty_queue()
    ensures
        next_out(Seq::empty()) == (ScpiErrorView { code: 0, message: "No error"@ }),
        left_over(Seq::empty()) == Seq::<ScpiErrorView>::empty(),
{
}

/// An error is reported with the code that it has, a comma, and its
/// description in quotes: what stands before the comma reads as the code, and
/// a plain description stands between the quotes as it is.
pub proof fn law_errors_are_reported(
    e: &ScpiError,
    text: String,
    code: i16,
    message: &'static str,
    made: ScpiError,
)
    requires
        call_ensures(ScpiError::to_string, (e,), text),
        call_ensures(ScpiError::custom, (code, message), made),
    ensures
        ({
            let n = signed_decimal(e.code as int).len() as int;
            &&& n < text@.len()
            &&& text@[n] == ','
            &&& signed_value(text@.take(n)) == Some(e.code as i64)
            &&& !text@.take(n).contains(',')
            &&& text@.skip(n + 1) == debug_text(e.message@)
            &&& (forall|i: int| 0 <= i < e.message@.len() ==> is_plain(#[trigger] e.message@[i]))
                ==> text@.skip(n + 1) == seq!['"'] + e.message@ + seq!['"']
        }),
        made.code == code,
        made.message@ == message@,
{
    let d = signed_decimal(e.code as int);
    let n = d.len() as int;
    law_signed_decimal_reads_back(e.code as i64);
    law_signed_decimal_form(e.code as int);
    assert(text@.take(n) =~= d);
    assert(text@.skip(n + 1) =~= debug_text(e.message@));
    assert forall|i: int| 0 <= i < n implies d[i] != ',' by {
        if i > 0 {
            assert('0' <= d[i]);
        }
    }
    if forall|i: int| 0 <= i < e.message@.len() ==> is_plain(#[trigger] e.message@[i]) {
        assert(text@ == d + seq![',', '"'] + e.message@ + seq!['"']);
        assert(text@.skip(n + 1) =~= seq!['"'] + e.message@ + seq!['"']);
    }
}

/// Errors are equal exactly if both their codes and their descriptions are.
pub proof fn law_equality_of_errors(a: &ScpiError, b: &ScpiError)
    ensures
        vstd::std_specs::cmp::PartialEqSpec::eq_spec(a, b) <==> a.code == b.code && a.message@
            == b.message@,
{
}

} // verus!
