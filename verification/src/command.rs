//! SCPI command and response types.
//!
//! This module defines the structures that represent a parsed SCPI command
//! ready for dispatch, together with the response value types.

use vstd::prelude::*;

use crate::binary64::{lemma_nearest_bits_fit, nearest_bits, Binary64};
use crate::number::{
    law_signed_decimal_form, law_signed_decimal_reads_back, parse_signed, push_signed_decimal,
    signed_decimal, signed_value,
};
use crate::text::{
    colon_pieces, join, joined, law_upper_case, lemma_pieces_of_joined, lemma_pieces_of_upper,
    lemma_prefix_len,
    lemma_prefix_len_props, prefix_len, same_text, slice_texts, span, split_colons, texts,
    to_ascii_uppercase, upper, upper_char, CharClass,
};

verus! {

// ---------------------------------------------------------------------------
// Floating-point text
// ---------------------------------------------------------------------------

/// `read` may make `r` of a text that reads `s`.
pub open spec fn reads<F: Fn(&str) -> Option<Binary64>>(
    read: F,
    s: Seq<char>,
    r: Option<Binary64>,
) -> bool {
    exists|t: &str| t@ == s && #[trigger] call_ensures(read, (t,), r)
}

/// `read` can be asked about every text.
pub open spec fn reads_any<F: Fn(&str) -> Option<Binary64>>(read: F) -> bool {
    forall|t: &str| #[trigger] call_requires(read, (t,))
}

/// `write` may write the number `v` as `s`.
pub open spec fn writes<G: Fn(Binary64) -> String>(write: G, v: Binary64, s: Seq<char>) -> bool {
    exists|t: String| t@ == s && #[trigger] call_ensures(write, (v,), t)
}

/// `write` can be asked about every number.
pub open spec fn writes_any<G: Fn(Binary64) -> String>(write: G) -> bool {
    forall|v: Binary64| #[trigger] call_requires(write, (v,))
}

/// Ask `read` about `s`.
pub(crate) fn read_with<F: Fn(&str) -> Option<Binary64>>(read: &F, s: &str) -> (r: Option<
    Binary64,
>)
    requires
        reads_any(*read),
    ensures
        reads(*read, s@, r),
{
    let r = read(s);
    assert(call_ensures(*read, (s,), r));
    r
}

/// Ask `write` about `v`.
pub(crate) fn write_with<G: Fn(Binary64) -> String>(write: &G, v: Binary64) -> (r: String)
    requires
        writes_any(*write),
    ensures
        writes(*write, v, r@),
{
    let r = write(v);
    assert(call_ensures(*write, (v,), r));
    r
}

// ---------------------------------------------------------------------------
// Parameters
// ---------------------------------------------------------------------------

/// A single SCPI parameter value, extracted from the parameter section of a
/// message.
#[derive(Debug, Clone, PartialEq)]
pub enum Param {
    /// Character data / mnemonic parameter (e.g. `ON`, `OFF`, `MIN`, `MAX`).
    Character(String),
    /// Numeric (integer) parameter.
    Integer(i64),
    /// Numeric (floating-point) parameter.
    Float(Binary64),
    /// String parameter (double-quoted content with quotes removed).
    Str(String),
    /// Boolean shorthand: `ON` / `1` is `true`, `OFF` / `0` is `false`.
    Bool(bool),
}

/// What a [`Param`] stands for.
pub enum ParamView {
    Character(Seq<char>),
    Integer(i64),
    Float(Binary64),
    Str(Seq<char>),
    Bool(bool),
}

impl View for Param {
    type V = ParamView;

    open spec fn view(&self) -> ParamView {
        match *self {
            Param::Character(s) => ParamView::Character(s@),
            Param::Integer(n) => ParamView::Integer(n),
            Param::Float(f) => ParamView::Float(f),
            Param::Str(s) => ParamView::Str(s@),
            Param::Bool(b) => ParamView::Bool(b),
        }
    }
}

/// What a sequence of parameters stands for.
pub open spec fn param_views(params: Seq<Param>) -> Seq<ParamView> {
    Seq::new(params.len(), |i: int| params[i]@)
}

/// The integer that a parameter can be taken for.
pub open spec fn integer_of(p: ParamView) -> Option<i64> {
    match p {
        ParamView::Integer(n) => Some(n),
        ParamView::Float(f) => Some(f.to_i64_spec()),
        ParamView::Character(s) => signed_value(s),
        _ => None,
    }
}

/// The truth value that a keyword stands for.
pub open spec fn keyword_bool(s: Seq<char>) -> Option<bool> {
    let u = upper(s);
    if u == "ON"@ || u == "1"@ {
        Some(true)
    } else if u == "OFF"@ || u == "0"@ {
        Some(false)
    } else {
        None
    }
}

/// The truth value that a parameter can be taken for.
pub open spec fn bool_of(p: ParamView) -> Option<bool> {
    match p {
        ParamView::Bool(b) => Some(b),
        ParamView::Integer(n) => Some(n != 0),
        ParamView::Character(s) => keyword_bool(s),
        _ => None,
    }
}

impl Param {
    /// Try to interpret the parameter as an integer.
    pub fn as_integer(&self) -> (r: Option<i64>)
        ensures
            r == integer_of(self@),
    {
        match self {
            Param::Integer(n) => Some(*n),
            Param::Float(f) => Some(f.to_i64()),
            Param::Character(s) => parse_signed(s.as_str()),
            _ => None,
        }
    }

    /// Try to interpret the parameter as a float, taking what `read` makes
    /// of character data.
    pub fn as_float<F: Fn(&str) -> Option<Binary64>>(&self, read: &F) -> (r: Option<Binary64>)
        requires
            reads_any(*read),
        ensures
            match self@ {
                ParamView::Float(f) => r == Some(f),
                ParamView::Integer(n) => r == Some(Binary64 { bits: nearest_bits(n as int) as u64 }),
                ParamView::Character(s) => reads(*read, s, r),
                _ => r is None,
            },
    {
        match self {
            Param::Float(f) => Some(*f),
            Param::Integer(n) => Some(Binary64::from_i64(*n)),
            Param::Character(s) => read_with(read, s.as_str()),
            _ => None,
        }
    }

    /// Try to interpret the parameter as a boolean (`ON`/`1` = true,
    /// `OFF`/`0` = false).
    pub fn as_bool(&self) -> (r: Option<bool>)
        ensures
            r == bool_of(self@),
    {
        match self {
            Param::Bool(b) => Some(*b),
            Param::Integer(n) => Some(*n != 0),
            Param::Character(s) => {
                let u = to_ascii_uppercase(s.as_str());
                if same_text(u.as_str(), "ON") || same_text(u.as_str(), "1") {
                    Some(true)
                } else if same_text(u.as_str(), "OFF") || same_text(u.as_str(), "0") {
                    Some(false)
                } else {
                    None
                }
            },
            _ => None,
        }
    }

    /// Try to interpret the parameter as a string slice.
    pub fn as_str(&self) -> (r: Option<&str>)
        ensures
            match self@ {
                ParamView::Str(s) => r matches Some(t) && t@ == s,
                ParamView::Character(s) => r matches Some(t) && t@ == s,
                _ => r is None,
            },
    {
        match self {
            Param::Str(s) => Some(s.as_str()),
            Param::Character(s) => Some(s.as_str()),
            _ => None,
        }
    }

    /// The parameter as it is written in a message.  Floating-point numbers
    /// are written by `write`.
    pub fn to_string<G: Fn(Binary64) -> String>(&self, write: &G) -> (r: String)
        requires
            writes_any(*write),
        ensures
            match self@ {
                ParamView::Character(s) => r@ == s,
                ParamView::Integer(n) => r@ == signed_decimal(n as int),
                ParamView::Float(v) => writes(*write, v, r@),
                ParamView::Str(s) => r@ == seq!['"'] + s + seq!['"'],
                ParamView::Bool(b) => r@ == (if b { seq!['1'] } else { seq!['0'] }),
            },
    {
        let mut out = String::new();
        match self {
            Param::Character(s) => {
                out.append(s.as_str());
                assert(out@ =~= s@);
            },
            Param::Integer(n) => {
                push_signed_decimal(&mut out, *n);
                assert(out@ =~= signed_decimal(*n as int));
            },
            Param::Float(v) => {
                return write_with(write, *v);
            },
            Param::Str(s) => {
                out.push('"');
                out.append(s.as_str());
                out.push('"');
                assert(out@ =~= seq!['"'] + s@ + seq!['"']);
            },
            Param::Bool(b) => {
                out.push(if *b { '1' } else { '0' });
                assert(out@ =~= (if *b { seq!['1'] } else { seq!['0'] }));
            },
        }
        out
    }
}

// ---------------------------------------------------------------------------
// Command
// ---------------------------------------------------------------------------

/// A fully-parsed SCPI command ready for dispatch.
#[derive(Debug, Clone, PartialEq)]
pub struct Command {
    /// The command header as a colon-joined path, e.g.
    /// `"MEASure:VOLTage:DC"`.
    pub header: String,
    /// Whether this is a query (`?`).
    pub is_query: bool,
    /// Optional numeric suffix (e.g. `2` for `CHANnel2`).
    pub suffix: Option<u32>,
    /// Parameters provided after the header.
    pub params: Vec<Param>,
}

/// What a [`Command`] stands for.
#[verifier::ext_equal]
pub struct CommandView {
    pub header: Seq<char>,
    pub is_query: bool,
    pub suffix: Option<u32>,
    pub params: Seq<ParamView>,
}

impl View for Command {
    type V = CommandView;

    open spec fn view(&self) -> CommandView {
        CommandView {
            header: self.header@,
            is_query: self.is_query,
            suffix: self.suffix,
            params: param_views(self.params@),
        }
    }
}

/// What a sequence of commands stands for.
pub open spec fn command_views(commands: Seq<Command>) -> Seq<CommandView> {
    Seq::new(commands.len(), |i: int| commands[i]@)
}

/// A parameter with the boolean shorthands taken: 1 and 0 are truth values.
pub open spec fn shorthand(p: ParamView) -> ParamView {
    match p {
        ParamView::Integer(n) => if n == 1 {
            ParamView::Bool(true)
        } else if n == 0 {
            ParamView::Bool(false)
        } else {
            p
        },
        _ => p,
    }
}

/// A command with the boolean shorthands taken.
pub open spec fn with_shorthands(cmd: CommandView) -> CommandView {
    CommandView {
        params: Seq::new(cmd.params.len(), |i: int| shorthand(cmd.params[i])),
        ..cmd
    }
}

/// A run of commands with the boolean shorthands taken.
pub open spec fn all_with_shorthands(cmds: Seq<CommandView>) -> Seq<CommandView> {
    Seq::new(cmds.len(), |i: int| with_shorthands(cmds[i]))
}

/// Take a boolean shorthand.
pub(crate) fn take_shorthand(p: &Param) -> (r: Param)
    ensures
        r@ == shorthand(p@),
{
    match p {
        Param::Character(s) => Param::Character(s.clone()),
        Param::Integer(n) => {
            if *n == 1 {
                Param::Bool(true)
            } else if *n == 0 {
                Param::Bool(false)
            } else {
                Param::Integer(*n)
            }
        },
        Param::Float(f) => Param::Float(*f),
        Param::Str(s) => Param::Str(s.clone()),
        Param::Bool(b) => Param::Bool(*b),
    }
}

/// Take the boolean shorthands of a command.
pub(crate) fn take_shorthands(cmd: &Command) -> (r: Command)
    ensures
        r@ == with_shorthands(cmd@),
{
    let mut params: Vec<Param> = Vec::new();
    let mut i: usize = 0;
    while i < cmd.params.len()
        invariant
            0 <= i <= cmd.params@.len(),
            params@.len() == i,
            forall|j: int| 0 <= j < i ==> (#[trigger] params@[j])@ == shorthand(cmd.params@[j]@),
        decreases cmd.params@.len() - i,
    {
        params.push(take_shorthand(&cmd.params[i]));
        i = i + 1;
    }
    let r = Command {
        header: cmd.header.clone(),
        is_query: cmd.is_query,
        suffix: cmd.suffix,
        params,
    };
    assert(r@.params =~= with_shorthands(cmd@).params);
    r
}

/// The short form of a mnemonic pattern: its uppercase prefix.
pub open spec fn short_form(pattern: Seq<char>) -> Seq<char> {
    pattern.take(prefix_len(pattern, CharClass::Upper))
}

/// `received` is, but for case, the short or the long form of `pattern`.
pub open spec fn is_mnemonic(received: Seq<char>, pattern: Seq<char>) -> bool {
    upper(received) == upper(short_form(pattern)) || upper(received) == upper(pattern)
}

/// The paths have the same number of segments, and those of `received` are
/// forms of those of `pattern`.
pub open spec fn is_header(received: Seq<char>, pattern: Seq<char>) -> bool {
    let r = colon_pieces(received);
    let p = colon_pieces(pattern);
    r.len() == p.len() && forall|i: int| 0 <= i < r.len() ==> #[trigger] is_mnemonic(r[i], p[i])
}

impl Command {
    /// Return `true` if this command's header (case-insensitively) matches
    /// `pattern`.
    ///
    /// Both the short form (the uppercase prefix) and long form (all
    /// letters) are accepted.  For example, the pattern `"MEASure"` matches
    /// both `"MEAS"` and `"MEASure"`.
    pub fn matches_header(&self, pattern: &str) -> (r: bool)
        ensures
            r == is_header(self.header@, pattern@),
    {
        header_matches(self.header.as_str(), pattern)
    }
}

/// Check whether a received header string matches a SCPI mnemonic pattern.
///
/// Rules:
/// * The mandatory part of the mnemonic is the *uppercase* prefix.
/// * The full long form is the complete string.
/// * Matching is case-insensitive.
/// * Both must have the same number of `:` delimited segments.
///
/// Example: `"MEASure:VOLTage"` matches `"MEAS:VOLT"` and
/// `"measure:voltage"`.
pub fn header_matches(received: &str, pattern: &str) -> (r: bool)
    ensures
        r == is_header(received@, pattern@),
{
    let recv_segs = split_colons(received);
    let patt_segs = split_colons(pattern);
    let ghost rs = colon_pieces(received@);
    let ghost ps = colon_pieces(pattern@);
    proof {
        assert(slice_texts(recv_segs@).len() == recv_segs@.len());
        assert(slice_texts(patt_segs@).len() == patt_segs@.len());
    }
    if recv_segs.len() != patt_segs.len() {
        return false;
    }
    let mut i: usize = 0;
    while i < recv_segs.len()
        invariant
            recv_segs@.len() == patt_segs@.len(),
            slice_texts(recv_segs@) == rs,
            slice_texts(patt_segs@) == ps,
            rs == colon_pieces(received@),
            ps == colon_pieces(pattern@),
            0 <= i <= recv_segs@.len(),
            forall|j: int| 0 <= j < i ==> #[trigger] is_mnemonic(rs[j], ps[j]),
        decreases recv_segs@.len() - i,
    {
        assert(rs[i as int] == recv_segs@[i as int]@ && ps[i as int] == patt_segs@[i as int]@);
        if !mnemonic_matches(recv_segs[i], patt_segs[i]) {
            assert(!is_mnemonic(rs[i as int], ps[i as int]));
            return false;
        }
        i = i + 1;
    }
    true
}

/// Check whether a single mnemonic token `received` matches `pattern`.
///
/// The uppercase prefix of `pattern` is the short form; the full `pattern`
/// is the long form.  Both are accepted (case-insensitively).
pub fn mnemonic_matches(received: &str, pattern: &str) -> (r: bool)
    ensures
        r == is_mnemonic(received@, pattern@),
{
    let (short, _) = span(pattern, CharClass::Upper);
    let recv_upper = to_ascii_uppercase(received);
    let short_upper = to_ascii_uppercase(short);
    let long_upper = to_ascii_uppercase(pattern);
    same_text(recv_upper.as_str(), short_upper.as_str()) || same_text(
        recv_upper.as_str(),
        long_upper.as_str(),
    )
}

/// Case makes no difference to what a received header matches.
pub proof fn law_case_is_ignored(received: Seq<char>, other: Seq<char>, pattern: Seq<char>)
    requires
        upper(received) == upper(other),
    ensures
        is_mnemonic(received, pattern) == is_mnemonic(other, pattern),
        is_header(received, pattern) == is_header(other, pattern),
{
    lemma_pieces_of_upper(received);
    lemma_pieces_of_upper(other);
    let r = colon_pieces(received);
    let o = colon_pieces(other);
    let p = colon_pieces(pattern);
    assert(r.len() == o.len());
    assert forall|i: int| 0 <= i < r.len() implies #[trigger] is_mnemonic(r[i], p[i])
        == is_mnemonic(o[i], p[i]) by {
        assert(colon_pieces(upper(received))[i] == upper(r[i]));
        assert(colon_pieces(upper(other))[i] == upper(o[i]));
    }
    if is_header(received, pattern) {
        assert forall|i: int| 0 <= i < o.len() implies #[trigger] is_mnemonic(o[i], p[i]) by {
            assert(is_mnemonic(r[i], p[i]));
        }
    }
}

/// Every pattern is matched by its long form, and every mnemonic pattern by
/// its short form too.
pub proof fn law_both_forms_match(pattern: Seq<char>)
    ensures
        is_header(pattern, pattern),
        is_mnemonic(pattern, pattern),
        is_mnemonic(short_form(pattern), pattern),
{
}

/// The short form is the longest uppercase prefix: uppercase letters up to
/// the first character that is none, whatever stands behind it.
pub proof fn law_short_form_is_prefix(prefix: Seq<char>, tail: Seq<char>)
    requires
        forall|i: int| 0 <= i < prefix.len() ==> CharClass::Upper.has(#[trigger] prefix[i]),
        tail.len() > 0 ==> !CharClass::Upper.has(tail[0]),
    ensures
        short_form(prefix + tail) == prefix,
        is_mnemonic(prefix, prefix + tail),
{
    let p = prefix + tail;
    assert forall|i: int| 0 <= i < prefix.len() implies CharClass::Upper.has(#[trigger] p[i]) by {
        assert(p[i] == prefix[i]);
    }
    lemma_prefix_len(p, CharClass::Upper, prefix.len() as int);
    assert(short_form(p) =~= prefix);
}

/// A path matches segment by segment: joined by colons, mnemonics match
/// joined patterns exactly if there are as many and each matches its own.
pub proof fn law_paths_match_by_segment(received: Seq<Seq<char>>, patterns: Seq<Seq<char>>)
    requires
        received.len() > 0,
        patterns.len() > 0,
        forall|i: int| 0 <= i < received.len() ==> !(#[trigger] received[i]).contains(':'),
        forall|i: int| 0 <= i < patterns.len() ==> !(#[trigger] patterns[i]).contains(':'),
    ensures
        is_header(joined(received, ':'), joined(patterns, ':')) == (received.len()
            == patterns.len() && forall|i: int|
            0 <= i < received.len() ==> #[trigger] is_mnemonic(received[i], patterns[i])),
{
    lemma_pieces_of_joined(received);
    lemma_pieces_of_joined(patterns);
}

/// A path of short forms matches, and so does one in which some segments
/// have their short and others their long form.
pub proof fn law_paths_of_forms_match(forms: Seq<Seq<char>>, patterns: Seq<Seq<char>>)
    requires
        patterns.len() > 0,
        forms.len() == patterns.len(),
        forall|i: int| 0 <= i < patterns.len() ==> !(#[trigger] patterns[i]).contains(':'),
        forall|i: int|
            0 <= i < patterns.len() ==> #[trigger] forms[i] == short_form(patterns[i]) || forms[i]
                == patterns[i],
    ensures
        is_header(joined(forms, ':'), joined(patterns, ':')),
{
    assert forall|i: int| 0 <= i < forms.len() implies !(#[trigger] forms[i]).contains(':') by {
        if forms[i] != patterns[i] {
            lemma_prefix_len_props(patterns[i], CharClass::Upper);
            if forms[i].contains(':') {
                let k = choose|k: int| 0 <= k < forms[i].len() && forms[i][k] == ':';
                assert(patterns[i][k] == ':');
                assert(patterns[i].contains(':'));
            }
        }
    }
    assert forall|i: int| 0 <= i < forms.len() implies #[trigger] is_mnemonic(
        forms[i],
        patterns[i],
    ) by {}
    law_paths_match_by_segment(forms, patterns);
}

// ---------------------------------------------------------------------------
// Response
// ---------------------------------------------------------------------------

/// A SCPI response value returned by a query handler.
#[derive(Debug, PartialEq)]
pub enum Response {
    /// No response (non-query commands).
    Empty,
    /// Integer response.
    Integer(i64),
    /// Floating-point response.
    Float(Binary64),
    /// String response (will be double-quoted in the output).
    Str(String),
    /// Character data / mnemonic response (not quoted).
    Character(String),
    /// Boolean response: formatted as `1` or `0`.
    Bool(bool),
    /// Compound response: multiple values separated by `,`.
    Compound(Vec<Response>),
}

/// What a [`Response`] stands for.
pub enum ResponseView {
    Empty,
    Integer(i64),
    Float(Binary64),
    Str(Seq<char>),
    Character(Seq<char>),
    Bool(bool),
    Compound(Seq<ResponseView>),
}

/// What one response stands for.
pub open spec fn response_view(response: Response) -> ResponseView
    decreases response,
{
    match response {
        Response::Empty => ResponseView::Empty,
        Response::Integer(n) => ResponseView::Integer(n),
        Response::Float(v) => ResponseView::Float(v),
        Response::Str(s) => ResponseView::Str(s@),
        Response::Character(s) => ResponseView::Character(s@),
        Response::Bool(b) => ResponseView::Bool(b),
        Response::Compound(items) => ResponseView::Compound(response_views(items@)),
    }
}

/// What a sequence of responses stands for.
pub open spec fn response_views(responses: Seq<Response>) -> Seq<ResponseView>
    decreases responses,
{
    if responses.len() == 0 {
        Seq::empty()
    } else {
        response_views(responses.drop_last()).push(response_view(responses.last()))
    }
}

impl View for Response {
    type V = ResponseView;

    open spec fn view(&self) -> ResponseView {
        response_view(*self)
    }
}

/// A sequence of responses stands for what each of them stands for.
pub proof fn lemma_response_views(responses: Seq<Response>)
    ensures
        response_views(responses).len() == responses.len(),
        forall|i: int|
            0 <= i < responses.len() ==> #[trigger] response_views(responses)[i]
                == responses[i]@,
    decreases responses.len(),
{
    if responses.len() > 0 {
        lemma_response_views(responses.drop_last());
    }
}

impl Clone for Response {
    fn clone(&self) -> (r: Self)
        ensures
            r@ == self@,
        decreases self,
    {
        match self {
            Response::Empty => Response::Empty,
            Response::Integer(n) => Response::Integer(*n),
            Response::Float(v) => Response::Float(*v),
            Response::Str(s) => Response::Str(s.clone()),
            Response::Character(s) => Response::Character(s.clone()),
            Response::Bool(b) => Response::Bool(*b),
            Response::Compound(items) => {
                let mut copies: Vec<Response> = Vec::new();
                let mut i: usize = 0;
                while i < items.len()
                    invariant
                        *self == Response::Compound(*items),
                        0 <= i <= items@.len(),
                        response_views(copies@) == response_views(items@.take(i as int)),
                    decreases items@.len() - i,
                {
                    let ghost before = copies@;
                    assert(decreases_to!(*self => self->Compound_0@));
                    assert(decreases_to!(items@ => items@[i as int]));
                    copies.push(items[i].clone());
                    proof {
                        assert(copies@.drop_last() =~= before);
                        assert(items@.take(i + 1).drop_last() =~= items@.take(i as int));
                    }
                    i = i + 1;
                }
                proof {
                    assert(items@.take(i as int) =~= items@);
                }
                Response::Compound(copies)
            },
        }
    }
}

/// `response` may be sent as `text` where `write` writes floating-point
/// numbers.
pub open spec fn renders<G: Fn(Binary64) -> String>(
    write: G,
    response: ResponseView,
    text: Seq<char>,
) -> bool
    decreases response,
{
    match response {
        ResponseView::Empty => text == Seq::<char>::empty(),
        ResponseView::Integer(n) => text == signed_decimal(n as int),
        ResponseView::Float(v) => writes(write, v, text),
        ResponseView::Str(s) => text == seq!['"'] + s + seq!['"'],
        ResponseView::Character(s) => text == upper(s),
        ResponseView::Bool(b) => text == (if b { seq!['1'] } else { seq!['0'] }),
        ResponseView::Compound(items) => exists|parts: Seq<Seq<char>>|
            renders_each(write, items, parts) && text == #[trigger] joined(parts, ','),
    }
}

/// The responses may be sent as the texts, one for one.
pub open spec fn renders_each<G: Fn(Binary64) -> String>(
    write: G,
    responses: Seq<ResponseView>,
    parts: Seq<Seq<char>>,
) -> bool
    decreases responses,
{
    if responses.len() == 0 {
        parts.len() == 0
    } else {
        parts.len() > 0 && renders(write, responses.last(), parts.last()) && renders_each(
            write,
            responses.drop_last(),
            parts.drop_last(),
        )
    }
}

impl Response {
    /// Whether this is [`Response::Empty`], which nothing is sent for.
    pub fn is_empty(&self) -> (r: bool)
        ensures
            r == (self@ is Empty),
    {
        match self {
            Response::Empty => true,
            _ => false,
        }
    }

    /// The response as it is sent.  Floating-point numbers are written by
    /// `write`.
    pub fn to_string<G: Fn(Binary64) -> String>(&self, write: &G) -> (r: String)
        requires
            writes_any(*write),
        ensures
            renders(*write, self@, r@),
        decreases self,
    {
        let mut out = String::new();
        match self {
            Response::Empty => {
                assert(out@ =~= Seq::<char>::empty());
            },
            Response::Integer(n) => {
                push_signed_decimal(&mut out, *n);
                assert(out@ =~= signed_decimal(*n as int));
            },
            Response::Float(v) => {
                return write_with(write, *v);
            },
            Response::Str(s) => {
                out.push('"');
                out.append(s.as_str());
                out.push('"');
                assert(out@ =~= seq!['"'] + s@ + seq!['"']);
            },
            Response::Character(s) => {
                return to_ascii_uppercase(s.as_str());
            },
            Response::Bool(b) => {
                out.push(if *b { '1' } else { '0' });
                assert(out@ =~= (if *b { seq!['1'] } else { seq!['0'] }));
            },
            Response::Compound(items) => {
                let mut parts: Vec<String> = Vec::new();
                let mut i: usize = 0;
                while i < items.len()
                    invariant
                        writes_any(*write),
                        *self == Response::Compound(*items),
                        0 <= i <= items@.len(),
                        renders_each(
                            *write,
                            response_views(items@.take(i as int)),
                            texts(parts@),
                        ),
                    decreases items@.len() - i,
                {
                    let ghost before = parts@;
                    assert(decreases_to!(*self => self->Compound_0@));
                    assert(decreases_to!(items@ => items@[i as int]));
                    parts.push(items[i].to_string(write));
                    proof {
                        assert(texts(parts@).drop_last() =~= texts(before));
                        assert(items@.take(i + 1).drop_last() =~= items@.take(i as int));
                        assert(response_views(items@.take(i + 1)).drop_last() =~= response_views(
                            items@.take(i as int),
                        ));
                    }
                    i = i + 1;
                }
                proof {
                    assert(items@.take(i as int) =~= items@);
                    assert(self@ == ResponseView::Compound(response_views(items@)));
                    assert(renders_each(*write, response_views(items@), texts(parts@)));
                }
                return join(&parts, ',');
            },
        }
        out
    }
}

// ---------------------------------------------------------------------------
// Laws of parameters
// ---------------------------------------------------------------------------

/// What is an integer: integers are themselves, floating-point numbers are
/// rounded towards zero, and character data is read.  Strings and truth
/// values are none.
pub proof fn law_parameters_as_integers(p: ParamView, n: i64)
    ensures
        p == ParamView::Integer(n) ==> integer_of(p) == Some(n),
        p matches ParamView::Float(f) ==> integer_of(p) == Some(f.to_i64_spec()),
        p matches ParamView::Character(s) ==> integer_of(p) == signed_value(s),
        integer_of(ParamView::Character(signed_decimal(n as int))) == Some(n),
        p is Str || p is Bool ==> integer_of(p) is None,
{
    law_signed_decimal_reads_back(n);
}

/// What is a truth value: truth values are themselves, and an integer is true
/// unless it is zero.  Of character data only `ON` and `1`, `OFF` and `0`
/// are, in whatever case; of the rest nothing is.
pub proof fn law_parameters_as_truth_values(p: ParamView)
    ensures
        p matches ParamView::Bool(b) ==> bool_of(p) == Some(b),
        p matches ParamView::Integer(n) ==> bool_of(p) == Some(n != 0),
        p is Float || p is Str ==> bool_of(p) is None,
        p matches ParamView::Character(s) ==> {
            &&& bool_of(p) == Some(true) <==> s == seq!['1'] || (s.len() == 2 && (s[0] == 'o' || s[0]
                == 'O') && (s[1] == 'n' || s[1] == 'N'))
            &&& bool_of(p) == Some(false) <==> s == seq!['0'] || (s.len() == 3 && (s[0] == 'o'
                || s[0] == 'O') && (s[1] == 'f' || s[1] == 'F') && (s[2] == 'f' || s[2] == 'F'))
        },
{
    if let ParamView::Character(s) = p {
        lemma_keywords(s);
        reveal_strlit("1");
        reveal_strlit("0");
        if s.len() == 1 {
            assert(upper(s)[0] == upper_char(s[0]));
            assert(upper(s) == "1"@ <==> s == seq!['1']) by {
                if upper(s) == "1"@ {
                    assert(s[0] == '1');
                    assert(s =~= seq!['1']);
                }
                if s == seq!['1'] {
                    assert(upper(s) =~= "1"@);
                }
            }
            assert(upper(s) == "0"@ <==> s == seq!['0']) by {
                if upper(s) == "0"@ {
                    assert(s[0] == '0');
                    assert(s =~= seq!['0']);
                }
                if s == seq!['0'] {
                    assert(upper(s) =~= "0"@);
                }
            }
        } else {
            assert(upper(s).len() != "1"@.len() && upper(s).len() != "0"@.len());
        }
    }
}

/// Which texts are `ON` and `OFF` but for case.
pub proof fn lemma_keywords(s: Seq<char>)
    ensures
        upper(s) == "ON"@ <==> s.len() == 2 && (s[0] == 'o' || s[0] == 'O') && (s[1] == 'n' || s[1]
            == 'N'),
        upper(s) == "OFF"@ <==> s.len() == 3 && (s[0] == 'o' || s[0] == 'O') && (s[1] == 'f' || s[1]
            == 'F') && (s[2] == 'f' || s[2] == 'F'),
{
    reveal_strlit("ON");
    reveal_strlit("OFF");
    law_upper_case(s);
    let u = upper(s);
    assert(u == "ON"@ <==> u.len() == 2 && u[0] == 'O' && u[1] == 'N') by {
        if u.len() == 2 && u[0] == 'O' && u[1] == 'N' {
            assert(u =~= "ON"@);
        }
    }
    assert(u == "OFF"@ <==> u.len() == 3 && u[0] == 'O' && u[1] == 'F' && u[2] == 'F') by {
        if u.len() == 3 && u[0] == 'O' && u[1] == 'F' && u[2] == 'F' {
            assert(u =~= "OFF"@);
        }
    }
}

/// What the parameters of a command can be taken for as floating-point
/// numbers, as text and in a message, whatever they are.
pub proof fn law_parameters_as_floats_and_text<
    F: Fn(&str) -> Option<Binary64>,
    G: Fn(Binary64) -> String,
>(p: &Param, read: &F, write: &G, f: Option<Binary64>, t: Option<&str>, text: String)
    requires
        call_ensures(Param::as_float::<F>, (p, read), f),
        call_ensures(Param::as_str, (p,), t),
        call_ensures(Param::to_string::<G>, (p, write), text),
    ensures
        p matches Param::Integer(n) ==> {
            &&& f matches Some(x) && x.bits == nearest_bits(*n as int)
            &&& t is None
            &&& text@ == signed_decimal(*n as int)
            &&& signed_value(text@) == Some(*n)
        },
        p matches Param::Float(x) ==> f == Some(*x) && t is None && writes(*write, *x, text@),
        p matches Param::Character(s) ==> {
            &&& reads(*read, s@, f)
            &&& t matches Some(u) && u@ == s@
            &&& text@ == s@
        },
        p matches Param::Str(s) ==> {
            &&& f is None
            &&& t matches Some(u) && u@ == s@
            &&& text@.len() == s@.len() + 2
            &&& text@[0] == '"' && text@.last() == '"'
            &&& text@.drop_first().drop_last() == s@
        },
        p matches Param::Bool(b) ==> f is None && t is None && text@ == seq![
            if *b { '1' } else { '0' },
        ],
{
    match p {
        Param::Integer(n) => {
            law_signed_decimal_reads_back(*n);
            lemma_nearest_bits_fit(*n);
        },
        Param::Str(s) => {
            assert(text@.drop_first().drop_last() =~= s@);
        },
        _ => {},
    }
}

/// The boolean shorthands touch nothing but the integers 1 and 0, which they
/// make truth values: what a parameter is as a truth value stays.
pub proof fn law_shorthands(cmd: CommandView)
    ensures
        ({
            let c = with_shorthands(cmd);
            &&& c.header == cmd.header && c.is_query == cmd.is_query && c.suffix == cmd.suffix
            &&& c.params.len() == cmd.params.len()
            &&& forall|i: int|
                0 <= i < cmd.params.len() ==> bool_of(#[trigger] c.params[i]) == bool_of(
                    cmd.params[i],
                )
            &&& forall|i: int|
                0 <= i < cmd.params.len() ==> (#[trigger] c.params[i] == cmd.params[i] <==> !(
                cmd.params[i] == ParamView::Integer(0) || cmd.params[i] == ParamView::Integer(1)))
            &&& forall|i: int|
                0 <= i < cmd.params.len() && (cmd.params[i] == ParamView::Integer(0)
                    || cmd.params[i] == ParamView::Integer(1)) ==> #[trigger] c.params[i] is Bool
        }),
{
}

// ---------------------------------------------------------------------------
// What matches, and what does not
// ---------------------------------------------------------------------------

/// A mnemonic matches a pattern only if, but for case, it is the uppercase
/// prefix or the whole pattern.
pub proof fn law_only_the_forms_match(received: Seq<char>, prefix: Seq<char>, tail: Seq<char>)
    requires
        forall|i: int| 0 <= i < prefix.len() ==> 'A' <= #[trigger] prefix[i] <= 'Z',
        tail.len() > 0 ==> !('A' <= tail[0] <= 'Z'),
    ensures
        is_mnemonic(received, prefix + tail) <==> upper(received) == upper(prefix) || upper(
            received,
        ) == upper(prefix + tail),
        is_mnemonic(received, prefix + tail) ==> received.len() == prefix.len() || received.len()
            == prefix.len() + tail.len(),
{
    assert forall|i: int| 0 <= i < prefix.len() implies CharClass::Upper.has(
        #[trigger] prefix[i],
    ) by {
        assert('A' <= prefix[i] <= 'Z');
    }
    law_short_form_is_prefix(prefix, tail);
    let p = prefix + tail;
    assert(upper(received).len() == received.len());
    assert(upper(prefix).len() == prefix.len());
    assert(upper(p).len() == p.len());
}

/// A partial long form does not match, and neither does a partial short form:
/// of the beginnings of a pattern only the uppercase prefix and the whole do.
pub proof fn law_partial_forms_do_not_match(prefix: Seq<char>, tail: Seq<char>, n: int)
    requires
        forall|i: int| 0 <= i < prefix.len() ==> 'A' <= #[trigger] prefix[i] <= 'Z',
        tail.len() > 0 ==> !('A' <= tail[0] <= 'Z'),
        0 <= n <= prefix.len() + tail.len(),
    ensures
        is_mnemonic((prefix + tail).take(n), prefix + tail) <==> n == prefix.len() || n
            == prefix.len() + tail.len(),
{
    let p = prefix + tail;
    law_only_the_forms_match(p.take(n), prefix, tail);
    if n == prefix.len() {
        assert(p.take(n) =~= prefix);
    }
    if n == p.len() {
        assert(p.take(n) =~= p);
    }
}

/// Nothing is added to a form either: a mnemonic that goes on behind the
/// whole pattern does not match.
pub proof fn law_longer_texts_do_not_match(received: Seq<char>, pattern: Seq<char>)
    requires
        received.len() > pattern.len(),
    ensures
        !is_mnemonic(received, pattern),
{
    lemma_prefix_len_props(pattern, CharClass::Upper);
    assert(upper(received).len() == received.len());
    assert(upper(pattern).len() == pattern.len());
    assert(upper(short_form(pattern)).len() == short_form(pattern).len());
}

// ---------------------------------------------------------------------------
// Laws of responses
// ---------------------------------------------------------------------------

/// An integer response is read back from the text that it is sent as, whatever
/// the integer.
pub proof fn law_integer_responses_are_read_back<G: Fn(Binary64) -> String>(
    write: G,
    n: i64,
    text: Seq<char>,
)
    requires
        renders(write, ResponseView::Integer(n), text),
    ensures
        signed_value(text) == Some(n),
        text == signed_decimal(n as int),
        text.len() > 0,
        text[0] == '-' <==> n < 0,
{
    law_signed_decimal_reads_back(n);
    law_signed_decimal_form(n as int);
}

/// How the other plain responses are sent: strings between double quotes and
/// otherwise as they are, character data in upper case, truth values as `1`
/// and `0`, floating-point numbers as they are written, and the empty
/// response as nothing.
pub proof fn law_plain_responses<G: Fn(Binary64) -> String>(
    write: G,
    response: ResponseView,
    text: Seq<char>,
)
    ensures
        response matches ResponseView::Str(s) ==> (renders(write, response, text) <==> text.len()
            == s.len() + 2 && text[0] == '"' && text.last() == '"' && text.drop_first().drop_last() == s),
        response matches ResponseView::Character(s) ==> (renders(write, response, text) <==> text
            == upper(s)),
        response matches ResponseView::Bool(b) ==> (renders(write, response, text) <==> text.len()
            == 1 && text[0] == (if b { '1' } else { '0' })),
        response matches ResponseView::Float(v) ==> (renders(write, response, text) <==> writes(
            write,
            v,
            text,
        )),
        response matches ResponseView::Integer(n) ==> (renders(write, response, text) <==> text
            == signed_decimal(n as int)),
        response is Empty ==> (renders(write, response, text) <==> text.len() == 0),
{
    match response {
        ResponseView::Str(s) => {
            let quoted = seq!['"'] + s + seq!['"'];
            if renders(write, response, text) {
                assert(text.drop_first().drop_last() =~= s);
            }
            if text.len() == s.len() + 2 && text[0] == '"' && text.last() == '"' && text.drop_first().drop_last() == s {
                assert forall|i: int| 0 <= i < text.len() implies text[i] == quoted[i] by {
                    if 0 < i < text.len() - 1 {
                        assert(text.drop_first().drop_last()[i - 1] == s[i - 1]);
                    }
                }
                assert(text =~= quoted);
            }
        },
        ResponseView::Bool(b) => {
            let one = if b { seq!['1'] } else { seq!['0'] };
            if text.len() == 1 && text[0] == (if b { '1' } else { '0' }) {
                assert(text =~= one);
            }
        },
        ResponseView::Empty => {
            if text.len() == 0 {
                assert(text =~= Seq::<char>::empty());
            }
        },
        _ => {},
    }
}

/// Texts for responses are texts for each of them.
proof fn lemma_renders_each<G: Fn(Binary64) -> String>(
    write: G,
    responses: Seq<ResponseView>,
    parts: Seq<Seq<char>>,
)
    ensures
        renders_each(write, responses, parts) <==> parts.len() == responses.len() && forall|i: int|
            0 <= i < responses.len() ==> #[trigger] renders(write, responses[i], parts[i]),
    decreases responses.len(),
{
    if responses.len() > 0 && parts.len() > 0 {
        let r = responses.drop_last();
        let p = parts.drop_last();
        lemma_renders_each(write, r, p);
        if renders_each(write, responses, parts) {
            assert forall|i: int| 0 <= i < responses.len() implies #[trigger] renders(
                write,
                responses[i],
                parts[i],
            ) by {
                if i < r.len() {
                    assert(renders(write, r[i], p[i]));
                }
            }
        }
        if parts.len() == responses.len() && forall|i: int|
            0 <= i < responses.len() ==> #[trigger] renders(write, responses[i], parts[i]) {
            assert forall|i: int| 0 <= i < r.len() implies #[trigger] renders(
                write,
                r[i],
                p[i],
            ) by {
                assert(renders(write, responses[i], parts[i]));
            }
            assert(renders(write, responses[responses.len() - 1], parts[parts.len() - 1]));
        }
    }
}

/// A compound response is sent as its items in order, each as it is sent on
/// its own, with a comma between any two.
pub proof fn law_compound_responses<G: Fn(Binary64) -> String>(
    write: G,
    items: Seq<ResponseView>,
    text: Seq<char>,
)
    ensures
        renders(write, ResponseView::Compound(items), text) <==> exists|parts: Seq<Seq<char>>|
            {
                &&& parts.len() == items.len()
                &&& forall|i: int|
                    0 <= i < items.len() ==> #[trigger] renders(write, items[i], parts[i])
                &&& text == #[trigger] joined(parts, ',')
            },
{
    assert forall|parts: Seq<Seq<char>>| #[trigger] renders_each(write, items, parts) <==> (
    parts.len() == items.len() && forall|i: int|
        0 <= i < items.len() ==> #[trigger] renders(write, items[i], parts[i])) by {
        lemma_renders_each(write, items, parts);
    }
    if renders(write, ResponseView::Compound(items), text) {
        let parts = choose|parts: Seq<Seq<char>>|
            renders_each(write, items, parts) && text == #[trigger] joined(parts, ',');
        assert(renders_each(write, items, parts));
        assert(text == joined(parts, ','));
    }
    if exists|parts: Seq<Seq<char>>|
        {
            &&& parts.len() == items.len()
            &&& forall|i: int|
                0 <= i < items.len() ==> #[trigger] renders(write, items[i], parts[i])
            &&& text == #[trigger] joined(parts, ',')
        } {
        let parts = choose|parts: Seq<Seq<char>>|
            {
                &&& parts.len() == items.len()
                &&& forall|i: int|
                    0 <= i < items.len() ==> #[trigger] renders(write, items[i], parts[i])
                &&& text == #[trigger] joined(parts, ',')
            };
        assert(renders_each(write, items, parts));
    }
}

/// Responses, parameters and commands stand for what they hold.
pub proof fn law_values_stand_for_what_they_hold(response: Response, param: Param, cmd: Command)
    ensures
        response is Empty ==> response@ is Empty,
        response matches Response::Integer(n) ==> response@ == ResponseView::Integer(n),
        response matches Response::Float(v) ==> response@ == ResponseView::Float(v),
        response matches Response::Bool(b) ==> response@ == ResponseView::Bool(b),
        response matches Response::Str(s) ==> response@ == ResponseView::Str(s@),
        response matches Response::Character(s) ==> response@ == ResponseView::Character(s@),
        response matches Response::Compound(items) ==> (response@ matches ResponseView::Compound(v)
            && v.len() == items@.len() && forall|i: int|
            0 <= i < v.len() ==> #[trigger] v[i] == items@[i]@),
        param matches Param::Integer(n) ==> param@ == ParamView::Integer(n),
        param matches Param::Float(v) ==> param@ == ParamView::Float(v),
        param matches Param::Bool(b) ==> param@ == ParamView::Bool(b),
        param matches Param::Str(s) ==> param@ == ParamView::Str(s@),
        param matches Param::Character(s) ==> param@ == ParamView::Character(s@),
        cmd@.header == cmd.header@ && cmd@.is_query == cmd.is_query && cmd@.suffix == cmd.suffix,
        cmd@.params.len() == cmd.params@.len(),
        forall|i: int|
            0 <= i < cmd.params@.len() ==> #[trigger] cmd@.params[i] == cmd.params@[i]@,
{
    if let Response::Compound(items) = response {
        lemma_response_views(items@);
    }
}

/// The functions that read and write floating-point numbers are asked about
/// the text and the number at hand, unchanged, and what they make of these is
/// taken as it is.
pub proof fn law_readers_and_writers_are_asked<
    F: Fn(&str) -> Option<Binary64>,
    G: Fn(Binary64) -> String,
>(read: F, write: G, s: Seq<char>, f: Option<Binary64>, v: Binary64, text: Seq<char>)
    ensures
        reads(read, s, f) <==> exists|t: &str| t@ == s && #[trigger] call_ensures(read, (t,), f),
        writes(write, v, text) <==> exists|t: String|
            t@ == text && #[trigger] call_ensures(write, (v,), t),
{
}

} // verus!
