//! SCPI message tokenizer.
//!
//! A raw SCPI message such as `":MEASure:VOLTage:DC? 10;*IDN?"` is broken
//! into a sequence of [`Token`]s that the parser then uses to build a command
//! dispatch list.
//!
//! [`lex`] says what the next token of a message is and what is left after
//! it; [`tokens`] lists all of them.

use vstd::prelude::*;

use crate::number::{digits_up_to, digits_value, parse_digits};
use crate::text::{
    lemma_prefix_len_props, prefix_len, span, split_after, split_before, split_first, trim_end,
    trimmed_end, CharClass,
};

verus! {

/// A single token produced by the SCPI lexer.
#[derive(Debug, Clone, PartialEq, Eq)]
pub enum Token<'a> {
    /// A header mnemonic segment, e.g. `"MEASure"`, `"VOLTage"`, `"*IDN"`.
    Mnemonic(&'a str),
    /// The `?` suffix that marks a query.
    Query,
    /// A numeric suffix immediately after a mnemonic with no intervening
    /// whitespace, e.g. the `2` in `"CHANnel2"`.
    NumericSuffix(u32),
    /// A string parameter (content between double-quotes, without quotes).
    StringParam(&'a str),
    /// An unquoted character-data / numeric parameter token.
    CharParam(&'a str),
    /// `;` separates compound messages.
    MessageTerminator,
    /// `,` separates parameters.
    ParameterSeparator,
}

/// What a [`Token`] stands for.
pub enum TokenView {
    Mnemonic(Seq<char>),
    Query,
    NumericSuffix(u32),
    StringParam(Seq<char>),
    CharParam(Seq<char>),
    MessageTerminator,
    ParameterSeparator,
}

impl<'a> View for Token<'a> {
    type V = TokenView;

    open spec fn view(&self) -> TokenView {
        match *self {
            Token::Mnemonic(s) => TokenView::Mnemonic(s@),
            Token::Query => TokenView::Query,
            Token::NumericSuffix(n) => TokenView::NumericSuffix(n),
            Token::StringParam(s) => TokenView::StringParam(s@),
            Token::CharParam(s) => TokenView::CharParam(s@),
            Token::MessageTerminator => TokenView::MessageTerminator,
            Token::ParameterSeparator => TokenView::ParameterSeparator,
        }
    }
}

// ---------------------------------------------------------------------------
// The lexical grammar
// ---------------------------------------------------------------------------

/// Where the lexer stands in a message.
pub struct LexState {
    /// The text not yet consumed.
    pub rest: Seq<char>,
    /// Parameter territory has been entered.
    pub in_params: bool,
    /// The last separator was a colon, or no token has been read since the
    /// sub-message began.
    pub last_was_colon: bool,
}

/// The state at the beginning of a message.
pub open spec fn lex_start(message: Seq<char>) -> LexState {
    LexState { rest: message, in_params: false, last_was_colon: true }
}

/// `s` without its leading white space.
pub open spec fn after_space(s: Seq<char>) -> Seq<char> {
    s.skip(prefix_len(s, CharClass::Space))
}

/// The state once leading white space has been skipped.  White space that
/// does not follow a colon leads into parameter territory.
pub open spec fn settled(st: LexState) -> LexState {
    let skipped = prefix_len(st.rest, CharClass::Space) > 0;
    LexState {
        rest: after_space(st.rest),
        in_params: st.in_params || (skipped && !st.last_was_colon),
        last_was_colon: st.last_was_colon,
    }
}

/// The number of characters in the mnemonic that `s` starts with: a star and
/// the word after it, or a word without its trailing digits.
pub open spec fn mnemonic_len(s: Seq<char>) -> int {
    if s.len() > 0 && s[0] == '*' {
        1 + prefix_len(s.drop_first(), CharClass::Word)
    } else {
        trimmed_end(s.take(prefix_len(s, CharClass::Word)), CharClass::Digit).len() as int
    }
}

/// Whether `after`, the text behind a mnemonic, starts parameter territory:
/// it does unless it continues the header (`:`, `?`, `;`, the end, or a digit
/// that follows immediately).
pub open spec fn param_follows(after: Seq<char>) -> bool {
    let t = after_space(after);
    let skipped = prefix_len(after, CharClass::Space) > 0;
    !(t.len() == 0 || t[0] == ':' || t[0] == '?' || t[0] == ';' || (CharClass::Digit.has(t[0])
        && !skipped))
}

/// What stands between the quote before `s` and the next quote, or the end.
pub open spec fn quoted_text(s: Seq<char>) -> Seq<char> {
    s.take(prefix_len(s, CharClass::Unquoted))
}

/// What is left of `s` behind the next quote.
pub open spec fn after_quoted(s: Seq<char>) -> Seq<char> {
    let n = prefix_len(s, CharClass::Unquoted);
    if n < s.len() {
        s.skip(n + 1)
    } else {
        Seq::empty()
    }
}

/// The unquoted parameter that `s` starts with.
pub open spec fn param_text(s: Seq<char>) -> Seq<char> {
    trimmed_end(s.take(prefix_len(s, CharClass::Unseparated)), CharClass::WhiteSpace)
}

/// What is left of `s` behind the unquoted parameter that it starts with.
pub open spec fn after_param(s: Seq<char>) -> Seq<char> {
    s.skip(prefix_len(s, CharClass::Unseparated))
}

/// The value of a numeric suffix; one that does not fit counts as zero.
pub open spec fn suffix_value(digits: Seq<char>) -> u32 {
    match digits_up_to(digits, u32::MAX as int) {
        Some(v) => v as u32,
        None => 0,
    }
}

/// Signs and the decimal point, which only a parameter can start with.
pub open spec fn is_number_mark(c: char) -> bool {
    c == '+' || c == '-' || c == '.'
}

/// The characters that a mnemonic can start with.
pub open spec fn starts_mnemonic(c: char) -> bool {
    CharClass::Letter.has(c) || c == '*'
}

/// The next token of a message and the state behind it.
pub open spec fn lex(st: LexState) -> Option<(TokenView, LexState)>
    decreases st.rest.len(), 1int,
{
    proof {
        lemma_prefix_len_props(st.rest, CharClass::Space);
    }
    lex_settled(settled(st))
}

/// The next token where no white space precedes it.
pub open spec fn lex_settled(st: LexState) -> Option<(TokenView, LexState)>
    decreases st.rest.len(), 0int,
{
    if st.rest.len() == 0 {
        None
    } else {
        let c = st.rest[0];
        let tail = st.rest.drop_first();
        if c == ';' {
            Some((TokenView::MessageTerminator, lex_start(tail)))
        } else if c == ',' {
            Some((TokenView::ParameterSeparator, LexState { rest: tail, ..st }))
        } else if c == '?' {
            Some(
                (
                    TokenView::Query,
                    LexState { rest: tail, in_params: true, last_was_colon: false },
                ),
            )
        } else if c == ':' {
            lex(LexState { rest: tail, last_was_colon: true, ..st })
        } else if c == '"' {
            Some(
                (
                    TokenView::StringParam(quoted_text(tail)),
                    LexState { rest: after_quoted(tail), last_was_colon: false, ..st },
                ),
            )
        } else if !(starts_mnemonic(c) || CharClass::Digit.has(c) || is_number_mark(c)) {
            lex(LexState { rest: tail, ..st })
        } else if st.in_params {
            Some(
                (
                    TokenView::CharParam(param_text(st.rest)),
                    LexState { rest: after_param(st.rest), last_was_colon: false, ..st },
                ),
            )
        } else if starts_mnemonic(c) {
            let n = mnemonic_len(st.rest);
            Some(
                (
                    TokenView::Mnemonic(st.rest.take(n)),
                    LexState {
                        rest: st.rest.skip(n),
                        in_params: param_follows(st.rest.skip(n)),
                        last_was_colon: false,
                    },
                ),
            )
        } else if CharClass::Digit.has(c) {
            let n = prefix_len(st.rest, CharClass::Digit);
            Some(
                (
                    TokenView::NumericSuffix(suffix_value(st.rest.take(n))),
                    LexState { rest: st.rest.skip(n), last_was_colon: false, ..st },
                ),
            )
        } else {
            lex(LexState { rest: tail, last_was_colon: false, ..st })
        }
    }
}

/// A trimmed text is a prefix of what it was trimmed from.
pub proof fn lemma_trimmed_end_prefix(s: Seq<char>, class: CharClass)
    ensures
        trimmed_end(s, class).len() <= s.len(),
        trimmed_end(s, class) == s.take(trimmed_end(s, class).len() as int),
        s.len() > 0 && !class.has(s[0]) ==> trimmed_end(s, class).len() > 0,
    decreases s.len(),
{
    if s.len() > 0 && class.has(s.last()) {
        lemma_trimmed_end_prefix(s.drop_last(), class);
        let t = trimmed_end(s.drop_last(), class);
        assert(s.drop_last().take(t.len() as int) =~= s.take(t.len() as int));
    } else {
        assert(s.take(s.len() as int) =~= s);
    }
}

/// A mnemonic has at least one character and lies within the text.
pub proof fn lemma_mnemonic_len(s: Seq<char>)
    requires
        s.len() > 0,
        starts_mnemonic(s[0]),
    ensures
        1 <= mnemonic_len(s) <= s.len(),
{
    if s[0] == '*' {
        lemma_prefix_len_props(s.drop_first(), CharClass::Word);
    } else {
        lemma_prefix_len_props(s, CharClass::Word);
        lemma_trimmed_end_prefix(s.take(prefix_len(s, CharClass::Word)), CharClass::Digit);
    }
}

/// `tail` is what is left of `s` once something has been taken off its
/// front.
pub open spec fn is_tail(tail: Seq<char>, s: Seq<char>) -> bool {
    tail.len() < s.len() && tail == s.skip(s.len() - tail.len())
}

/// Every token consumes some of the text, from its front.
pub proof fn lemma_lex_consumes(st: LexState)
    ensures
        lex(st) matches Some((_, next)) ==> is_tail(next.rest, st.rest),
    decreases st.rest.len(), 1int,
{
    lemma_prefix_len_props(st.rest, CharClass::Space);
    lemma_lex_settled_consumes(settled(st));
    if let Some((_, next)) = lex(st) {
        assert(next.rest =~= st.rest.skip(st.rest.len() - next.rest.len()));
    }
}

proof fn lemma_lex_settled_consumes(st: LexState)
    ensures
        lex_settled(st) matches Some((_, next)) ==> is_tail(next.rest, st.rest),
    decreases st.rest.len(), 0int,
{
    if st.rest.len() > 0 {
        let c = st.rest[0];
        let tail = st.rest.drop_first();
        lemma_prefix_len_props(tail, CharClass::Unquoted);
        lemma_prefix_len_props(st.rest, CharClass::Unseparated);
        lemma_prefix_len_props(st.rest, CharClass::Digit);
        if starts_mnemonic(c) {
            lemma_mnemonic_len(st.rest);
        }
        lemma_lex_consumes(LexState { rest: tail, last_was_colon: true, ..st });
        lemma_lex_consumes(LexState { rest: tail, last_was_colon: false, ..st });
        lemma_lex_consumes(LexState { rest: tail, ..st });
        if let Some((_, next)) = lex_settled(st) {
            assert(next.rest =~= st.rest.skip(st.rest.len() - next.rest.len()));
        }
    }
}

/// All tokens from a state on.
pub open spec fn tokens(st: LexState) -> Seq<TokenView>
    decreases st.rest.len(),
{
    proof {
        lemma_lex_consumes(st);
    }
    match lex(st) {
        Some((token, next)) => seq![token] + tokens(next),
        None => Seq::empty(),
    }
}

/// All tokens of a message.
pub open spec fn message_tokens(message: Seq<char>) -> Seq<TokenView> {
    tokens(lex_start(message))
}

// ---------------------------------------------------------------------------
// Tokenizer
// ---------------------------------------------------------------------------

/// Produces the [`Token`]s of a SCPI message, one call of
/// [`Tokenizer::next`] at a time.
pub struct Tokenizer<'a> {
    /// The text not yet consumed.
    rest: &'a str,
    /// `true` once we have crossed into parameter territory (after `?` or
    /// after whitespace that follows the last header mnemonic).
    in_params: bool,
    /// `true` when the most-recently consumed non-whitespace separator was
    /// `:`.  Used to distinguish the header/parameter boundary.
    last_was_colon: bool,
}

/// Tokenize a raw SCPI message string.
pub fn tokenize(input: &str) -> (r: Tokenizer<'_>)
    ensures
        r@ == lex_start(input@),
{
    Tokenizer::new(input)
}

impl<'a> View for Tokenizer<'a> {
    type V = LexState;

    closed spec fn view(&self) -> LexState {
        LexState {
            rest: self.rest@,
            in_params: self.in_params,
            last_was_colon: self.last_was_colon,
        }
    }
}

impl<'a> Tokenizer<'a> {
    /// Start at the beginning of `src`.
    pub fn new(src: &'a str) -> (r: Self)
        ensures
            r@ == lex_start(src@),
    {
        Tokenizer { rest: src, in_params: false, last_was_colon: true }
    }

    /// Skip ASCII whitespace.  Returns `true` if any whitespace was consumed.
    fn skip_whitespace(&mut self) -> (r: bool)
        ensures
            r == (prefix_len(old(self)@.rest, CharClass::Space) > 0),
            final(self)@ == (LexState { rest: after_space(old(self)@.rest), ..old(self)@ }),
    {
        proof {
            lemma_prefix_len_props(self.rest@, CharClass::Space);
        }
        let (space, tail) = span(self.rest, CharClass::Space);
        self.rest = tail;
        !space.is_empty()
    }

    /// Read a mnemonic token.
    ///
    /// Accepts an optional leading `*` (for IEEE 488 common commands such as
    /// `*IDN`).  For non-star mnemonics, trailing digits are **not** consumed
    /// here, so that they become a [`Token::NumericSuffix`] of their own.
    fn read_mnemonic(&mut self) -> (r: &'a str)
        requires
            old(self)@.rest.len() > 0,
            starts_mnemonic(old(self)@.rest[0]),
        ensures
            r@ == old(self)@.rest.take(mnemonic_len(old(self)@.rest)),
            final(self)@ == (LexState {
                rest: old(self)@.rest.skip(mnemonic_len(old(self)@.rest)),
                ..old(self)@
            }),
    {
        let start: &'a str = self.rest;
        proof {
            lemma_mnemonic_len(start@);
        }
        if let Some((c, tail)) = split_first(start) {
            if c == '*' {
                proof {
                    lemma_prefix_len_props(tail@, CharClass::Word);
                }
                let (_, after) = span(tail, CharClass::Word);
                proof {
                    assert(after@ =~= start@.skip(mnemonic_len(start@)));
                }
                let (name, after) = split_before(start, after);
                self.rest = after;
                return name;
            }
        }
        let (word, _) = span(start, CharClass::Word);
        proof {
            lemma_prefix_len_props(start@, CharClass::Word);
            lemma_trimmed_end_prefix(word@, CharClass::Digit);
        }
        // Trailing digits stay behind for a token of their own.
        let name = trim_end(word, CharClass::Digit);
        proof {
            assert(word@.take(name@.len() as int) =~= start@.take(name@.len() as int));
        }
        let (name, after) = split_after(start, name);
        self.rest = after;
        name
    }

    /// Read a double-quoted string, returning its content (without quotes).
    /// The opening quote must already have been consumed.
    fn read_string(&mut self) -> (r: &'a str)
        ensures
            r@ == quoted_text(old(self)@.rest),
            final(self)@ == (LexState { rest: after_quoted(old(self)@.rest), ..old(self)@ }),
    {
        proof {
            lemma_prefix_len_props(self.rest@, CharClass::Unquoted);
        }
        let (content, tail) = span(self.rest, CharClass::Unquoted);
        match split_first(tail) {
            Some((_, after)) => {
                proof {
                    assert(after@ =~= after_quoted(self.rest@));
                }
                self.rest = after;
            },
            None => {
                proof {
                    assert(tail@ =~= after_quoted(self.rest@));
                }
                self.rest = tail;
            },
        }
        content
    }

    /// Read an unquoted parameter token, terminated by `,`, `;`, or
    /// end-of-input.
    fn read_char_param(&mut self) -> (r: &'a str)
        ensures
            r@ == param_text(old(self)@.rest),
            final(self)@ == (LexState { rest: after_param(old(self)@.rest), ..old(self)@ }),
    {
        let (raw, tail) = span(self.rest, CharClass::Unseparated);
        self.rest = tail;
        trim_end(raw, CharClass::WhiteSpace)
    }

    /// Peek ahead (without consuming anything) to decide whether we have
    /// crossed the header → parameter boundary.
    ///
    /// Rules:
    /// * If the next non-whitespace character is `:`, `?`, `;`, or
    ///   end-of-input → still in header territory.
    /// * If a digit follows **immediately** (no whitespace) → it is a
    ///   numeric suffix, still in header territory.
    /// * Anything else (including a digit after whitespace) → parameter
    ///   territory.
    fn detect_param_boundary(&mut self)
        ensures
            final(self)@ == (LexState {
                in_params: old(self)@.in_params || param_follows(old(self)@.rest),
                ..old(self)@
            }),
    {
        proof {
            lemma_prefix_len_props(self.rest@, CharClass::Space);
        }
        let (space, tail) = span(self.rest, CharClass::Space);
        if let Some((c, _)) = split_first(tail) {
            let suffix: bool = CharClass::Digit.contains(c) && space.is_empty();
            if !(c == ':' || c == '?' || c == ';' || suffix) {
                self.in_params = true;
            }
        }
    }

    /// Read a numeric suffix.
    fn read_suffix(&mut self) -> (r: u32)
        ensures
            r == suffix_value(
                old(self)@.rest.take(prefix_len(old(self)@.rest, CharClass::Digit)),
            ),
            final(self)@ == (LexState {
                rest: old(self)@.rest.skip(prefix_len(old(self)@.rest, CharClass::Digit)),
                ..old(self)@
            }),
    {
        let (digits, tail) = span(self.rest, CharClass::Digit);
        self.rest = tail;
        match parse_digits(digits, u32::MAX as u64) {
            Some(n) => n as u32,
            None => 0,
        }
    }

    /// Produce the next token, or `None` at the end of the message.
    pub fn next(&mut self) -> (r: Option<Token<'a>>)
        ensures
            r matches Some(token) ==> lex(old(self)@) == Some((token@, final(self)@)),
            r is None ==> lex(old(self)@) is None && final(self)@.rest.len() == 0,
    {
        loop
            invariant
                lex(self@) == lex(old(self)@),
            decreases self@.rest.len(),
        {
            proof {
                lemma_prefix_len_props(self@.rest, CharClass::Space);
            }
            let ghost before = self@;
            let ws_skipped: bool = self.skip_whitespace();
            // Whitespace after a non-colon token leads into parameter
            // territory.
            if ws_skipped && !self.last_was_colon {
                self.in_params = true;
            }
            assert(self@ == settled(before));

            let (c, tail) = match split_first(self.rest) {
                Some(first) => first,
                None => {
                    return None;
                },
            };

            if c == ';' {
                self.rest = tail;
                self.in_params = false;
                self.last_was_colon = true;
                return Some(Token::MessageTerminator);
            } else if c == ',' {
                self.rest = tail;
                return Some(Token::ParameterSeparator);
            } else if c == '?' {
                self.rest = tail;
                self.in_params = true;
                self.last_was_colon = false;
                return Some(Token::Query);
            } else if c == ':' {
                self.rest = tail;
                self.last_was_colon = true;
            } else if c == '"' {
                self.rest = tail;
                self.last_was_colon = false;
                return Some(Token::StringParam(self.read_string()));
            } else if CharClass::Letter.contains(c) || c == '*' {
                self.last_was_colon = false;
                if self.in_params {
                    return Some(Token::CharParam(self.read_char_param()));
                }
                let name = self.read_mnemonic();
                self.detect_param_boundary();
                return Some(Token::Mnemonic(name));
            } else if CharClass::Digit.contains(c) {
                self.last_was_colon = false;
                if self.in_params {
                    return Some(Token::CharParam(self.read_char_param()));
                }
                return Some(Token::NumericSuffix(self.read_suffix()));
            } else if c == '+' || c == '-' || c == '.' {
                self.last_was_colon = false;
                if self.in_params {
                    return Some(Token::CharParam(self.read_char_param()));
                }
                // In header context these are unexpected; skip and continue.
                self.rest = tail;
            } else {
                self.rest = tail;
            }
        }
    }

    /// Produce all remaining tokens.
    pub fn collect(self) -> (r: Vec<Token<'a>>)
        ensures
            token_views(r@) == tokens(self@),
    {
        let mut lexer = self;
        let mut out: Vec<Token<'a>> = Vec::new();
        proof {
            assert(token_views(out@) + tokens(lexer@) =~= tokens(self@));
        }
        loop
            invariant
                token_views(out@) + tokens(lexer@) == tokens(self@),
            decreases lexer@.rest.len(),
        {
            let ghost st = lexer@;
            let ghost before = out@;
            proof {
                lemma_lex_consumes(st);
            }
            match lexer.next() {
                Some(token) => {
                    out.push(token);
                    proof {
                        assert(token_views(out@) =~= token_views(before).push(token@));
                        assert(token_views(out@) + tokens(lexer@) =~= token_views(before)
                            + tokens(st));
                    }
                },
                None => {
                    proof {
                        assert(token_views(out@) + tokens(st) =~= token_views(out@));
                    }
                    return out;
                },
            }
        }
    }
}

/// What a run of tokens stands for.
pub open spec fn token_views(ts: Seq<Token<'_>>) -> Seq<TokenView> {
    Seq::new(ts.len(), |i: int| ts[i]@)
}

// ---------------------------------------------------------------------------
// Compound messages
// ---------------------------------------------------------------------------

/// Two messages with a semicolon between them.
pub open spec fn compound(a: Seq<char>, b: Seq<char>) -> Seq<char> {
    a.push(';') + b
}

/// A semicolon behind the message ends it.  It does not where the message
/// leaves a string open: there it is one more character of the string.
pub open spec fn can_be_ended(message: Seq<char>) -> bool {
    message_tokens(message.push(';')) == message_tokens(message).push(
        TokenView::MessageTerminator,
    )
}

/// The state where a semicolon and another message follow the text.
spec fn followed(st: LexState, b: Seq<char>) -> LexState {
    LexState { rest: compound(st.rest, b), ..st }
}

/// A prefix in a class without the semicolon does not grow.
proof fn lemma_prefix_before_semicolon(a: Seq<char>, b: Seq<char>, class: CharClass)
    requires
        !class.has(';'),
    ensures
        prefix_len(compound(a, b), class) == prefix_len(a, class),
        0 <= prefix_len(a, class) <= a.len(),
        compound(a, b).take(prefix_len(a, class)) == a.take(prefix_len(a, class)),
        compound(a, b).skip(prefix_len(a, class)) == compound(a.skip(prefix_len(a, class)), b),
{
    let n = prefix_len(a, class);
    let c = compound(a, b);
    lemma_prefix_len_props(a, class);
    assert forall|i: int| 0 <= i < n implies class.has(#[trigger] c[i]) by {
        assert(c[i] == a[i]);
    }
    crate::text::lemma_prefix_len(c, class, n);
    assert(c.take(n) =~= a.take(n));
    assert(c.skip(n) =~= compound(a.skip(n), b));
}

/// Up to the semicolon, the tokens are those of the first message, unless
/// that leaves a string open.
proof fn lemma_lex_before_semicolon(st: LexState, b: Seq<char>)
    ensures
        match lex(st) {
            None => lex(followed(st, b)) == Some((TokenView::MessageTerminator, lex_start(b))),
            Some((token, next)) => {
                ||| lex(followed(st, b)) == Some((token, followed(next, b)))
                ||| st.rest.contains('"') && next.rest.len() == 0 && (lex(
                    followed(st, Seq::empty()),
                ) matches Some((_, end)) && end.rest.len() == 0)
            },
        },
    decreases st.rest.len(), 1int,
{
    lemma_prefix_before_semicolon(st.rest, b, CharClass::Space);
    lemma_prefix_before_semicolon(st.rest, Seq::empty(), CharClass::Space);
    assert(settled(followed(st, b)) == followed(settled(st), b));
    assert(settled(followed(st, Seq::empty())) == followed(settled(st), Seq::empty()));
    lemma_lex_settled_before_semicolon(settled(st), b);
    lemma_contains_tail(settled(st).rest, st.rest);
}

/// What occurs in a tail occurs in the whole.
proof fn lemma_contains_tail(tail: Seq<char>, s: Seq<char>)
    requires
        tail.len() <= s.len(),
        tail == s.skip(s.len() - tail.len()),
    ensures
        tail.contains('"') ==> s.contains('"'),
{
    if tail.contains('"') {
        let i = choose|i: int| 0 <= i < tail.len() && tail[i] == '"';
        assert(s[s.len() - tail.len() + i] == '"');
    }
}

proof fn lemma_lex_settled_before_semicolon(st: LexState, b: Seq<char>)
    ensures
        match lex_settled(st) {
            None => lex_settled(followed(st, b)) == Some(
                (TokenView::MessageTerminator, lex_start(b)),
            ),
            Some((token, next)) => {
                ||| lex_settled(followed(st, b)) == Some((token, followed(next, b)))
                ||| st.rest.contains('"') && next.rest.len() == 0 && (lex_settled(
                    followed(st, Seq::empty()),
                ) matches Some((_, end)) && end.rest.len() == 0)
            },
        },
    decreases st.rest.len(), 0int,
{
    let c2 = compound(st.rest, b);
    if st.rest.len() == 0 {
        assert(c2.drop_first() =~= b);
    } else {
        let c = st.rest[0];
        let tail = st.rest.drop_first();
        assert(c2[0] == c);
        assert(c2.drop_first() =~= compound(tail, b));
        let e2 = compound(st.rest, Seq::empty());
        assert(e2[0] == c);
        assert(e2.drop_first() =~= compound(tail, Seq::empty()));
        lemma_lex_before_semicolon(LexState { rest: tail, last_was_colon: true, ..st }, b);
        lemma_lex_before_semicolon(LexState { rest: tail, last_was_colon: false, ..st }, b);
        lemma_lex_before_semicolon(LexState { rest: tail, ..st }, b);
        lemma_contains_tail(tail, st.rest);
        if c == '"' {
            assert(st.rest.contains(st.rest[0]));
            lemma_quoted_before_semicolon(tail, b);
        } else if starts_mnemonic(c) || CharClass::Digit.has(c) || is_number_mark(c) {
            lemma_prefix_before_semicolon(st.rest, b, CharClass::Unseparated);
            lemma_prefix_before_semicolon(st.rest, b, CharClass::Digit);
            if starts_mnemonic(c) {
                lemma_mnemonic_before_semicolon(st.rest, b);
            }
        }
    }
}

proof fn lemma_quoted_before_semicolon(tail: Seq<char>, b: Seq<char>)
    ensures
        prefix_len(tail, CharClass::Unquoted) < tail.len() ==> {
            &&& quoted_text(compound(tail, b)) == quoted_text(tail)
            &&& after_quoted(compound(tail, b)) == compound(after_quoted(tail), b)
        },
        prefix_len(tail, CharClass::Unquoted) == tail.len() ==> {
            &&& after_quoted(tail).len() == 0
            &&& after_quoted(compound(tail, Seq::empty())).len() == 0
        },
        prefix_len(tail, CharClass::Unquoted) <= tail.len(),
{
    let n = prefix_len(tail, CharClass::Unquoted);
    lemma_prefix_len_props(tail, CharClass::Unquoted);
    let c = compound(tail, b);
    if n < tail.len() {
        assert forall|i: int| 0 <= i < n implies CharClass::Unquoted.has(#[trigger] c[i]) by {
            assert(c[i] == tail[i]);
        }
        crate::text::lemma_prefix_len(c, CharClass::Unquoted, n);
        assert(c.take(n) =~= tail.take(n));
        assert(c.skip(n + 1) =~= compound(tail.skip(n + 1), b));
    } else {
        let e = compound(tail, Seq::empty());
        assert forall|i: int| 0 <= i < n + 1 implies CharClass::Unquoted.has(#[trigger] e[i]) by {
            if i < n {
                assert(e[i] == tail[i]);
            }
        }
        crate::text::lemma_prefix_len(e, CharClass::Unquoted, n + 1);
    }
}

proof fn lemma_mnemonic_before_semicolon(s: Seq<char>, b: Seq<char>)
    requires
        s.len() > 0,
        starts_mnemonic(s[0]),
    ensures
        ({
            let n = mnemonic_len(s);
            &&& mnemonic_len(compound(s, b)) == n
            &&& compound(s, b).take(n) == s.take(n)
            &&& compound(s, b).skip(n) == compound(s.skip(n), b)
            &&& param_follows(compound(s, b).skip(n)) == param_follows(s.skip(n))
        }),
{
    let n = mnemonic_len(s);
    let c = compound(s, b);
    lemma_mnemonic_len(s);
    assert(c[0] == s[0]);
    if s[0] == '*' {
        assert(c.drop_first() =~= compound(s.drop_first(), b));
        lemma_prefix_before_semicolon(s.drop_first(), b, CharClass::Word);
    } else {
        lemma_prefix_before_semicolon(s, b, CharClass::Word);
    }
    assert(c.take(n) =~= s.take(n));
    assert(c.skip(n) =~= compound(s.skip(n), b));
    let after = s.skip(n);
    lemma_prefix_before_semicolon(after, b, CharClass::Space);
    let t = after_space(after);
    if t.len() > 0 {
        assert(compound(t, b)[0] == t[0]);
    }
}

/// Nothing comes of an empty text.
proof fn lemma_no_tokens(st: LexState)
    requires
        st.rest.len() == 0,
    ensures
        tokens(st) == Seq::<TokenView>::empty(),
{
    assert(prefix_len(st.rest, CharClass::Space) == 0);
    assert(lex_settled(settled(st)) is None);
    assert(lex(st) is None);
}

proof fn lemma_tokens_before_semicolon(st: LexState, b: Seq<char>)
    requires
        tokens(followed(st, Seq::empty())) == tokens(st).push(TokenView::MessageTerminator),
    ensures
        tokens(followed(st, b)) == tokens(st).push(TokenView::MessageTerminator)
            + message_tokens(b),
    decreases st.rest.len(),
{
    let end = TokenView::MessageTerminator;
    lemma_lex_before_semicolon(st, b);
    lemma_lex_before_semicolon(st, Seq::empty());
    match lex(st) {
        None => {
            assert(tokens(followed(st, b)) =~= seq![end] + message_tokens(b));
            assert(tokens(st).push(end) + message_tokens(b) =~= seq![end] + message_tokens(b));
        },
        Some((token, next)) => {
            lemma_lex_consumes(st);
            if lex(followed(st, Seq::empty())) != Some((token, followed(next, Seq::empty()))) || lex(
                followed(st, b),
            ) != Some((token, followed(next, b))) {
                // A string that is left open swallows the semicolon: one
                // token stands against two.
                let (t, e) = lex(followed(st, Seq::empty()))->0;
                lemma_no_tokens(e);
                lemma_no_tokens(next);
                assert(tokens(followed(st, Seq::empty())) =~= seq![t]);
                assert(tokens(st) =~= seq![token]);
                assert(false);
            }
            let more = tokens(followed(next, Seq::empty()));
            assert((seq![token] + more).drop_first() =~= more);
            assert((seq![token] + tokens(next)).push(end).drop_first() =~= tokens(next).push(end));
            lemma_tokens_before_semicolon(next, b);
            assert(seq![token] + (tokens(next).push(end) + message_tokens(b)) =~= (seq![token]
                + tokens(next)).push(end) + message_tokens(b));
        },
    }
}

proof fn lemma_unquoted_can_be_ended(st: LexState)
    requires
        !st.rest.contains('"'),
    ensures
        tokens(followed(st, Seq::empty())) == tokens(st).push(TokenView::MessageTerminator),
    decreases st.rest.len(),
{
    let end = TokenView::MessageTerminator;
    lemma_lex_before_semicolon(st, Seq::empty());
    match lex(st) {
        None => {
            lemma_no_tokens(lex_start(Seq::empty()));
            assert(tokens(followed(st, Seq::empty())) =~= seq![end]);
            assert(tokens(st).push(end) =~= seq![end]);
        },
        Some((token, next)) => {
            lemma_lex_consumes(st);
            lemma_contains_tail(next.rest, st.rest);
            lemma_unquoted_can_be_ended(next);
            assert(seq![token] + tokens(next).push(end) =~= (seq![token] + tokens(next)).push(end));
        },
    }
}

/// A message without double quotes can be ended.
pub proof fn law_unquoted_can_be_ended(message: Seq<char>)
    requires
        !message.contains('"'),
    ensures
        can_be_ended(message),
{
    assert(compound(message, Seq::empty()) =~= message.push(';'));
    lemma_unquoted_can_be_ended(lex_start(message));
}

/// The tokens of a compound message are those of its two parts, with the
/// terminator between them.
pub proof fn law_compound_tokens(a: Seq<char>, b: Seq<char>)
    requires
        can_be_ended(a),
    ensures
        message_tokens(compound(a, b)) == message_tokens(a).push(TokenView::MessageTerminator)
            + message_tokens(b),
{
    assert(compound(a, Seq::empty()) =~= a.push(';'));
    lemma_tokens_before_semicolon(lex_start(a), b);
}

// ---------------------------------------------------------------------------
// Mnemonics
// ---------------------------------------------------------------------------

/// A token that, if it is a mnemonic, has characters but no colon among
/// them.
pub open spec fn is_segment_token(token: TokenView) -> bool {
    token matches TokenView::Mnemonic(m) ==> m.len() > 0 && !m.contains(':')
}

proof fn lemma_lex_mnemonic(st: LexState)
    ensures
        lex(st) matches Some((token, _)) ==> is_segment_token(token),
    decreases st.rest.len(), 1int,
{
    lemma_prefix_len_props(st.rest, CharClass::Space);
    lemma_lex_settled_mnemonic(settled(st));
}

proof fn lemma_lex_settled_mnemonic(st: LexState)
    ensures
        lex_settled(st) matches Some((token, _)) ==> is_segment_token(token),
    decreases st.rest.len(), 0int,
{
    if st.rest.len() > 0 {
        let c = st.rest[0];
        let tail = st.rest.drop_first();
        lemma_lex_mnemonic(LexState { rest: tail, last_was_colon: true, ..st });
        lemma_lex_mnemonic(LexState { rest: tail, last_was_colon: false, ..st });
        lemma_lex_mnemonic(LexState { rest: tail, ..st });
        if starts_mnemonic(c) {
            lemma_mnemonic_len(st.rest);
            lemma_prefix_len_props(st.rest, CharClass::Word);
            lemma_prefix_len_props(tail, CharClass::Word);
            lemma_trimmed_end_prefix(
                st.rest.take(prefix_len(st.rest, CharClass::Word)),
                CharClass::Digit,
            );
            let m = st.rest.take(mnemonic_len(st.rest));
            assert forall|i: int| 0 <= i < m.len() implies m[i] != ':' by {
                if c == '*' {
                    if i > 0 {
                        assert(m[i] == tail[i - 1]);
                        assert(CharClass::Word.has(tail[i - 1]));
                    }
                } else {
                    assert(CharClass::Word.has(st.rest[i]));
                }
            }
        }
    }
}

proof fn lemma_tokens_mnemonics(st: LexState)
    ensures
        forall|i: int| 0 <= i < tokens(st).len() ==> is_segment_token(#[trigger] tokens(st)[i]),
    decreases st.rest.len(),
{
    lemma_lex_consumes(st);
    lemma_lex_mnemonic(st);
    if let Some((token, next)) = lex(st) {
        lemma_tokens_mnemonics(next);
        assert forall|i: int| 0 <= i < tokens(st).len() implies is_segment_token(
            #[trigger] tokens(st)[i],
        ) by {
            if i > 0 {
                assert(tokens(st)[i] == tokens(next)[i - 1]);
            }
        }
    }
}

/// Every mnemonic of a message is one header segment: it is not empty and
/// holds no colon.
pub proof fn law_mnemonics_are_segments(message: Seq<char>)
    ensures
        forall|i: int|
            0 <= i < message_tokens(message).len() ==> is_segment_token(
                #[trigger] message_tokens(message)[i],
            ),
{
    lemma_tokens_mnemonics(lex_start(message));
}

// ---------------------------------------------------------------------------
// Common command messages
// ---------------------------------------------------------------------------

/// A star and a word, as common commands have it for a header.
pub open spec fn is_star_word(w: Seq<char>) -> bool {
    &&& w.len() > 0
    &&& w[0] == '*'
    &&& forall|i: int| 1 <= i < w.len() ==> CharClass::Word.has(#[trigger] w[i])
}

/// A text that is read as one parameter: it starts with a digit or a sign,
/// holds no separator and does not end in white space.
pub open spec fn is_numeric_text(p: Seq<char>) -> bool {
    &&& p.len() > 0
    &&& CharClass::Digit.has(p[0]) || is_number_mark(p[0])
    &&& forall|i: int| 0 <= i < p.len() ==> CharClass::Unseparated.has(#[trigger] p[i])
    &&& !CharClass::WhiteSpace.has(p.last())
}

proof fn lemma_star_word_prefix(w: Seq<char>, rest: Seq<char>)
    requires
        is_star_word(w),
        rest.len() > 0,
        !CharClass::Word.has(rest[0]),
    ensures
        settled(lex_start(w + rest)) == lex_start(w + rest),
        mnemonic_len(w + rest) == w.len(),
        (w + rest).take(w.len() as int) == w,
        (w + rest).skip(w.len() as int) == rest,
        lex(lex_start(w + rest)) == Some(
            (
                TokenView::Mnemonic(w),
                LexState { rest, in_params: param_follows(rest), last_was_colon: false },
            ),
        ),
{
    let m = w + rest;
    let n = w.len() as int;
    crate::text::lemma_prefix_len(m, CharClass::Space, 0);
    assert(after_space(m) =~= m);
    let tail = m.drop_first();
    assert forall|i: int| 0 <= i < n - 1 implies CharClass::Word.has(#[trigger] tail[i]) by {
        assert(CharClass::Word.has(w[i + 1]));
    }
    crate::text::lemma_prefix_len(tail, CharClass::Word, n - 1);
    assert(m.take(n) =~= w);
    assert(m.skip(n) =~= rest);
    assert(lex_settled(lex_start(m)) == Some(
        (
            TokenView::Mnemonic(w),
            LexState { rest, in_params: param_follows(rest), last_was_colon: false },
        ),
    ));
}

/// A star word, a space and a number are a mnemonic and a parameter.
pub proof fn law_star_word_with_number(w: Seq<char>, p: Seq<char>)
    requires
        is_star_word(w),
        is_numeric_text(p),
    ensures
        message_tokens(w + (seq![' '] + p)) == seq![
            TokenView::Mnemonic(w),
            TokenView::CharParam(p),
        ],
{
    let rest = seq![' '] + p;
    lemma_star_word_prefix(w, rest);
    assert(rest[1] == p[0]);
    crate::text::lemma_prefix_len(rest, CharClass::Space, 1);
    assert(after_space(rest) =~= p);
    assert(param_follows(rest));
    let s1 = LexState { rest, in_params: true, last_was_colon: false };
    let s2 = LexState { rest: p, in_params: true, last_was_colon: false };
    assert(settled(s1) == s2);
    crate::text::lemma_prefix_len(p, CharClass::Unseparated, p.len() as int);
    assert(p.take(p.len() as int) =~= p);
    let s3 = LexState { rest: Seq::empty(), in_params: true, last_was_colon: false };
    assert(p.skip(p.len() as int) =~= Seq::empty());
    assert(lex_settled(s2) == Some((TokenView::CharParam(p), s3)));
    lemma_no_tokens(s3);
    assert(tokens(s1) =~= seq![TokenView::CharParam(p)]);
    assert(tokens(lex_start(w + rest)) =~= seq![TokenView::Mnemonic(w), TokenView::CharParam(p)]);
}

/// A star word and a question mark are a mnemonic and the query mark.
pub proof fn law_star_word_query(w: Seq<char>)
    requires
        is_star_word(w),
    ensures
        message_tokens(w + seq!['?']) == seq![TokenView::Mnemonic(w), TokenView::Query],
{
    let rest = seq!['?'];
    lemma_star_word_prefix(w, rest);
    crate::text::lemma_prefix_len(rest, CharClass::Space, 0);
    assert(after_space(rest) =~= rest);
    let s1 = LexState { rest, in_params: false, last_was_colon: false };
    assert(settled(s1) == s1);
    let s2 = LexState { rest: Seq::empty(), in_params: true, last_was_colon: false };
    assert(rest.drop_first() =~= Seq::empty());
    assert(lex_settled(s1) == Some((TokenView::Query, s2)));
    lemma_no_tokens(s2);
    assert(tokens(s1) =~= seq![TokenView::Query]);
    assert(tokens(lex_start(w + rest)) =~= seq![TokenView::Mnemonic(w), TokenView::Query]);
}

// ---------------------------------------------------------------------------
// Laws of the next token
// ---------------------------------------------------------------------------

/// White space before a token is passed over.  It leads into parameter
/// territory, unless it stands behind a colon or at the beginning.
pub proof fn law_white_space_is_skipped(
    space: Seq<char>,
    rest: Seq<char>,
    in_params: bool,
    last_was_colon: bool,
)
    requires
        forall|i: int| 0 <= i < space.len() ==> CharClass::Space.has(#[trigger] space[i]),
        rest.len() > 0 ==> !CharClass::Space.has(rest[0]),
    ensures
        lex(LexState { rest: space + rest, in_params, last_was_colon }) == lex(
            LexState {
                rest,
                in_params: in_params || (space.len() > 0 && !last_was_colon),
                last_was_colon,
            },
        ),
{
    let s = space + rest;
    let n = space.len() as int;
    assert forall|i: int| 0 <= i < n implies CharClass::Space.has(#[trigger] s[i]) by {
        assert(s[i] == space[i]);
    }
    crate::text::lemma_prefix_len(s, CharClass::Space, n);
    crate::text::lemma_prefix_len(rest, CharClass::Space, 0);
    assert(s.skip(n) =~= rest);
    assert(rest.skip(0) =~= rest);
}

/// Text that does not start with white space is read as it stands.
proof fn lemma_lex_here(st: LexState)
    requires
        st.rest.len() > 0 ==> !CharClass::Space.has(st.rest[0]),
    ensures
        lex(st) == lex_settled(st),
{
    crate::text::lemma_prefix_len(st.rest, CharClass::Space, 0);
    assert(st.rest.skip(0) =~= st.rest);
}

/// Nothing is read from an empty text.
pub proof fn law_nothing_is_left(in_params: bool, last_was_colon: bool)
    ensures
        lex(LexState { rest: Seq::empty(), in_params, last_was_colon }) is None,
{
    lemma_lex_here(LexState { rest: Seq::empty(), in_params, last_was_colon });
}

/// Each separator is a token wherever it stands, but for the colon, which is
/// none.  A semicolon starts a new message; a question mark leads into
/// parameter territory; a colon keeps white space behind it from doing so.
pub proof fn law_separators(rest: Seq<char>, in_params: bool, last_was_colon: bool)
    ensures
        lex(LexState { rest: seq![';'] + rest, in_params, last_was_colon }) == Some(
            (
                TokenView::MessageTerminator,
                LexState { rest, in_params: false, last_was_colon: true },
            ),
        ),
        lex(LexState { rest: seq![','] + rest, in_params, last_was_colon }) == Some(
            (TokenView::ParameterSeparator, LexState { rest, in_params, last_was_colon }),
        ),
        lex(LexState { rest: seq!['?'] + rest, in_params, last_was_colon }) == Some(
            (TokenView::Query, LexState { rest, in_params: true, last_was_colon: false }),
        ),
        lex(LexState { rest: seq![':'] + rest, in_params, last_was_colon }) == lex(
            LexState { rest, in_params, last_was_colon: true },
        ),
{
    lemma_lex_here(LexState { rest: seq![';'] + rest, in_params, last_was_colon });
    lemma_lex_here(LexState { rest: seq![','] + rest, in_params, last_was_colon });
    lemma_lex_here(LexState { rest: seq!['?'] + rest, in_params, last_was_colon });
    lemma_lex_here(LexState { rest: seq![':'] + rest, in_params, last_was_colon });
    assert((seq![';'] + rest).drop_first() =~= rest);
    assert((seq![','] + rest).drop_first() =~= rest);
    assert((seq!['?'] + rest).drop_first() =~= rest);
    assert((seq![':'] + rest).drop_first() =~= rest);
}

/// A quoted text is one string token, with everything between the quotes,
/// separators and white space included.  The closing quote belongs to it; a
/// string that is left open goes up to the end.
pub proof fn law_strings_are_read(
    content: Seq<char>,
    rest: Seq<char>,
    in_params: bool,
    last_was_colon: bool,
)
    requires
        !content.contains('"'),
    ensures
        lex(
            LexState {
                rest: seq!['"'] + content + seq!['"'] + rest,
                in_params,
                last_was_colon,
            },
        ) == Some(
            (TokenView::StringParam(content), LexState { rest, in_params, last_was_colon: false }),
        ),
        lex(LexState { rest: seq!['"'] + content, in_params, last_was_colon }) == Some(
            (
                TokenView::StringParam(content),
                LexState { rest: Seq::empty(), in_params, last_was_colon: false },
            ),
        ),
{
    let n = content.len() as int;
    assert forall|i: int| 0 <= i < n implies CharClass::Unquoted.has(#[trigger] content[i]) by {
        assert(content.contains(content[i]));
    }
    let closed = seq!['"'] + content + seq!['"'] + rest;
    let t = closed.drop_first();
    assert(t =~= content + seq!['"'] + rest);
    crate::text::lemma_prefix_len(t, CharClass::Unquoted, n);
    assert(t.take(n) =~= content);
    assert(t.skip(n + 1) =~= rest);
    lemma_lex_here(LexState { rest: closed, in_params, last_was_colon });
    let open = seq!['"'] + content;
    assert(open.drop_first() =~= content);
    crate::text::lemma_prefix_len(content, CharClass::Unquoted, n);
    assert(content.take(n) =~= content);
    lemma_lex_here(LexState { rest: open, in_params, last_was_colon });
}

/// A name that a header segment can have: a letter and then letters, digits
/// and underscores, the last of which is no digit; or a star and then any of
/// these.
pub open spec fn is_segment_name(name: Seq<char>) -> bool {
    &&& name.len() > 0
    &&& forall|i: int| 1 <= i < name.len() ==> CharClass::Word.has(#[trigger] name[i])
    &&& name[0] == '*' || (CharClass::Letter.has(name[0]) && !CharClass::Digit.has(name.last()))
}

/// Where a header ends: at the end, or before a character that is no part of
/// a word.
pub open spec fn ends_word(rest: Seq<char>) -> bool {
    rest.len() == 0 || !CharClass::Word.has(rest[0])
}

/// In a header, a segment name is read as one mnemonic token, exactly as it
/// stands.  Digits at the end of a word are no part of it and are left for
/// the suffix, but behind a star they are part of the word.  What follows is
/// in parameter territory unless it goes on with the header.
pub proof fn law_mnemonics_are_read(
    name: Seq<char>,
    digits: Seq<char>,
    space: Seq<char>,
    rest: Seq<char>,
    last_was_colon: bool,
)
    requires
        is_segment_name(name),
        forall|i: int| 0 <= i < digits.len() ==> CharClass::Digit.has(#[trigger] digits[i]),
        name[0] == '*' ==> digits.len() == 0,
        forall|i: int| 0 <= i < space.len() ==> CharClass::Space.has(#[trigger] space[i]),
        rest.len() > 0 ==> !CharClass::Space.has(rest[0]),
        ends_word(space + rest),
    ensures
        lex(
            LexState {
                rest: name + (digits + (space + rest)),
                in_params: false,
                last_was_colon,
            },
        ) == Some(
            (
                TokenView::Mnemonic(name),
                LexState {
                    rest: digits + (space + rest),
                    in_params: digits.len() == 0 && rest.len() > 0 && rest[0] != ':' && rest[0]
                        != '?' && rest[0] != ';',
                    last_was_colon: false,
                },
            ),
        ),
{
    let tail = digits + (space + rest);
    let s = name + tail;
    let n = name.len() as int;
    let k = digits.len() as int;
    let st = LexState { rest: s, in_params: false, last_was_colon };
    assert(s[0] == name[0]);
    lemma_lex_here(st);
    if name[0] == '*' {
        let t = s.drop_first();
        assert forall|i: int| 0 <= i < n - 1 implies CharClass::Word.has(#[trigger] t[i]) by {
            assert(CharClass::Word.has(name[i + 1]));
        }
        assert(tail =~= space + rest);
        crate::text::lemma_prefix_len(t, CharClass::Word, n - 1);
    } else {
        assert forall|i: int| 0 <= i < n + k implies CharClass::Word.has(#[trigger] s[i]) by {
            if i == 0 {
            } else if i < n {
                assert(CharClass::Word.has(name[i]));
            } else {
                assert(CharClass::Digit.has(digits[i - n]));
            }
        }
        assert(n + k < s.len() ==> s[n + k] == (space + rest)[0]);
        crate::text::lemma_prefix_len(s, CharClass::Word, n + k);
        assert(s.take(n + k) =~= name + digits);
        crate::text::lemma_trimmed_end(name, digits, CharClass::Digit);
    }
    assert(mnemonic_len(s) == n);
    assert(s.take(n) =~= name);
    assert(s.skip(n) =~= tail);
    if k > 0 {
        assert(CharClass::Digit.has(digits[0]));
        assert(tail[0] == digits[0]);
        crate::text::lemma_prefix_len(tail, CharClass::Space, 0);
        assert(tail.skip(0) =~= tail);
    } else {
        assert(tail =~= space + rest);
        let m = space.len() as int;
        assert forall|i: int| 0 <= i < m implies CharClass::Space.has(#[trigger] tail[i]) by {
            assert(tail[i] == space[i]);
        }
        crate::text::lemma_prefix_len(tail, CharClass::Space, m);
        assert(tail.skip(m) =~= rest);
    }
}

/// In a header, a run of digits is one suffix token with the number that it
/// stands for; a number that does not fit counts as zero.
pub proof fn law_suffixes_are_read(digits: Seq<char>, rest: Seq<char>, last_was_colon: bool)
    requires
        digits.len() > 0,
        forall|i: int| 0 <= i < digits.len() ==> CharClass::Digit.has(#[trigger] digits[i]),
        rest.len() > 0 ==> !CharClass::Digit.has(rest[0]),
    ensures
        lex(LexState { rest: digits + rest, in_params: false, last_was_colon }) == Some(
            (
                TokenView::NumericSuffix(
                    if digits_value(digits) <= 0xffff_ffff {
                        digits_value(digits) as u32
                    } else {
                        0
                    },
                ),
                LexState { rest, in_params: false, last_was_colon: false },
            ),
        ),
{
    let s = digits + rest;
    let n = digits.len() as int;
    assert(CharClass::Digit.has(digits[0]));
    assert(s[0] == digits[0]);
    lemma_lex_here(LexState { rest: s, in_params: false, last_was_colon });
    assert forall|i: int| 0 <= i < n implies CharClass::Digit.has(#[trigger] s[i]) by {
        assert(s[i] == digits[i]);
    }
    crate::text::lemma_prefix_len(s, CharClass::Digit, n);
    assert(s.take(n) =~= digits);
    assert(s.skip(n) =~= rest);
}

/// A text that is read as one unquoted parameter: it starts with a letter, a
/// star, a digit, a sign or a decimal point, holds no comma and no semicolon,
/// and does not end in white space.
pub open spec fn is_parameter_text(p: Seq<char>) -> bool {
    &&& p.len() > 0
    &&& CharClass::Letter.has(p[0]) || p[0] == '*' || CharClass::Digit.has(p[0]) || p[0] == '+'
        || p[0] == '-' || p[0] == '.'
    &&& !p.contains(',')
    &&& !p.contains(';')
    &&& !CharClass::WhiteSpace.has(p.last())
}

/// In parameter territory, text up to a comma, a semicolon or the end is one
/// parameter token, exactly as it stands: digits, spaces and quotes within it
/// belong to it, and only white space behind it does not.
pub proof fn law_parameters_are_read(
    p: Seq<char>,
    space: Seq<char>,
    rest: Seq<char>,
    last_was_colon: bool,
)
    requires
        is_parameter_text(p),
        forall|i: int|
            0 <= i < space.len() ==> CharClass::WhiteSpace.has(#[trigger] space[i]),
        rest.len() == 0 || rest[0] == ',' || rest[0] == ';',
    ensures
        lex(LexState { rest: p + (space + rest), in_params: true, last_was_colon }) == Some(
            (
                TokenView::CharParam(p),
                LexState { rest, in_params: true, last_was_colon: false },
            ),
        ),
{
    let s = p + (space + rest);
    let n = p.len() as int;
    let k = space.len() as int;
    assert(s[0] == p[0]);
    lemma_lex_here(LexState { rest: s, in_params: true, last_was_colon });
    assert forall|i: int| 0 <= i < n + k implies CharClass::Unseparated.has(#[trigger] s[i]) by {
        if i < n {
            assert(p.contains(p[i]));
        } else {
            assert(CharClass::WhiteSpace.has(space[i - n]));
        }
    }
    crate::text::lemma_prefix_len(s, CharClass::Unseparated, n + k);
    assert(s.take(n + k) =~= p + space);
    crate::text::lemma_trimmed_end(p, space, CharClass::WhiteSpace);
    assert(s.skip(n + k) =~= rest);
}

/// Characters that can start no token are passed over, and nothing else
/// changes.  In a header, so are signs and decimal points, which behind a
/// colon end the claim that the colon lays on white space.
pub proof fn law_other_characters_are_skipped(
    c: char,
    rest: Seq<char>,
    in_params: bool,
    last_was_colon: bool,
)
    requires
        !CharClass::Space.has(c),
    ensures
        !CharClass::Letter.has(c) && !CharClass::Digit.has(c) && c != '*' && c != '+' && c != '-'
            && c != '.' && c != ';' && c != ',' && c != '?' && c != ':' && c != '"' ==> lex(
            LexState { rest: seq![c] + rest, in_params, last_was_colon },
        ) == lex(LexState { rest, in_params, last_was_colon }),
        c == '+' || c == '-' || c == '.' ==> lex(
            LexState { rest: seq![c] + rest, in_params: false, last_was_colon },
        ) == lex(LexState { rest, in_params: false, last_was_colon: false }),
{
    assert((seq![c] + rest).drop_first() =~= rest);
    lemma_lex_here(LexState { rest: seq![c] + rest, in_params, last_was_colon });
    lemma_lex_here(LexState { rest: seq![c] + rest, in_params: false, last_was_colon });
}

} // verus!
