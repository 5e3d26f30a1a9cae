//! Raw responses: IEEE 488.2 binary blocks and plain lines.
//!
//! A response that starts with `#` is a sequence of binary blocks.  A block
//! of definite length is `#`, a digit, as many digits as that says, and as
//! many bytes as those say; more blocks may follow back to back.  A block of
//! indefinite length is `#0` and everything up to the end of the line.  Any
//! other response is one line.
//!
//! [`BlockReader`] says what to read next and takes what was read.
//! [`outcome`] is the response that it arrives at.

use vstd::prelude::*;
use vstd::utf8::{
    decode_utf8, encode_utf8, encode_utf8_decode_utf8, encode_utf8_valid_utf8, is_ascii_chars,
    is_ascii_chars_encode_utf8, valid_utf8,
};

use crate::number::{
    all_digits, decimal, digits_value, law_decimal_reads_back, lemma_decimal_len,
    lemma_digits_bound, parse_unsigned, unsigned_value,
};
use crate::text::CharClass;

verus! {

/// The byte `#`, which starts a block.
pub const HASH: u8 = 0x23;

/// Line feed, which ends a line.
pub const LINE_FEED: u8 = 0x0A;

/// Carriage return, which may stand before a line feed.
pub const CARRIAGE_RETURN: u8 = 0x0D;

/// The byte `0`.
pub const ZERO: u8 = 0x30;

/// Why a response is not a sequence of blocks.
#[derive(Debug, Clone, Copy, PartialEq, Eq, Structural)]
pub enum BlockError {
    /// The response ends too early.
    UnexpectedEnd,
    /// Behind `#` stands no digit.
    InvalidDigit,
    /// The length field is not UTF-8.
    LengthNotText,
    /// The length field is not a number.
    LengthNotNumber,
}

/// The description of an error.
pub open spec fn error_text(e: BlockError) -> Seq<char> {
    match e {
        BlockError::UnexpectedEnd => "Unexpected end of response"@,
        BlockError::InvalidDigit => "Invalid block header digit"@,
        BlockError::LengthNotText => "Non-numeric length field"@,
        BlockError::LengthNotNumber => "Failed to parse data length"@,
    }
}

impl BlockError {
    /// Describe the error.
    pub fn to_str(self) -> (r: &'static str)
        ensures
            r@ == error_text(self),
    {
        match self {
            BlockError::UnexpectedEnd => "Unexpected end of response",
            BlockError::InvalidDigit => "Invalid block header digit",
            BlockError::LengthNotText => "Non-numeric length field",
            BlockError::LengthNotNumber => "Failed to parse data length",
        }
    }
}

/// How far a response has been read.
#[derive(Debug, Clone, Copy, PartialEq, Eq, Structural)]
pub enum Stage {
    /// Nothing has been read.
    First,
    /// `#` has been read.
    Digit,
    /// So many length digits are to come.
    Length(usize),
    /// So many bytes of payload are to come.
    Payload(usize),
    /// A payload is complete.
    Next,
    /// A payload is complete, and a carriage return has been read.
    AfterReturn,
    /// The rest of a line is to come.
    Line,
    /// The response is complete.
    Done,
}

/// What is to be read next.
#[derive(Debug, Clone, Copy, PartialEq, Eq, Structural)]
pub enum Want {
    /// Exactly so many bytes.
    Exactly(usize),
    /// Everything up to and with the next line feed, or up to the end.
    Line,
    /// A look at the next byte, if there is one.
    Peek,
    /// Nothing.
    Nothing,
}

/// The number of bytes up to and with the first line feed, or of all where
/// there is none.
pub open spec fn line_len(input: Seq<u8>) -> int
    decreases input.len(),
{
    if input.len() == 0 {
        0
    } else if input[0] == LINE_FEED {
        1
    } else {
        1 + line_len(input.drop_first())
    }
}

/// The length that a length field gives.
pub open spec fn field_length(field: Seq<u8>) -> Result<usize, BlockError> {
    if !valid_utf8(field) {
        Err(BlockError::LengthNotText)
    } else {
        match unsigned_value(decode_utf8(field), usize::MAX as int) {
            Some(v) => Ok(v as usize),
            None => Err(BlockError::LengthNotNumber),
        }
    }
}

/// How many steps at most lie between a stage and the next byte.
pub open spec fn rank(stage: Stage) -> int {
    match stage {
        Stage::Length(_) => 3,
        Stage::Payload(_) => 2,
        Stage::Next => 1,
        _ => 0,
    }
}

/// What comes of a response of which `data` has been collected and `input`
/// is unread: the whole data and what is still unread then.
pub open spec fn outcome(stage: Stage, data: Seq<u8>, input: Seq<u8>) -> Result<
    (Seq<u8>, Seq<u8>),
    BlockError,
>
    decreases input.len(), rank(stage),
{
    match stage {
        Stage::First => if input.len() == 0 {
            Err(BlockError::UnexpectedEnd)
        } else if input[0] == HASH {
            outcome(Stage::Digit, data, input.drop_first())
        } else {
            outcome(Stage::Line, data.push(input[0]), input.drop_first())
        },
        Stage::Digit => if input.len() == 0 {
            Err(BlockError::UnexpectedEnd)
        } else if !(ZERO <= input[0] <= ZERO + 9) {
            Err(BlockError::InvalidDigit)
        } else if input[0] == ZERO {
            outcome(Stage::Line, data, input.drop_first())
        } else {
            outcome(Stage::Length((input[0] - ZERO) as usize), data, input.drop_first())
        },
        Stage::Length(n) => if input.len() < n {
            Err(BlockError::UnexpectedEnd)
        } else {
            match field_length(input.take(n as int)) {
                Err(e) => Err(e),
                Ok(length) => outcome(Stage::Payload(length), data, input.skip(n as int)),
            }
        },
        Stage::Payload(n) => if input.len() < n {
            Err(BlockError::UnexpectedEnd)
        } else {
            outcome(Stage::Next, data + input.take(n as int), input.skip(n as int))
        },
        Stage::Next => if input.len() == 0 {
            Ok((data, input))
        } else if input[0] == HASH {
            outcome(Stage::Digit, data, input.drop_first())
        } else if input[0] == LINE_FEED {
            Ok((data, input.drop_first()))
        } else if input[0] == CARRIAGE_RETURN {
            outcome(Stage::AfterReturn, data, input.drop_first())
        } else {
            Ok((data, input))
        },
        Stage::AfterReturn => if input.len() > 0 && input[0] == LINE_FEED {
            Ok((data, input.drop_first()))
        } else {
            Ok((data, input))
        },
        Stage::Line => Ok(
            (data + input.take(line_len(input)), input.skip(line_len(input))),
        ),
        Stage::Done => Ok((data, input)),
    }
}

/// What comes of a whole response.
pub open spec fn raw_response(input: Seq<u8>) -> Result<(Seq<u8>, Seq<u8>), BlockError> {
    outcome(Stage::First, Seq::empty(), input)
}

/// What is to be read next at a stage.
pub open spec fn wanted(stage: Stage) -> Want {
    match stage {
        Stage::First | Stage::Digit => Want::Exactly(1),
        Stage::Length(n) => Want::Exactly(n),
        Stage::Payload(n) => Want::Exactly(n),
        Stage::Next | Stage::AfterReturn => Want::Peek,
        Stage::Line => Want::Line,
        Stage::Done => Want::Nothing,
    }
}

/// `core::str::from_utf8`: the text that bytes encode.  It fails exactly on
/// bytes that are not UTF-8.
#[verifier::external_body]
fn text_of(bytes: &[u8]) -> (r: Option<&str>)
    ensures
        r is Some <==> valid_utf8(bytes@),
        r matches Some(text) ==> text@ == decode_utf8(bytes@),
{
    core::str::from_utf8(bytes).ok()
}

/// Reads one response, a piece at a time.
#[derive(Debug)]
pub struct BlockReader {
    stage: Stage,
    data: Vec<u8>,
}

impl BlockReader {
    /// How far the response has been read.
    pub closed spec fn stage(&self) -> Stage {
        self.stage
    }

    /// The data that has been collected.
    pub closed spec fn data(&self) -> Seq<u8> {
        self.data@
    }

    /// What comes of the response if `input` is what is unread of it.
    pub open spec fn outcome(&self, input: Seq<u8>) -> Result<(Seq<u8>, Seq<u8>), BlockError> {
        outcome(self.stage(), self.data(), input)
    }

    /// Start on a response.
    pub fn new() -> (r: Self)
        ensures
            r.stage() == Stage::First,
            r.data() == Seq::<u8>::empty(),
    {
        BlockReader { stage: Stage::First, data: Vec::new() }
    }

    /// Tell what to read next.
    pub fn want(&self) -> (r: Want)
        ensures
            r == wanted(self.stage()),
    {
        match self.stage {
            Stage::First => Want::Exactly(1),
            Stage::Digit => Want::Exactly(1),
            Stage::Length(n) => Want::Exactly(n),
            Stage::Payload(n) => Want::Exactly(n),
            Stage::Next => Want::Peek,
            Stage::AfterReturn => Want::Peek,
            Stage::Line => Want::Line,
            Stage::Done => Want::Nothing,
        }
    }

    /// Take the bytes that were asked for with [`Want::Exactly`].
    pub fn take_exactly(&mut self, chunk: &[u8]) -> (r: Result<(), BlockError>)
        requires
            wanted(old(self).stage()) matches Want::Exactly(n) && n == chunk@.len(),
        ensures
            r is Ok ==> forall|rest: Seq<u8>| #[trigger]
                final(self).outcome(rest) == old(self).outcome(chunk@ + rest),
            r is Ok ==> chunk@.len() > 0 || rank(final(self).stage()) < rank(old(self).stage()),
            r matches Err(e) ==> forall|rest: Seq<u8>| #[trigger]
                old(self).outcome(chunk@ + rest) == Err::<(Seq<u8>, Seq<u8>), BlockError>(e),
    {
        let ghost data = self.data();
        proof {
            assert forall|rest: Seq<u8>| #![trigger chunk@ + rest] true implies {
                &&& (chunk@ + rest).take(chunk@.len() as int) == chunk@
                &&& (chunk@ + rest).skip(chunk@.len() as int) == rest
                &&& chunk@.len() == 1 ==> (chunk@ + rest).drop_first() == rest && (chunk@ + rest)[0]
                    == chunk@[0]
            } by {
                assert((chunk@ + rest).take(chunk@.len() as int) =~= chunk@);
                assert((chunk@ + rest).skip(chunk@.len() as int) =~= rest);
                if chunk@.len() == 1 {
                    assert((chunk@ + rest).drop_first() =~= rest);
                }
            }
        }
        match self.stage {
            Stage::First => {
                let b: u8 = chunk[0];
                if b == HASH {
                    self.stage = Stage::Digit;
                } else {
                    // An ASCII response.
                    self.data.push(b);
                    self.stage = Stage::Line;
                }
                Ok(())
            },
            Stage::Digit => {
                let b: u8 = chunk[0];
                if b < ZERO || b > ZERO + 9 {
                    return Err(BlockError::InvalidDigit);
                }
                if b == ZERO {
                    // A block of indefinite length ends the response.
                    self.stage = Stage::Line;
                } else {
                    self.stage = Stage::Length((b - ZERO) as usize);
                }
                Ok(())
            },
            Stage::Length(n) => {
                match read_length(chunk) {
                    Ok(length) => {
                        self.stage = Stage::Payload(length);
                        Ok(())
                    },
                    Err(e) => Err(e),
                }
            },
            Stage::Payload(n) => {
                self.data.extend_from_slice(chunk);
                self.stage = Stage::Next;
                assert(self.data@ =~= data + chunk@);
                Ok(())
            },
            _ => Ok(()),
        }
    }
}

impl BlockReader {
    /// Take the line that was asked for with [`Want::Line`]: everything up
    /// to and with a line feed, or up to the end.
    pub fn take_line(&mut self, chunk: &[u8])
        requires
            wanted(old(self).stage()) == Want::Line,
            line_len(chunk@) == chunk@.len(),
        ensures
            final(self).stage() == Stage::Done,
            final(self).data() == old(self).data() + chunk@,
            forall|rest: Seq<u8>|
                rest.len() == 0 || (chunk@.len() > 0 && chunk@.last() == LINE_FEED)
                    ==> #[trigger] old(self).outcome(chunk@ + rest) == Ok::<
                    (Seq<u8>, Seq<u8>),
                    BlockError,
                >((final(self).data(), rest)),
    {
        let ghost data = self.data();
        self.data.extend_from_slice(chunk);
        self.stage = Stage::Done;
        proof {
            assert(self.data@ =~= data + chunk@);
            assert forall|rest: Seq<u8>|
                rest.len() == 0 || (chunk@.len() > 0 && chunk@.last()
                    == LINE_FEED) implies #[trigger] old(self).outcome(chunk@ + rest) == Ok::<
                (Seq<u8>, Seq<u8>),
                BlockError,
            >((self.data(), rest)) by {
                lemma_line_then(chunk@, rest);
                assert((chunk@ + rest).take(chunk@.len() as int) =~= chunk@);
                assert((chunk@ + rest).skip(chunk@.len() as int) =~= rest);
            }
        }
    }

    /// Take the look at the next byte that was asked for with
    /// [`Want::Peek`].  Returns `true` if that byte is to be consumed.
    pub fn take_look(&mut self, next: Option<u8>) -> (r: bool)
        requires
            wanted(old(self).stage()) == Want::Peek,
        ensures
            r ==> {
                &&& next is Some
                &&& forall|rest: Seq<u8>| #[trigger]
                    final(self).outcome(rest) == old(self).outcome(seq![next->0] + rest)
            },
            !r ==> {
                &&& final(self).stage() == Stage::Done
                &&& final(self).data() == old(self).data()
                &&& forall|rest: Seq<u8>|
                    (next is None <==> rest.len() == 0) && (next matches Some(b) ==> rest[0] == b)
                        ==> #[trigger] old(self).outcome(rest) == Ok::<
                        (Seq<u8>, Seq<u8>),
                        BlockError,
                    >((final(self).data(), rest))
            },
    {
        if let Some(b) = next {
            proof {
                assert forall|rest: Seq<u8>| #![trigger seq![b] + rest] true implies {
                    &&& (seq![b] + rest).len() > 0
                    &&& (seq![b] + rest)[0] == b
                    &&& (seq![b] + rest).drop_first() == rest
                } by {
                    assert((seq![b] + rest).drop_first() =~= rest);
                }
            }
            let between_blocks: bool = match self.stage {
                Stage::Next => true,
                _ => false,
            };
            if b == LINE_FEED {
                self.stage = Stage::Done;
                return true;
            }
            if between_blocks && b == HASH {
                // Another block follows.
                self.stage = Stage::Digit;
                return true;
            }
            if between_blocks && b == CARRIAGE_RETURN {
                self.stage = Stage::AfterReturn;
                return true;
            }
        }
        self.stage = Stage::Done;
        false
    }

    /// Hand out the data of a complete response.
    pub fn finish(self) -> (r: Vec<u8>)
        requires
            wanted(self.stage()) == Want::Nothing,
        ensures
            r@ == self.data(),
            forall|rest: Seq<u8>| #[trigger]
                self.outcome(rest) == Ok::<(Seq<u8>, Seq<u8>), BlockError>((r@, rest)),
    {
        self.data
    }
}

/// Behind a line that is complete, other bytes make no difference to it.
proof fn lemma_line_then(line: Seq<u8>, rest: Seq<u8>)
    requires
        line_len(line) == line.len(),
        rest.len() == 0 || (line.len() > 0 && line.last() == LINE_FEED),
    ensures
        line_len(line + rest) == line.len(),
    decreases line.len(),
{
    if line.len() == 0 {
        assert(line + rest =~= rest);
    } else if line[0] != LINE_FEED {
        assert((line + rest).drop_first() =~= line.drop_first() + rest);
        lemma_line_then(line.drop_first(), rest);
    }
}

proof fn lemma_line_len(input: Seq<u8>, n: int)
    requires
        0 <= n <= input.len(),
        forall|i: int| 0 <= i < n ==> #[trigger] input[i] != LINE_FEED,
        n < input.len() ==> input[n] == LINE_FEED,
    ensures
        line_len(input) == (if n < input.len() { n + 1 } else { n }),
    decreases n,
{
    if n > 0 {
        lemma_line_len(input.drop_first(), n - 1);
    }
}

/// Find the end of the line that starts at `from`.
fn line_end(input: &[u8], from: usize) -> (r: usize)
    requires
        from <= input@.len(),
    ensures
        from <= r <= input@.len(),
        r - from == line_len(input@.skip(from as int)),
        line_len(input@.subrange(from as int, r as int)) == r - from,
        r == input@.len() || (r > from && input@[r - 1] == LINE_FEED),
{
    let ghost rest = input@.skip(from as int);
    let mut i: usize = from;
    while i < input.len()
        invariant
            from <= i <= input@.len(),
            rest == input@.skip(from as int),
            forall|j: int| 0 <= j < i - from ==> #[trigger] rest[j] != LINE_FEED,
        decreases input@.len() - i,
    {
        if input[i] == LINE_FEED {
            proof {
                lemma_line_len(rest, i - from);
                lemma_line_len(input@.subrange(from as int, i + 1), i - from);
            }
            return i + 1;
        }
        i = i + 1;
    }
    proof {
        lemma_line_len(rest, i - from);
        lemma_line_len(input@.subrange(from as int, i as int), i - from);
    }
    i
}

/// Read one response from `input`, all of which has arrived.  Returns its
/// data and the number of bytes that it takes up.
pub fn read_response(input: &[u8]) -> (r: Result<(Vec<u8>, usize), BlockError>)
    ensures
        match r {
            Ok((data, used)) => used <= input@.len() && raw_response(input@) == Ok::<
                (Seq<u8>, Seq<u8>),
                BlockError,
            >((data@, input@.skip(used as int))),
            Err(e) => raw_response(input@) == Err::<(Seq<u8>, Seq<u8>), BlockError>(e),
        },
{
    let mut reader = BlockReader::new();
    let mut pos: usize = 0;
    proof {
        assert(input@.skip(0) =~= input@);
    }
    loop
        invariant
            pos <= input@.len(),
            reader.outcome(input@.skip(pos as int)) == raw_response(input@),
        decreases input@.len() - pos, rank(reader.stage()), (if reader.stage() == Stage::Done {
            0int
        } else {
            1int
        }),
    {
        let ghost unread = input@.skip(pos as int);
        match reader.want() {
            Want::Exactly(n) => {
                if input.len() - pos < n {
                    return Err(BlockError::UnexpectedEnd);
                }
                let chunk = vstd::slice::slice_subrange(input, pos, pos + n);
                proof {
                    assert(chunk@ + input@.skip(pos + n) =~= unread);
                }
                match reader.take_exactly(chunk) {
                    Ok(()) => {
                        pos = pos + n;
                    },
                    Err(e) => {
                        return Err(e);
                    },
                }
            },
            Want::Line => {
                let end: usize = line_end(input, pos);
                let chunk = vstd::slice::slice_subrange(input, pos, end);
                proof {
                    assert(chunk@ + input@.skip(end as int) =~= unread);
                }
                reader.take_line(chunk);
                return Ok((reader.finish(), end));
            },
            Want::Peek => {
                let next: Option<u8> = if pos < input.len() { Some(input[pos]) } else { None };
                if reader.take_look(next) {
                    proof {
                        assert(seq![next->0] + input@.skip(pos + 1) =~= unread);
                    }
                    pos = pos + 1;
                } else {
                    return Ok((reader.finish(), pos));
                }
            },
            Want::Nothing => {
                return Ok((reader.finish(), pos));
            },
        }
    }
}

/// Read a length field.
fn read_length(field: &[u8]) -> (r: Result<usize, BlockError>)
    ensures
        r == field_length(field@),
{
    match text_of(field) {
        None => Err(BlockError::LengthNotText),
        Some(text) => match parse_unsigned(text, usize::MAX as u64) {
            None => Err(BlockError::LengthNotNumber),
            Some(n) => Ok(n as usize),
        },
    }
}

// ---------------------------------------------------------------------------
// Laws of raw responses
// ---------------------------------------------------------------------------

/// A block of definite length.
pub struct Block {
    /// The digits behind `#` and their number.
    pub field: Seq<u8>,
    pub payload: Seq<u8>,
}

/// The characters of a length field of ASCII digits.
pub open spec fn field_digits(field: Seq<u8>) -> Seq<char> {
    Seq::new(field.len(), |i: int| field[i] as char)
}

impl Block {
    /// The length field has one to nine ASCII digits, with leading zeros or
    /// without, and gives the length of the payload.
    pub open spec fn well_formed(self) -> bool {
        &&& 1 <= self.field.len() <= 9
        &&& all_digits(field_digits(self.field))
        &&& digits_value(field_digits(self.field)) == self.payload.len()
    }

    /// The block on the wire.
    pub open spec fn bytes(self) -> Seq<u8> {
        seq![HASH, (ZERO + self.field.len()) as u8] + self.field + self.payload
    }
}

/// Blocks back to back.
pub open spec fn blocks_bytes(blocks: Seq<Block>) -> Seq<u8>
    decreases blocks.len(),
{
    if blocks.len() == 0 {
        Seq::empty()
    } else {
        blocks[0].bytes() + blocks_bytes(blocks.drop_first())
    }
}

/// The payloads of blocks put together.
pub open spec fn all_data(blocks: Seq<Block>) -> Seq<u8>
    decreases blocks.len(),
{
    if blocks.len() == 0 {
        Seq::empty()
    } else {
        blocks[0].payload + all_data(blocks.drop_first())
    }
}

/// A length field gives the length of the payload.
proof fn lemma_field_of_block(block: Block)
    requires
        block.well_formed(),
    ensures
        field_length(block.field) == Ok::<usize, BlockError>(block.payload.len() as usize),
        block.payload.len() <= usize::MAX,
{
    let d = field_digits(block.field);
    assert forall|i: int| 0 <= i < d.len() implies '\0' <= #[trigger] d[i] <= '\u{7f}' by {
        assert(CharClass::Digit.has(d[i]));
    }
    assert(is_ascii_chars(d));
    is_ascii_chars_encode_utf8(d);
    assert forall|i: int| 0 <= i < d.len() implies encode_utf8(d)[i] == block.field[i] by {
        assert(d[i] as u8 == encode_utf8(d)[i]);
    }
    assert(encode_utf8(d) =~= block.field);
    encode_utf8_valid_utf8(d);
    encode_utf8_decode_utf8(d);
    assert(CharClass::Digit.has(d[0]));
    lemma_digits_bound(d);
    vstd::arithmetic::power::lemma_pow_increases(10, d.len(), 9);
    assert(vstd::arithmetic::power::pow(10, 9) == 1_000_000_000int) by {
        reveal_with_fuel(vstd::arithmetic::power::pow, 10);
    }
}

/// A block adds its payload to the data.
proof fn lemma_block_is_read(data: Seq<u8>, block: Block, rest: Seq<u8>)
    requires
        block.well_formed(),
    ensures
        (block.bytes() + rest).len() > 0,
        (block.bytes() + rest)[0] == HASH,
        outcome(Stage::Digit, data, (block.bytes() + rest).drop_first()) == outcome(
            Stage::Next,
            data + block.payload,
            rest,
        ),
{
    let field = block.field;
    let payload = block.payload;
    let n = field.len() as int;
    lemma_field_of_block(block);
    let t1 = (block.bytes() + rest).drop_first();
    assert(t1[0] == ZERO + n);
    let t2 = t1.drop_first();
    assert(t2 =~= field + payload + rest);
    assert(outcome(Stage::Digit, data, t1) == outcome(Stage::Length(n as usize), data, t2));
    assert(t2.take(n) =~= field);
    let t3 = t2.skip(n);
    assert(t3 =~= payload + rest);
    assert(outcome(Stage::Length(n as usize), data, t2) == outcome(
        Stage::Payload(payload.len() as usize),
        data,
        t3,
    ));
    assert(t3.take(payload.len() as int) =~= payload);
    assert(t3.skip(payload.len() as int) =~= rest);
}

/// `ending` ends a response of blocks: a line feed, a carriage return, both,
/// or nothing, where no such byte and no other block follows.
pub open spec fn ends_blocks(ending: Seq<u8>, rest: Seq<u8>) -> bool {
    ||| ending == seq![LINE_FEED]
    ||| ending == seq![CARRIAGE_RETURN, LINE_FEED]
    ||| ending == seq![CARRIAGE_RETURN] && (rest.len() == 0 || rest[0] != LINE_FEED)
    ||| ending.len() == 0 && (rest.len() == 0 || (rest[0] != HASH && rest[0] != LINE_FEED && rest[0]
        != CARRIAGE_RETURN))
}

proof fn lemma_blocks_are_read(
    data: Seq<u8>,
    blocks: Seq<Block>,
    ending: Seq<u8>,
    rest: Seq<u8>,
)
    requires
        forall|i: int| 0 <= i < blocks.len() ==> (#[trigger] blocks[i]).well_formed(),
        ends_blocks(ending, rest),
    ensures
        outcome(Stage::Next, data, blocks_bytes(blocks) + ending + rest) == Ok::<
            (Seq<u8>, Seq<u8>),
            BlockError,
        >((data + all_data(blocks), rest)),
    decreases blocks.len(),
{
    let input = blocks_bytes(blocks) + ending + rest;
    if blocks.len() == 0 {
        assert(input =~= ending + rest);
        assert(data + all_data(blocks) =~= data);
        if ending == seq![LINE_FEED] {
            assert(input.drop_first() =~= rest);
        } else if ending.len() > 0 {
            assert(input[0] == CARRIAGE_RETURN);
            let after = input.drop_first();
            assert(outcome(Stage::Next, data, input) == outcome(Stage::AfterReturn, data, after));
            if ending.len() == 2 {
                assert(after[0] == LINE_FEED);
                assert(after.drop_first() =~= rest);
            } else {
                assert(after =~= rest);
            }
        } else {
            assert(input =~= rest);
        }
    } else {
        let more = blocks_bytes(blocks.drop_first()) + ending + rest;
        assert(input =~= blocks[0].bytes() + more);
        lemma_block_is_read(data, blocks[0], more);
        lemma_blocks_are_read(data + blocks[0].payload, blocks.drop_first(), ending, rest);
        assert((data + blocks[0].payload) + all_data(blocks.drop_first()) =~= data + all_data(
            blocks,
        ));
    }
}

/// A response of blocks of definite length, one or several back to back, is
/// read as the payloads put together.  The ending is consumed and is no part
/// of the data.
pub proof fn law_blocks_are_read(blocks: Seq<Block>, ending: Seq<u8>, rest: Seq<u8>)
    requires
        blocks.len() > 0,
        forall|i: int| 0 <= i < blocks.len() ==> (#[trigger] blocks[i]).well_formed(),
        ends_blocks(ending, rest),
    ensures
        raw_response(blocks_bytes(blocks) + ending + rest) == Ok::<
            (Seq<u8>, Seq<u8>),
            BlockError,
        >((all_data(blocks), rest)),
{
    let input = blocks_bytes(blocks) + ending + rest;
    lemma_blocks_are_read(Seq::empty(), blocks, ending, rest);
    let more = blocks_bytes(blocks.drop_first()) + ending + rest;
    assert(input =~= blocks[0].bytes() + more);
    lemma_block_is_read(Seq::empty(), blocks[0], more);
    assert(Seq::<u8>::empty() + all_data(blocks) =~= all_data(blocks));
}

/// Every payload of fewer than a thousand million bytes has a block, with
/// its length in decimal.
pub proof fn law_payloads_have_blocks(payload: Seq<u8>)
    requires
        payload.len() < 1_000_000_000,
    ensures
        (Block { field: encode_utf8(decimal(payload.len())), payload }).well_formed(),
{
    let d = decimal(payload.len());
    law_decimal_reads_back(payload.len());
    assert(vstd::arithmetic::power::pow(10, 9) == 1_000_000_000int) by {
        reveal_with_fuel(vstd::arithmetic::power::pow, 10);
    }
    lemma_decimal_len(payload.len(), 9);
    assert forall|i: int| 0 <= i < d.len() implies '\0' <= #[trigger] d[i] <= '\u{7f}' by {
        assert(CharClass::Digit.has(d[i]));
    }
    assert(is_ascii_chars(d));
    is_ascii_chars_encode_utf8(d);
    assert(field_digits(encode_utf8(d)) =~= d) by {
        assert forall|i: int| 0 <= i < d.len() implies field_digits(encode_utf8(d))[i] == d[i] by {
            assert(CharClass::Digit.has(d[i]));
            assert(d[i] as u8 == encode_utf8(d)[i]);
        }
    }
}

/// A block of indefinite length is read up to and with its line feed.
pub proof fn law_indefinite_block_is_read(content: Seq<u8>, rest: Seq<u8>)
    requires
        !content.contains(LINE_FEED),
    ensures
        raw_response(seq![HASH, ZERO] + content + seq![LINE_FEED] + rest) == Ok::<
            (Seq<u8>, Seq<u8>),
            BlockError,
        >((content.push(LINE_FEED), rest)),
{
    let input = seq![HASH, ZERO] + content + seq![LINE_FEED] + rest;
    let t1 = input.drop_first();
    let t2 = t1.drop_first();
    let n = content.len() as int;
    assert(t1[0] == ZERO);
    assert(t2 =~= content.push(LINE_FEED) + rest);
    assert forall|i: int| 0 <= i < n implies #[trigger] t2[i] != LINE_FEED by {
        assert(content.contains(content[i]));
    }
    lemma_line_len(t2, n);
    assert(t2.take(n + 1) =~= content.push(LINE_FEED));
    assert(t2.skip(n + 1) =~= rest);
    assert(outcome(Stage::First, Seq::empty(), input) == outcome(Stage::Digit, Seq::empty(), t1));
    assert(outcome(Stage::Digit, Seq::empty(), t1) == outcome(Stage::Line, Seq::empty(), t2));
    assert(Seq::<u8>::empty() + content.push(LINE_FEED) =~= content.push(LINE_FEED));
}

/// A response that does not start with `#` is one line, read as it is, with
/// its line feed.
pub proof fn law_plain_line_is_read(line: Seq<u8>, rest: Seq<u8>)
    requires
        line.len() > 0,
        line[0] != HASH,
        !line.contains(LINE_FEED),
    ensures
        raw_response(line + seq![LINE_FEED] + rest) == Ok::<(Seq<u8>, Seq<u8>), BlockError>(
            (line.push(LINE_FEED), rest),
        ),
{
    let input = line + seq![LINE_FEED] + rest;
    let t = input.drop_first();
    let n = line.len() - 1;
    assert forall|i: int| 0 <= i < n implies #[trigger] t[i] != LINE_FEED by {
        assert(line.contains(line[i + 1]));
    }
    lemma_line_len(t, n);
    assert(t.take(n + 1) =~= line.drop_first().push(LINE_FEED));
    assert(t.skip(n + 1) =~= rest);
    assert(Seq::<u8>::empty().push(line[0]) + line.drop_first().push(LINE_FEED) =~= line.push(
        LINE_FEED,
    ));
    assert(input[0] == line[0]);
    assert(raw_response(input) == outcome(Stage::Line, Seq::<u8>::empty().push(line[0]), t));
}

// ---------------------------------------------------------------------------
// Responses that are cut short or malformed
// ---------------------------------------------------------------------------

/// The wire form of a block: `#`, the number of length digits as one digit,
/// these digits, and the payload.
pub proof fn law_block_layout(block: Block)
    requires
        block.well_formed(),
    ensures
        ({
            let b = block.bytes();
            let n = block.field.len() as int;
            &&& b.len() == 2 + n + block.payload.len()
            &&& b[0] == 0x23
            &&& b[1] == 0x30 + n
            &&& b.subrange(2, 2 + n) == block.field
            &&& b.skip(2 + n) == block.payload
            &&& forall|i: int| 0 <= i < n ==> 0x30 <= #[trigger] block.field[i] <= 0x39
        }),
{
    let b = block.bytes();
    let n = block.field.len() as int;
    assert(b.subrange(2, 2 + n) =~= block.field);
    assert(b.skip(2 + n) =~= block.payload);
    let d = field_digits(block.field);
    assert forall|i: int| 0 <= i < n implies 0x30 <= #[trigger] block.field[i] <= 0x39 by {
        assert(CharClass::Digit.has(d[i]));
    }
}

/// A response that ends within a block is cut short, wherever it ends.
pub proof fn law_cut_blocks_are_refused(block: Block, n: int)
    requires
        block.well_formed(),
        0 <= n < block.bytes().len(),
    ensures
        raw_response(block.bytes().take(n)) == Err::<(Seq<u8>, Seq<u8>), BlockError>(
            BlockError::UnexpectedEnd,
        ),
{
    let input = block.bytes().take(n);
    if n > 0 {
        assert(input[0] == HASH);
        lemma_cut_behind_hash(Seq::empty(), block, n);
    }
}

/// Behind `#` a digit must stand.
pub proof fn law_bad_digits_are_refused(b: u8, rest: Seq<u8>)
    requires
        !(0x30 <= b <= 0x39),
    ensures
        raw_response(seq![0x23u8, b] + rest) == Err::<(Seq<u8>, Seq<u8>), BlockError>(
            BlockError::InvalidDigit,
        ),
{
    let input = seq![0x23u8, b] + rest;
    let t = input.drop_first();
    assert(t[0] == b);
    assert(raw_response(input) == outcome(Stage::Digit, Seq::empty(), t));
}

/// A length field of ASCII characters must read as a number: digits, with a
/// plus sign before them or none.
pub proof fn law_bad_lengths_are_refused(field: Seq<u8>, rest: Seq<u8>)
    requires
        1 <= field.len() <= 9,
        forall|i: int| 0 <= i < field.len() ==> #[trigger] field[i] <= 0x7f,
        exists|i: int|
            0 <= i < field.len() && !(0x30 <= #[trigger] field[i] <= 0x39) && !(i == 0 && field[i]
                == 0x2b && field.len() > 1),
    ensures
        raw_response(seq![0x23u8, (0x30 + field.len()) as u8] + field + rest) == Err::<
            (Seq<u8>, Seq<u8>),
            BlockError,
        >(BlockError::LengthNotNumber),
{
    let d = field_digits(field);
    lemma_ascii_field(field);
    let bad = choose|i: int|
        0 <= i < field.len() && !(0x30 <= #[trigger] field[i] <= 0x39) && !(i == 0 && field[i]
            == 0x2b && field.len() > 1);
    assert(field[bad] <= 0x7f);
    assert(!CharClass::Digit.has(d[bad]));
    let tail = d.drop_first();
    if bad > 0 {
        assert(tail[bad - 1] == d[bad]);
        assert(!all_digits(tail));
    }
    assert(!all_digits(d));
    assert(unsigned_value(d, usize::MAX as int) is None);
    lemma_up_to_the_length(field, rest);
}

/// A length field that is not UTF-8 is refused as such.
pub proof fn law_unreadable_lengths_are_refused(field: Seq<u8>, rest: Seq<u8>)
    requires
        1 <= field.len() <= 9,
        !valid_utf8(field),
    ensures
        raw_response(seq![0x23u8, (0x30 + field.len()) as u8] + field + rest) == Err::<
            (Seq<u8>, Seq<u8>),
            BlockError,
        >(BlockError::LengthNotText),
{
    lemma_up_to_the_length(field, rest);
}

/// Lines that the end cuts off are read as far as they go, and where there is
/// nothing at all the response is cut short.
pub proof fn law_lines_may_end_without_a_line_feed(line: Seq<u8>, content: Seq<u8>)
    requires
        line.len() > 0,
        line[0] != 0x23,
        forall|i: int| 1 <= i < line.len() ==> #[trigger] line[i] != 0x0a,
        forall|i: int| 0 <= i < content.len() ==> #[trigger] content[i] != 0x0a,
    ensures
        raw_response(line) == Ok::<(Seq<u8>, Seq<u8>), BlockError>((line, Seq::empty())),
        raw_response(seq![0x23u8, 0x30u8] + content) == Ok::<(Seq<u8>, Seq<u8>), BlockError>(
            (content, Seq::empty()),
        ),
        raw_response(Seq::empty()) == Err::<(Seq<u8>, Seq<u8>), BlockError>(
            BlockError::UnexpectedEnd,
        ),
{
    let t = line.drop_first();
    lemma_line_len(t, t.len() as int);
    assert(raw_response(line) == outcome(Stage::Line, Seq::<u8>::empty().push(line[0]), t));
    assert(Seq::<u8>::empty().push(line[0]) + t.take(t.len() as int) =~= line);
    assert(t.skip(t.len() as int) =~= Seq::empty());
    let input = seq![0x23u8, 0x30u8] + content;
    let t1 = input.drop_first();
    assert(t1[0] == ZERO);
    assert(t1.drop_first() =~= content);
    lemma_line_len(content, content.len() as int);
    assert(raw_response(input) == outcome(Stage::Digit, Seq::empty(), t1));
    assert(outcome(Stage::Digit, Seq::empty(), t1) == outcome(Stage::Line, Seq::empty(), content));
    assert(Seq::<u8>::empty() + content.take(content.len() as int) =~= content);
    assert(content.skip(content.len() as int) =~= Seq::empty());
}

/// What is read and what is left unread are all there was, but for what frames
/// the data: nothing that follows a response is lost.
pub proof fn law_what_follows_is_left(input: Seq<u8>)
    ensures
        raw_response(input) matches Ok((data, rest)) ==> rest.len() < input.len() && rest
            == input.skip(input.len() - rest.len()) && data.len() + rest.len() <= input.len(),
{
    lemma_outcome_is_left(Stage::First, Seq::empty(), input);
}

proof fn lemma_outcome_is_left(stage: Stage, data: Seq<u8>, input: Seq<u8>)
    ensures
        outcome(stage, data, input) matches Ok((all, rest)) ==> {
            &&& rest.len() <= input.len()
            &&& rest == input.skip(input.len() - rest.len())
            &&& all.len() + rest.len() <= data.len() + input.len()
            &&& stage == Stage::First ==> rest.len() < input.len()
        },
    decreases input.len(), rank(stage),
{
    let tail = input.drop_first();
    match stage {
        Stage::First => {
            if input.len() > 0 {
                lemma_outcome_is_left(Stage::Digit, data, tail);
                lemma_outcome_is_left(Stage::Line, data.push(input[0]), tail);
            }
        },
        Stage::Digit => {
            if input.len() > 0 {
                lemma_outcome_is_left(Stage::Line, data, tail);
                if ZERO < input[0] <= ZERO + 9 {
                    lemma_outcome_is_left(
                        Stage::Length((input[0] - ZERO) as usize),
                        data,
                        tail,
                    );
                }
            }
        },
        Stage::Length(n) => {
            if input.len() >= n {
                if let Ok(length) = field_length(input.take(n as int)) {
                    lemma_outcome_is_left(Stage::Payload(length), data, input.skip(n as int));
                }
            }
        },
        Stage::Payload(n) => {
            if input.len() >= n {
                lemma_outcome_is_left(
                    Stage::Next,
                    data + input.take(n as int),
                    input.skip(n as int),
                );
            }
        },
        Stage::Next => {
            if input.len() > 0 {
                lemma_outcome_is_left(Stage::Digit, data, tail);
                lemma_outcome_is_left(Stage::AfterReturn, data, tail);
            }
        },
        Stage::Line => {
            lemma_line_len_bound(input);
        },
        _ => {},
    }
    if let Ok((_, rest)) = outcome(stage, data, input) {
        assert(rest =~= input.skip(input.len() - rest.len()));
    }
}

proof fn lemma_line_len_bound(input: Seq<u8>)
    ensures
        0 <= line_len(input) <= input.len(),
    decreases input.len(),
{
    if input.len() > 0 && input[0] != LINE_FEED {
        lemma_line_len_bound(input.drop_first());
    }
}

/// A later block that is cut short makes the whole response cut short: what
/// the blocks before it brought is not taken for the response.
pub proof fn law_cut_later_blocks_are_refused(blocks: Seq<Block>, block: Block, n: int)
    requires
        blocks.len() > 0,
        forall|i: int| 0 <= i < blocks.len() ==> (#[trigger] blocks[i]).well_formed(),
        block.well_formed(),
        0 < n < block.bytes().len(),
    ensures
        raw_response(blocks_bytes(blocks) + block.bytes().take(n)) == Err::<
            (Seq<u8>, Seq<u8>),
            BlockError,
        >(BlockError::UnexpectedEnd),
{
    let part = block.bytes().take(n);
    let input = blocks_bytes(blocks) + part;
    lemma_cut_behind_blocks(Seq::empty(), blocks, block, n);
    let more = blocks_bytes(blocks.drop_first()) + part;
    assert(input =~= blocks[0].bytes() + more);
    lemma_block_is_read(Seq::empty(), blocks[0], more);
}

proof fn lemma_cut_behind_blocks(data: Seq<u8>, blocks: Seq<Block>, block: Block, n: int)
    requires
        forall|i: int| 0 <= i < blocks.len() ==> (#[trigger] blocks[i]).well_formed(),
        block.well_formed(),
        0 < n < block.bytes().len(),
    ensures
        outcome(Stage::Next, data, blocks_bytes(blocks) + block.bytes().take(n)) == Err::<
            (Seq<u8>, Seq<u8>),
            BlockError,
        >(BlockError::UnexpectedEnd),
    decreases blocks.len(),
{
    let part = block.bytes().take(n);
    let input = blocks_bytes(blocks) + part;
    if blocks.len() == 0 {
        assert(input =~= part);
        assert(part[0] == HASH);
        lemma_cut_behind_hash(data, block, n);
    } else {
        let more = blocks_bytes(blocks.drop_first()) + part;
        assert(input =~= blocks[0].bytes() + more);
        lemma_block_is_read(data, blocks[0], more);
        lemma_cut_behind_blocks(data + blocks[0].payload, blocks.drop_first(), block, n);
    }
}

proof fn lemma_cut_behind_hash(data: Seq<u8>, block: Block, n: int)
    requires
        block.well_formed(),
        0 < n < block.bytes().len(),
    ensures
        outcome(Stage::Digit, data, block.bytes().take(n).drop_first()) == Err::<
            (Seq<u8>, Seq<u8>),
            BlockError,
        >(BlockError::UnexpectedEnd),
{
    let t1 = block.bytes().take(n).drop_first();
    let k = block.field.len() as int;
    if n > 1 {
        assert(t1[0] == ZERO + k);
        let t2 = t1.drop_first();
        assert(outcome(Stage::Digit, data, t1) == outcome(Stage::Length(k as usize), data, t2));
        if n >= 2 + k {
            lemma_field_of_block(block);
            assert(t2.take(k) =~= block.field);
            let t3 = t2.skip(k);
            assert(outcome(Stage::Length(k as usize), data, t2) == outcome(
                Stage::Payload(block.payload.len() as usize),
                data,
                t3,
            ));
            assert(t3.len() < block.payload.len());
        }
    }
}

/// A plus sign before the digits of a length makes no difference, but that it
/// takes up one character of the length field.
pub proof fn law_plus_signs_in_lengths(digits: Seq<u8>, rest: Seq<u8>)
    requires
        1 <= digits.len() <= 8,
        forall|i: int| 0 <= i < digits.len() ==> 0x30 <= #[trigger] digits[i] <= 0x39,
    ensures
        raw_response(seq![0x23u8, (0x31 + digits.len()) as u8, 0x2bu8] + digits + rest)
            == raw_response(seq![0x23u8, (0x30 + digits.len()) as u8] + digits + rest),
{
    let plus = seq![0x2bu8] + digits;
    let n = digits.len() as int;
    lemma_ascii_field(digits);
    lemma_ascii_field(plus);
    let d = field_digits(digits);
    let p = field_digits(plus);
    assert(p.drop_first() =~= d);
    assert(CharClass::Digit.has(d[0])) by {
        assert(0x30 <= digits[0] <= 0x39);
    }
    assert(field_length(plus) == field_length(digits));
    let a = seq![0x23u8, (0x31 + n) as u8, 0x2bu8] + digits + rest;
    assert(a =~= seq![0x23u8, (0x30 + (n + 1)) as u8] + plus + rest);
    lemma_up_to_the_length(plus, rest);
    lemma_up_to_the_length(digits, rest);
}

proof fn lemma_ascii_field(field: Seq<u8>)
    requires
        forall|i: int| 0 <= i < field.len() ==> #[trigger] field[i] <= 0x7f,
    ensures
        valid_utf8(field),
        decode_utf8(field) == field_digits(field),
{
    let d = field_digits(field);
    assert forall|i: int| 0 <= i < d.len() implies '\0' <= #[trigger] d[i] <= '\u{7f}' by {
        assert(field[i] <= 0x7f);
    }
    assert(is_ascii_chars(d));
    is_ascii_chars_encode_utf8(d);
    assert forall|i: int| 0 <= i < d.len() implies encode_utf8(d)[i] == field[i] by {
        assert(field[i] <= 0x7f);
        assert(d[i] as u8 == encode_utf8(d)[i]);
    }
    assert(encode_utf8(d) =~= field);
    encode_utf8_valid_utf8(d);
    encode_utf8_decode_utf8(d);
}

proof fn lemma_up_to_the_length(field: Seq<u8>, rest: Seq<u8>)
    requires
        1 <= field.len() <= 9,
    ensures
        raw_response(seq![0x23u8, (0x30 + field.len()) as u8] + field + rest) == (
        match field_length(field) {
            Err(e) => Err(e),
            Ok(length) => outcome(Stage::Payload(length), Seq::empty(), rest),
        }),
{
    let n = field.len() as int;
    let input = seq![0x23u8, (0x30 + n) as u8] + field + rest;
    let t1 = input.drop_first();
    assert(t1[0] == (0x30 + n) as u8);
    let t2 = t1.drop_first();
    assert(raw_response(input) == outcome(Stage::Digit, Seq::empty(), t1));
    assert(outcome(Stage::Digit, Seq::empty(), t1) == outcome(
        Stage::Length(n as usize),
        Seq::empty(),
        t2,
    ));
    assert(t2.take(n) =~= field);
    assert(t2.skip(n) =~= rest);
}

} // verus!
