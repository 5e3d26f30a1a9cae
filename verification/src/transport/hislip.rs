//! HiSLIP (IVI-6.1): messages, the handshake and credit-based flow control.
//!
//! A client may send a `Data` or `DataEnd` message only while it has
//! credits.  The server grants some in its `InitializeResponse` and one more
//! with every response.

use vstd::prelude::*;
use vstd::utf8::{
    decode_utf8, encode_utf8, encode_utf8_decode_utf8, encode_utf8_valid_utf8, valid_utf8,
};

use crate::binary64::Binary64;
use crate::command::{reads_any, writes_any, Command, Response};
use crate::device::{takes_line, Device, DeviceView};
use crate::number::{decimal, push_decimal};
use crate::text::{texts, trim, trimmed};

verus! {

// ---------------------------------------------------------------------------
// Constants
// ---------------------------------------------------------------------------

/// Default HiSLIP TCP port (IVI-6.1 section 2).
pub const DEFAULT_HISLIP_PORT: u16 = 4880;

/// The first byte of the header prologue, `H`.
pub const PROLOGUE_0: u8 = 0x48;

/// The second byte of the header prologue, `S`.
pub const PROLOGUE_1: u8 = 0x53;

/// Protocol version advertised and expected, the major number.
pub const PROTOCOL_VERSION_MAJOR: u8 = 1;

/// Protocol version advertised and expected, the minor number.
pub const PROTOCOL_VERSION_MINOR: u8 = 0;

/// Default number of initial credits granted by the server to the client
/// in the `InitializeResponse` message (IVI-6.1 section 3.1).  A value of 1
/// lets the client send one Data/DataEnd message before waiting for a
/// server response that replenishes credits.
pub const DEFAULT_INITIAL_CREDITS: u8 = 1;

/// The number of bytes in a message header.
pub const HEADER_LEN: usize = 16;

// ---------------------------------------------------------------------------
// Message types (IVI-6.1 Table 2)
// ---------------------------------------------------------------------------

/// HiSLIP message types.
#[derive(Debug, Clone, Copy, PartialEq, Eq, Structural)]
pub enum MessageType {
    Initialize,
    InitializeResponse,
    Data,
    DataEnd,
    AsyncInitialize,
    AsyncInitializeResponse,
    AsyncMaximumMessageSize,
    AsyncMaximumMessageSizeResponse,
}

/// What can go wrong with a message.
#[derive(Debug, Clone, Copy, PartialEq, Eq, Structural)]
pub enum HislipError {
    /// The input ends within a message.
    UnexpectedEnd,
    /// A message does not start with `HS` but with these bytes.
    InvalidPrologue(u8, u8),
    /// There is no message type with this code.
    UnknownMessageType(u8),
    /// The first message from a client is not `Initialize`.
    ExpectedInitialize,
    /// The first message from a server is not `InitializeResponse` but this.
    ExpectedInitializeResponse(MessageType),
    /// The server granted no initial credits.
    ZeroInitialCredits,
    /// No credits are left.
    NoCredits,
}

/// The name of a message type.
pub open spec fn name_of(t: MessageType) -> Seq<char> {
    match t {
        MessageType::Initialize => "Initialize"@,
        MessageType::InitializeResponse => "InitializeResponse"@,
        MessageType::Data => "Data"@,
        MessageType::DataEnd => "DataEnd"@,
        MessageType::AsyncInitialize => "AsyncInitialize"@,
        MessageType::AsyncInitializeResponse => "AsyncInitializeResponse"@,
        MessageType::AsyncMaximumMessageSize => "AsyncMaximumMessageSize"@,
        MessageType::AsyncMaximumMessageSizeResponse => "AsyncMaximumMessageSizeResponse"@,
    }
}

/// The description of an error.
pub open spec fn error_text(e: HislipError) -> Seq<char> {
    match e {
        HislipError::UnexpectedEnd => "unexpected end of HiSLIP message"@,
        HislipError::InvalidPrologue(a, b) => "invalid HiSLIP prologue: expected 'HS', got '"@
            + seq![a as char, b as char, '\''],
        HislipError::UnknownMessageType(code) => "unknown HiSLIP message type: "@ + decimal(
            code as nat,
        ),
        HislipError::ExpectedInitialize => "expected Initialize message"@,
        HislipError::ExpectedInitializeResponse(t) => "expected InitializeResponse, got "@
            + name_of(t),
        HislipError::ZeroInitialCredits => "server granted zero initial credits"@,
        HislipError::NoCredits => "no HiSLIP credits available \u{2014} cannot send data"@,
    }
}

impl HislipError {
    /// Describe the error.
    pub fn to_string(&self) -> (r: String)
        ensures
            r@ == error_text(*self),
    {
        let mut out = String::new();
        match *self {
            HislipError::UnexpectedEnd => out.append("unexpected end of HiSLIP message"),
            HislipError::InvalidPrologue(a, b) => {
                out.append("invalid HiSLIP prologue: expected 'HS', got '");
                out.push(a as char);
                out.push(b as char);
                out.push('\'');
            },
            HislipError::UnknownMessageType(code) => {
                out.append("unknown HiSLIP message type: ");
                push_decimal(&mut out, code as u64);
            },
            HislipError::ExpectedInitialize => out.append("expected Initialize message"),
            HislipError::ExpectedInitializeResponse(t) => {
                out.append("expected InitializeResponse, got ");
                out.append(t.name());
            },
            HislipError::ZeroInitialCredits => out.append("server granted zero initial credits"),
            HislipError::NoCredits => out.append(
                "no HiSLIP credits available \u{2014} cannot send data",
            ),
        }
        assert(out@ =~= error_text(*self));
        out
    }
}

/// The code of a message type (IVI-6.1 Table 2).
pub open spec fn type_code(t: MessageType) -> u8 {
    match t {
        MessageType::Initialize => 0,
        MessageType::InitializeResponse => 1,
        MessageType::Data => 2,
        MessageType::DataEnd => 3,
        MessageType::AsyncInitialize => 6,
        MessageType::AsyncInitializeResponse => 7,
        MessageType::AsyncMaximumMessageSize => 8,
        MessageType::AsyncMaximumMessageSizeResponse => 9,
    }
}

/// The message type that a code stands for.
pub open spec fn type_of(code: u8) -> Option<MessageType> {
    if code == 0 {
        Some(MessageType::Initialize)
    } else if code == 1 {
        Some(MessageType::InitializeResponse)
    } else if code == 2 {
        Some(MessageType::Data)
    } else if code == 3 {
        Some(MessageType::DataEnd)
    } else if code == 6 {
        Some(MessageType::AsyncInitialize)
    } else if code == 7 {
        Some(MessageType::AsyncInitializeResponse)
    } else if code == 8 {
        Some(MessageType::AsyncMaximumMessageSize)
    } else if code == 9 {
        Some(MessageType::AsyncMaximumMessageSizeResponse)
    } else {
        None
    }
}

impl MessageType {
    /// The name of this message type.
    pub fn name(self) -> (r: &'static str)
        ensures
            r@ == name_of(self),
    {
        match self {
            MessageType::Initialize => "Initialize",
            MessageType::InitializeResponse => "InitializeResponse",
            MessageType::Data => "Data",
            MessageType::DataEnd => "DataEnd",
            MessageType::AsyncInitialize => "AsyncInitialize",
            MessageType::AsyncInitializeResponse => "AsyncInitializeResponse",
            MessageType::AsyncMaximumMessageSize => "AsyncMaximumMessageSize",
            MessageType::AsyncMaximumMessageSizeResponse => "AsyncMaximumMessageSizeResponse",
        }
    }

    /// The code of this message type.
    pub fn code(self) -> (r: u8)
        ensures
            r == type_code(self),
    {
        match self {
            MessageType::Initialize => 0,
            MessageType::InitializeResponse => 1,
            MessageType::Data => 2,
            MessageType::DataEnd => 3,
            MessageType::AsyncInitialize => 6,
            MessageType::AsyncInitializeResponse => 7,
            MessageType::AsyncMaximumMessageSize => 8,
            MessageType::AsyncMaximumMessageSizeResponse => 9,
        }
    }

    /// The message type with the given code.
    pub fn from_u8(val: u8) -> (r: Result<Self, HislipError>)
        ensures
            match type_of(val) {
                Some(t) => r == Ok::<MessageType, HislipError>(t),
                None => r == Err::<MessageType, HislipError>(HislipError::UnknownMessageType(val)),
            },
    {
        match val {
            0 => Ok(MessageType::Initialize),
            1 => Ok(MessageType::InitializeResponse),
            2 => Ok(MessageType::Data),
            3 => Ok(MessageType::DataEnd),
            6 => Ok(MessageType::AsyncInitialize),
            7 => Ok(MessageType::AsyncInitializeResponse),
            8 => Ok(MessageType::AsyncMaximumMessageSize),
            9 => Ok(MessageType::AsyncMaximumMessageSizeResponse),
            other => Err(HislipError::UnknownMessageType(other)),
        }
    }
}

/// A message type and its code determine each other.
pub proof fn law_type_codes(t: MessageType, code: u8)
    ensures
        type_of(code) == Some(t) <==> code == type_code(t),
{
}

// ---------------------------------------------------------------------------
// Bytes of integers
// ---------------------------------------------------------------------------

/// The lowest `width` bytes of `n`, the highest first.
pub open spec fn big_endian(n: nat, width: nat) -> Seq<u8>
    decreases width,
{
    if width == 0 {
        Seq::empty()
    } else {
        big_endian(n / 256, (width - 1) as nat).push((n % 256) as u8)
    }
}

/// The number that bytes stand for, the highest first.
pub open spec fn big_endian_value(bytes: Seq<u8>) -> nat
    decreases bytes.len(),
{
    if bytes.len() == 0 {
        0
    } else {
        big_endian_value(bytes.drop_last()) * 256 + bytes.last() as nat
    }
}

proof fn lemma_big_endian_reads_back(n: nat, width: nat)
    requires
        n < vstd::arithmetic::power::pow(256, width),
    ensures
        big_endian(n, width).len() == width,
        big_endian_value(big_endian(n, width)) == n,
    decreases width,
{
    if width == 0 {
        vstd::arithmetic::power::lemma_pow0(256);
    } else {
        vstd::arithmetic::power::lemma_pow1(256);
        vstd::arithmetic::power::lemma_pow_adds(256, 1, (width - 1) as nat);
        lemma_big_endian_reads_back(n / 256, (width - 1) as nat);
        let bytes = big_endian(n, width);
        assert(bytes.drop_last() =~= big_endian(n / 256, (width - 1) as nat));
    }
}

/// Append the lowest `width` bytes of `n`, the highest first.
fn push_big_endian(out: &mut Vec<u8>, n: u64, width: usize)
    ensures
        final(out)@ == old(out)@ + big_endian(n as nat, width as nat),
    decreases width,
{
    if width > 0 {
        push_big_endian(out, n / 256, width - 1);
        out.push((n % 256) as u8);
    }
    proof {
        assert(out@ =~= old(out)@ + big_endian(n as nat, width as nat));
    }
}

/// The number that `bytes[from..to]` stand for, the highest first.
fn read_big_endian(bytes: &[u8], from: usize, to: usize) -> (r: u64)
    requires
        from <= to <= bytes@.len(),
        to - from <= 8,
    ensures
        r == big_endian_value(bytes@.subrange(from as int, to as int)),
{
    let mut value: u64 = 0;
    let mut i: usize = from;
    proof {
        vstd::arithmetic::power::lemma_pow0(256);
        assert(bytes@.subrange(from as int, from as int) =~= Seq::empty());
    }
    while i < to
        invariant
            from <= i <= to <= bytes@.len(),
            to - from <= 8,
            value == big_endian_value(bytes@.subrange(from as int, i as int)),
            value < vstd::arithmetic::power::pow(256, (i - from) as nat),
        decreases to - i,
    {
        proof {
            let k = (i - from) as nat;
            vstd::arithmetic::power::lemma_pow1(256);
            vstd::arithmetic::power::lemma_pow_adds(256, k, 1);
            vstd::arithmetic::power::lemma_pow_increases(256, k + 1, 8);
            assert(vstd::arithmetic::power::pow(256, 8) == 0x1_0000_0000_0000_0000int) by {
                reveal_with_fuel(vstd::arithmetic::power::pow, 9);
            }
            let s = bytes@.subrange(from as int, i + 1);
            assert(s.drop_last() =~= bytes@.subrange(from as int, i as int));
        }
        value = value * 256 + bytes[i] as u64;
        i = i + 1;
    }
    value
}

// ---------------------------------------------------------------------------
// Message
// ---------------------------------------------------------------------------

/// The header of a message.
#[derive(Debug, Clone, Copy, PartialEq, Eq, Structural)]
pub struct Header {
    pub message_type: MessageType,
    pub control_code: u8,
    pub message_parameter: u32,
    /// The number of payload bytes that follow.
    pub payload_length: u64,
}

/// A single HiSLIP message (header + optional payload).
///
/// Wire format (IVI-6.1 section 2.2):
/// ```text
///  0      1      2      3      4      5      6      7
/// +------+------+------+------+------+------+------+------+
/// | 'H'  | 'S'  | type |ctrl_c|   message_parameter      |
/// +------+------+------+------+------+------+------+------+
/// |              payload_length (u64)                      |
/// +------+------+------+------+------+------+------+------+
/// |              payload (variable)                        |
/// +------+------+------+------+------+------+------+------+
/// ```
#[derive(Debug, Clone)]
pub struct Message {
    pub message_type: MessageType,
    pub control_code: u8,
    pub message_parameter: u32,
    pub payload: Vec<u8>,
}

/// What a [`Message`] stands for.
#[verifier::ext_equal]
pub struct MessageView {
    pub message_type: MessageType,
    pub control_code: u8,
    pub message_parameter: u32,
    pub payload: Seq<u8>,
}

impl View for Message {
    type V = MessageView;

    open spec fn view(&self) -> MessageView {
        MessageView {
            message_type: self.message_type,
            control_code: self.control_code,
            message_parameter: self.message_parameter,
            payload: self.payload@,
        }
    }
}

/// What a sequence of messages stands for.
pub open spec fn message_views(messages: Seq<Message>) -> Seq<MessageView> {
    Seq::new(messages.len(), |i: int| messages[i]@)
}

/// A message on the wire.
pub open spec fn message_bytes(m: MessageView) -> Seq<u8> {
    seq![PROLOGUE_0, PROLOGUE_1, type_code(m.message_type), m.control_code] + big_endian(
        m.message_parameter as nat,
        4,
    ) + big_endian(m.payload.len(), 8) + m.payload
}

/// The header that 16 bytes hold.
pub open spec fn header_of(bytes: Seq<u8>) -> Result<Header, HislipError> {
    if bytes[0] != PROLOGUE_0 || bytes[1] != PROLOGUE_1 {
        Err(HislipError::InvalidPrologue(bytes[0], bytes[1]))
    } else if type_of(bytes[2]) is None {
        Err(HislipError::UnknownMessageType(bytes[2]))
    } else {
        Ok(
            Header {
                message_type: type_of(bytes[2])->0,
                control_code: bytes[3],
                message_parameter: big_endian_value(bytes.subrange(4, 8)) as u32,
                payload_length: big_endian_value(bytes.subrange(8, 16)) as u64,
            },
        )
    }
}

/// The message that bytes start with, and the bytes behind it.
pub open spec fn message_of(bytes: Seq<u8>) -> Result<(MessageView, Seq<u8>), HislipError> {
    if bytes.len() < HEADER_LEN {
        Err(HislipError::UnexpectedEnd)
    } else {
        match header_of(bytes.take(HEADER_LEN as int)) {
            Err(e) => Err(e),
            Ok(h) => {
                let end = HEADER_LEN + h.payload_length;
                if bytes.len() < end {
                    Err(HislipError::UnexpectedEnd)
                } else {
                    Ok(
                        (
                            MessageView {
                                message_type: h.message_type,
                                control_code: h.control_code,
                                message_parameter: h.message_parameter,
                                payload: bytes.subrange(HEADER_LEN as int, end),
                            },
                            bytes.skip(end),
                        ),
                    )
                }
            },
        }
    }
}

/// What is left to read of bytes that hold no message.
pub open spec fn after_error(bytes: Seq<u8>, e: HislipError) -> Seq<u8> {
    if e == HislipError::UnexpectedEnd {
        Seq::empty()
    } else {
        bytes.skip(HEADER_LEN as int)
    }
}

proof fn lemma_big_endian_bound(bytes: Seq<u8>)
    ensures
        big_endian_value(bytes) < vstd::arithmetic::power::pow(256, bytes.len()),
    decreases bytes.len(),
{
    vstd::arithmetic::power::lemma_pow0(256);
    if bytes.len() > 0 {
        vstd::arithmetic::power::lemma_pow1(256);
        vstd::arithmetic::power::lemma_pow_adds(256, (bytes.len() - 1) as nat, 1);
        lemma_big_endian_bound(bytes.drop_last());
    }
}

impl Header {
    /// Read a header from its 16 bytes.
    pub fn decode(bytes: &[u8]) -> (r: Result<Header, HislipError>)
        requires
            bytes@.len() == HEADER_LEN,
        ensures
            r == header_of(bytes@),
    {
        // Validate prologue.
        if bytes[0] != PROLOGUE_0 || bytes[1] != PROLOGUE_1 {
            return Err(HislipError::InvalidPrologue(bytes[0], bytes[1]));
        }
        let message_type = match MessageType::from_u8(bytes[2]) {
            Ok(t) => t,
            Err(e) => {
                return Err(e);
            },
        };
        let message_parameter: u64 = read_big_endian(bytes, 4, 8);
        let payload_length: u64 = read_big_endian(bytes, 8, 16);
        proof {
            lemma_big_endian_bound(bytes@.subrange(4, 8));
            assert(vstd::arithmetic::power::pow(256, 4) == 0x1_0000_0000int) by {
                reveal_with_fuel(vstd::arithmetic::power::pow, 5);
            }
        }
        Ok(
            Header {
                message_type,
                control_code: bytes[3],
                message_parameter: message_parameter as u32,
                payload_length,
            },
        )
    }
}

impl Message {
    /// Build a new [`Message`] with the given fields and an empty payload.
    pub fn new(message_type: MessageType, control_code: u8, message_parameter: u32) -> (r: Self)
        ensures
            r@ == (MessageView {
                message_type,
                control_code,
                message_parameter,
                payload: Seq::empty(),
            }),
    {
        Message { message_type, control_code, message_parameter, payload: Vec::new() }
    }

    /// Build a new [`Message`] with a payload.
    pub fn with_payload(
        message_type: MessageType,
        control_code: u8,
        message_parameter: u32,
        payload: Vec<u8>,
    ) -> (r: Self)
        ensures
            r@ == (MessageView {
                message_type,
                control_code,
                message_parameter,
                payload: payload@,
            }),
    {
        Message { message_type, control_code, message_parameter, payload }
    }

    /// Serialise the message into its wire representation.
    pub fn to_bytes(&self) -> (r: Vec<u8>)
        ensures
            r@ == message_bytes(self@),
    {
        let mut buf: Vec<u8> = Vec::new();
        buf.push(PROLOGUE_0);
        buf.push(PROLOGUE_1);
        buf.push(self.message_type.code());
        buf.push(self.control_code);
        push_big_endian(&mut buf, self.message_parameter as u64, 4);
        push_big_endian(&mut buf, self.payload.len() as u64, 8);
        buf.extend_from_slice(self.payload.as_slice());
        assert(buf@ =~= message_bytes(self@));
        buf
    }

    /// Read a [`Message`] from the front of the given bytes and move them
    /// past it.  On an error they are past what was read by then: the header
    /// where that is bad, and everything where the message is cut short.
    pub fn read_from(reader: &mut &[u8]) -> (r: Result<Self, HislipError>)
        ensures
            match r {
                Ok(m) => message_of((*old(reader))@) == Ok::<(MessageView, Seq<u8>), HislipError>(
                    (m@, (*final(reader))@),
                ),
                Err(e) => message_of((*old(reader))@) == Err::<
                    (MessageView, Seq<u8>),
                    HislipError,
                >(e) && (*final(reader))@ == after_error((*old(reader))@, e),
            },
    {
        let bytes: &[u8] = *reader;
        // Nothing is left unless a whole message is found.
        *reader = vstd::slice::slice_subrange(bytes, bytes.len(), bytes.len());
        assert((*reader)@ =~= Seq::<u8>::empty());
        if bytes.len() < HEADER_LEN {
            return Err(HislipError::UnexpectedEnd);
        }
        let head = vstd::slice::slice_subrange(bytes, 0, HEADER_LEN);
        assert(head@ =~= bytes@.take(HEADER_LEN as int));
        let header = match Header::decode(head) {
            Ok(h) => h,
            Err(e) => {
                *reader = vstd::slice::slice_subrange(bytes, HEADER_LEN, bytes.len());
                assert((*reader)@ =~= bytes@.skip(HEADER_LEN as int));
                return Err(e);
            },
        };
        let available: usize = bytes.len() - HEADER_LEN;
        if (available as u64) < header.payload_length {
            return Err(HislipError::UnexpectedEnd);
        }
        let end: usize = HEADER_LEN + header.payload_length as usize;
        let payload = vstd::slice::slice_to_vec(
            vstd::slice::slice_subrange(bytes, HEADER_LEN, end),
        );
        *reader = vstd::slice::slice_subrange(bytes, end, bytes.len());
        assert((*reader)@ =~= bytes@.skip(end as int));
        Ok(
            Message {
                message_type: header.message_type,
                control_code: header.control_code,
                message_parameter: header.message_parameter,
                payload,
            },
        )
    }
}

/// A message that is written to the wire is read back, whatever follows it.
pub proof fn law_messages_are_read_back(m: MessageView, rest: Seq<u8>)
    requires
        m.payload.len() <= u64::MAX,
    ensures
        message_of(message_bytes(m) + rest) == Ok::<(MessageView, Seq<u8>), HislipError>((m, rest)),
        message_bytes(m).len() == HEADER_LEN + m.payload.len(),
{
    let bytes = message_bytes(m) + rest;
    assert(vstd::arithmetic::power::pow(256, 4) == 0x1_0000_0000int) by {
        reveal_with_fuel(vstd::arithmetic::power::pow, 5);
    }
    assert(vstd::arithmetic::power::pow(256, 8) == 0x1_0000_0000_0000_0000int) by {
        reveal_with_fuel(vstd::arithmetic::power::pow, 9);
    }
    lemma_big_endian_reads_back(m.message_parameter as nat, 4);
    lemma_big_endian_reads_back(m.payload.len(), 8);
    let head = bytes.take(HEADER_LEN as int);
    assert(head.subrange(4, 8) =~= big_endian(m.message_parameter as nat, 4));
    assert(head.subrange(8, 16) =~= big_endian(m.payload.len(), 8));
    law_type_codes(m.message_type, head[2]);
    let end = (HEADER_LEN + m.payload.len()) as int;
    assert(bytes.subrange(HEADER_LEN as int, end) =~= m.payload);
    assert(bytes.skip(end) =~= rest);
}

/// Bytes that do not start with the prologue hold no message, and neither do
/// bytes with an unknown type.
pub proof fn law_bad_headers_are_refused(bytes: Seq<u8>)
    requires
        bytes.len() >= HEADER_LEN,
    ensures
        bytes[0] != PROLOGUE_0 || bytes[1] != PROLOGUE_1 ==> message_of(bytes) == Err::<
            (MessageView, Seq<u8>),
            HislipError,
        >(HislipError::InvalidPrologue(bytes[0], bytes[1])),
        bytes[0] == PROLOGUE_0 && bytes[1] == PROLOGUE_1 && type_of(bytes[2]) is None
            ==> message_of(bytes) == Err::<(MessageView, Seq<u8>), HislipError>(
            HislipError::UnknownMessageType(bytes[2]),
        ),
{
}

// ---------------------------------------------------------------------------
// Protocol helpers
// ---------------------------------------------------------------------------

/// The protocol version in 16 bits: the major number and the minor number.
pub open spec fn version_word() -> int {
    PROTOCOL_VERSION_MAJOR * 256 + PROTOCOL_VERSION_MINOR
}

/// Build an `Initialize` message (client to server).
///
/// `message_parameter` layout (IVI-6.1 section 3.1):
///   bits 31-16: client protocol version (major << 8 | minor)
///   bits 15-0 : client vendor ID (we use 0)
pub fn init_request() -> (r: Message)
    ensures
        r@ == (MessageView {
            message_type: MessageType::Initialize,
            control_code: 0,
            message_parameter: (version_word() * 0x1_0000) as u32,
            payload: Seq::empty(),
        }),
{
    let version: u32 = (PROTOCOL_VERSION_MAJOR as u32) * 256 + PROTOCOL_VERSION_MINOR as u32;
    Message::new(MessageType::Initialize, 0, version * 0x1_0000)
}

/// The answer to an `Initialize` message.
pub open spec fn initialize_response(session_id: u16, initial_credits: u8) -> MessageView {
    MessageView {
        message_type: MessageType::InitializeResponse,
        control_code: initial_credits,
        message_parameter: (session_id * 0x1_0000 + version_word()) as u32,
        payload: Seq::empty(),
    }
}

/// Build an `InitializeResponse` message (server to client).
///
/// `control_code` carries the **initial credit grant** (IVI-6.1 section 3.1,
/// Table 4).  A non-zero value tells the client how many Data/DataEnd
/// messages it may send before waiting for additional credits.  The overlap
/// mode is synchronised, which adds nothing to it.
///
/// `message_parameter` layout (IVI-6.1 section 3.1):
///   bits 31-16: session_id
///   bits 15-8 : server protocol version major
///   bits  7-0 : server protocol version minor
pub fn init_response(session_id: u16, initial_credits: u8) -> (r: Message)
    ensures
        r@ == initialize_response(session_id, initial_credits),
{
    let version: u32 = (PROTOCOL_VERSION_MAJOR as u32) * 256 + PROTOCOL_VERSION_MINOR as u32;
    let response_param: u32 = (session_id as u32) * 0x1_0000 + version;
    Message::new(MessageType::InitializeResponse, initial_credits, response_param)
}

/// Build an `AsyncInitialize` message (client to server, async channel).
///
/// `message_parameter` carries the session_id obtained from the
/// `InitializeResponse`.
pub fn async_init_request(session_id: u16) -> (r: Message)
    ensures
        r@ == (MessageView {
            message_type: MessageType::AsyncInitialize,
            control_code: 0,
            message_parameter: session_id as u32,
            payload: Seq::empty(),
        }),
{
    Message::new(MessageType::AsyncInitialize, 0, session_id as u32)
}

/// Build an `AsyncInitializeResponse` message (server to client).
///
/// The server echoes back a vendor ID (0 for us).
pub fn async_init_response() -> (r: Message)
    ensures
        r@ == (MessageView {
            message_type: MessageType::AsyncInitializeResponse,
            control_code: 0,
            message_parameter: 0,
            payload: Seq::empty(),
        }),
{
    Message::new(MessageType::AsyncInitializeResponse, 0, 0)
}

/// The bytes of a text.
fn bytes_of(s: &str) -> (r: Vec<u8>)
    ensures
        r@ == encode_utf8(s@),
{
    vstd::slice::slice_to_vec(s.as_bytes())
}

/// What `String::from_utf8_lossy` makes of bytes.
pub uninterp spec fn lossy_text(bytes: Seq<u8>) -> Seq<char>;

/// `String::from_utf8_lossy`: the text that bytes encode, with replacement
/// characters for what is not UTF-8.  Bytes that are UTF-8 give the text
/// that they encode.  Where the replacement characters go is left to the
/// name `lossy_text`.
#[verifier::external_body]
fn from_utf8_lossy(bytes: &[u8]) -> (r: String)
    ensures
        r@ == lossy_text(bytes@),
        valid_utf8(bytes@) ==> r@ == decode_utf8(bytes@),
{
    String::from_utf8_lossy(bytes).into_owned()
}

/// The text that a received payload is taken for: the one that it encodes,
/// or a replacement for it where it is not UTF-8.
pub open spec fn received_text(bytes: Seq<u8>) -> Seq<char> {
    if valid_utf8(bytes) {
        decode_utf8(bytes)
    } else {
        lossy_text(bytes)
    }
}

// ---------------------------------------------------------------------------
// Server
// ---------------------------------------------------------------------------

/// What a HiSLIP server decides at connections: the credits it grants and
/// the session IDs it assigns.
#[derive(Debug, Clone, Copy)]
pub struct Server {
    initial_credits: u8,
    next_session_id: u16,
}

/// The session ID after `id`.  Zero is left out.
pub open spec fn following_id(id: u16) -> u16 {
    if id == u16::MAX {
        1
    } else {
        (id + 1) as u16
    }
}

impl Server {
    /// The number of credits that clients are granted.
    pub closed spec fn initial_credits_spec(&self) -> u8 {
        self.initial_credits
    }

    /// The session ID of the next client.
    pub closed spec fn next_id(&self) -> u16 {
        self.next_session_id
    }

    /// Clients are granted at least one credit, and no session ID is zero.
    pub open spec fn well_formed(&self) -> bool {
        self.initial_credits_spec() > 0 && self.next_id() > 0
    }

    /// A server that grants the default number of credits.
    pub fn new() -> (r: Self)
        ensures
            r.well_formed(),
            r.initial_credits_spec() == DEFAULT_INITIAL_CREDITS,
            r.next_id() == 1,
    {
        Server { initial_credits: DEFAULT_INITIAL_CREDITS, next_session_id: 1 }
    }

    /// Set the number of initial credits granted to clients in the
    /// `InitializeResponse`.
    ///
    /// Must be at least 1 so clients are allowed to send data.
    pub fn set_initial_credits(&mut self, credits: u8)
        requires
            old(self).well_formed(),
            credits > 0,
        ensures
            final(self).well_formed(),
            final(self).initial_credits_spec() == credits,
            final(self).next_id() == old(self).next_id(),
    {
        self.initial_credits = credits;
    }

    /// Return the number of initial credits.
    pub fn initial_credits(&self) -> (r: u8)
        ensures
            r == self.initial_credits_spec(),
    {
        self.initial_credits
    }

    /// Assign a session ID to a new connection and grant it the initial
    /// credits.
    pub fn grant(&mut self) -> (r: Grant)
        requires
            old(self).well_formed(),
        ensures
            final(self).well_formed(),
            final(self).next_id() == following_id(old(self).next_id()),
            final(self).initial_credits_spec() == old(self).initial_credits_spec(),
            r.well_formed(),
            r.session_id() == old(self).next_id(),
            r.initial_credits() == old(self).initial_credits_spec(),
    {
        let session_id: u16 = self.next_session_id;
        self.next_session_id = if session_id == u16::MAX { 1 } else { session_id + 1 };
        Grant { session_id, initial_credits: self.initial_credits }
    }

    /// Take a new connection whose first message has come: assign the session
    /// ID, and answer an `Initialize` with it and the initial credits.
    pub fn accept(&mut self, init_msg: &Message) -> (r: Result<Message, HislipError>)
        requires
            old(self).well_formed(),
        ensures
            final(self).well_formed(),
            final(self).next_id() == following_id(old(self).next_id()),
            final(self).initial_credits_spec() == old(self).initial_credits_spec(),
            match r {
                Ok(resp) => init_msg.message_type == MessageType::Initialize && resp@
                    == initialize_response(old(self).next_id(), old(self).initial_credits_spec())
                    && resp.control_code > 0,
                Err(e) => init_msg.message_type != MessageType::Initialize && e
                    == HislipError::ExpectedInitialize,
            },
    {
        self.grant().accept(init_msg)
    }
}

/// What a server grants one connection.
#[derive(Debug)]
pub struct Grant {
    session_id: u16,
    initial_credits: u8,
}

impl Grant {
    /// The session ID of the connection.
    pub closed spec fn session_id(&self) -> u16 {
        self.session_id
    }

    /// The credits that the client starts with.
    pub closed spec fn initial_credits(&self) -> u8 {
        self.initial_credits
    }

    /// There is at least one credit, and the session ID is not zero.
    pub open spec fn well_formed(&self) -> bool {
        self.initial_credits() > 0 && self.session_id() > 0
    }

    /// Answer the first message of the client: an `Initialize` gets an
    /// `InitializeResponse` with the initial credits, and anything else is
    /// refused.
    pub fn accept(&self, init_msg: &Message) -> (r: Result<Message, HislipError>)
        requires
            self.well_formed(),
        ensures
            match r {
                Ok(resp) => init_msg.message_type == MessageType::Initialize && resp@
                    == initialize_response(self.session_id(), self.initial_credits())
                    && resp.control_code > 0,
                Err(e) => init_msg.message_type != MessageType::Initialize && e
                    == HislipError::ExpectedInitialize,
            },
    {
        if init_msg.message_type != MessageType::Initialize {
            return Err(HislipError::ExpectedInitialize);
        }
        Ok(init_response(self.session_id, self.initial_credits))
    }
}

/// The session ID that the `n`th client gets, counted from zero.
pub open spec fn nth_session_id(n: nat) -> u16
    decreases n,
{
    if n == 0 {
        1
    } else {
        following_id(nth_session_id((n - 1) as nat))
    }
}

/// Session IDs count from 1 to 65535 and start over.  None is zero, and a
/// session ID comes again only after all others.
pub proof fn law_session_ids_cycle(n: nat)
    ensures
        nth_session_id(n) == n % 65535 + 1,
        nth_session_id(n) != 0,
    decreases n,
{
    if n > 0 {
        law_session_ids_cycle((n - 1) as nat);
    }
}

/// One response of a server: a line, and one credit for the next message.
pub open spec fn response_message(line: Seq<char>) -> MessageView {
    MessageView {
        message_type: MessageType::DataEnd,
        control_code: 1,
        message_parameter: 0,
        payload: encode_utf8(line),
    }
}

/// One response for each line.
pub open spec fn response_messages(lines: Seq<Seq<char>>) -> Seq<MessageView> {
    Seq::new(lines.len(), |i: int| response_message(lines[i]))
}

/// How a server may take a message from a client while `pending` is what
/// earlier `Data` messages brought.
///
/// `Data` is collected.  `DataEnd` completes a SCPI message, whose responses
/// are sent.  A maximum message size is acknowledged with an empty message,
/// and any other message is passed over.
pub open spec fn takes_client_message<
    H: Fn(&Command) -> Option<Response>,
    F: Fn(&str) -> Option<Binary64>,
    G: Fn(Binary64) -> String,
>(
    handlers: Seq<H>,
    read: F,
    write: G,
    msg: MessageView,
    pending: Seq<u8>,
    d: DeviceView,
    replies: Seq<MessageView>,
    pending_after: Seq<u8>,
    after: DeviceView,
) -> bool {
    match msg.message_type {
        MessageType::Data => {
            &&& replies.len() == 0
            &&& pending_after == pending + msg.payload
            &&& after == d
        },
        MessageType::DataEnd => {
            &&& pending_after.len() == 0
            &&& exists|lines: Seq<Seq<char>>|
                {
                    &&& #[trigger] takes_line(
                        handlers,
                        read,
                        write,
                        received_text(pending + msg.payload),
                        d,
                        lines,
                        after,
                    )
                    &&& replies == response_messages(lines)
                }
        },
        MessageType::AsyncMaximumMessageSize => {
            &&& replies == seq![
                MessageView {
                    message_type: MessageType::AsyncMaximumMessageSizeResponse,
                    control_code: 0,
                    message_parameter: 0,
                    payload: Seq::empty(),
                },
            ]
            &&& pending_after == pending
            &&& after == d
        },
        _ => {
            &&& replies.len() == 0
            &&& pending_after == pending
            &&& after == d
        },
    }
}

/// The server's end of one connection, once the handshake is done.
#[derive(Debug)]
pub struct ServerSession {
    /// What `Data` messages have brought since the last `DataEnd`.
    pending_data: Vec<u8>,
}

impl View for ServerSession {
    type V = Seq<u8>;

    closed spec fn view(&self) -> Seq<u8> {
        self.pending_data@
    }
}

impl ServerSession {
    /// A session in which nothing has been received.
    pub fn new() -> (r: Self)
        ensures
            r@ == Seq::<u8>::empty(),
    {
        ServerSession { pending_data: Vec::new() }
    }

    /// Take a message from the client, dispatch the SCPI message that it
    /// completes, and return the replies to send.
    ///
    /// With each response the server grants 1 credit back to the client via
    /// the `control_code` field, allowing the client to send the next
    /// message.
    pub fn receive<
        H: Fn(&Command) -> Option<Response>,
        F: Fn(&str) -> Option<Binary64>,
        G: Fn(Binary64) -> String,
    >(&mut self, msg: &Message, device: &mut Device<H>, read: &F, write: &G) -> (r: Vec<Message>)
        requires
            old(device).well_formed(),
            reads_any(*read),
            writes_any(*write),
        ensures
            final(device).well_formed(),
            final(device).handlers() == old(device).handlers(),
            takes_client_message(
                old(device).handlers(),
                *read,
                *write,
                msg@,
                old(self)@,
                old(device)@,
                message_views(r@),
                final(self)@,
                final(device)@,
            ),
    {
        let mut replies: Vec<Message> = Vec::new();
        let ghost pending = self@;
        match msg.message_type {
            MessageType::Data => {
                // Accumulate payload; don't process until DataEnd.
                self.pending_data.extend_from_slice(msg.payload.as_slice());
                assert(self@ =~= pending + msg.payload@);
            },
            MessageType::DataEnd => {
                self.pending_data.extend_from_slice(msg.payload.as_slice());
                assert(self@ =~= pending + msg.payload@);
                let scpi_msg = from_utf8_lossy(self.pending_data.as_slice());
                let lines = device.reply_lines(scpi_msg.as_str(), read, write);
                let ghost all = texts(lines@);
                let mut i: usize = 0;
                while i < lines.len()
                    invariant
                        all == texts(lines@),
                        0 <= i <= lines@.len(),
                        message_views(replies@) == response_messages(all.take(i as int)),
                    decreases lines@.len() - i,
                {
                    let ghost before = replies@;
                    let payload = bytes_of(lines[i].as_str());
                    // Grant 1 credit back in the control_code.
                    let reply = Message::with_payload(MessageType::DataEnd, 1, 0, payload);
                    replies.push(reply);
                    proof {
                        assert(message_views(replies@) =~= message_views(before).push(reply@));
                        assert(response_messages(all.take(i + 1)) =~= response_messages(
                            all.take(i as int),
                        ).push(response_message(all[i as int])));
                    }
                    i = i + 1;
                }
                proof {
                    assert(all.take(i as int) =~= all);
                }
                self.pending_data.clear();
                proof {
                    assert(message_views(replies@) == response_messages(all));
                    assert(takes_line(
                        old(device).handlers(),
                        *read,
                        *write,
                        received_text(old(self)@ + msg@.payload),
                        old(device)@,
                        all,
                        device@,
                    ));
                    assert(takes_client_message(
                        old(device).handlers(),
                        *read,
                        *write,
                        msg@,
                        old(self)@,
                        old(device)@,
                        message_views(replies@),
                        self@,
                        device@,
                    ));
                }
            },
            MessageType::AsyncMaximumMessageSize => {
                let reply = Message::new(MessageType::AsyncMaximumMessageSizeResponse, 0, 0);
                replies.push(reply);
                proof {
                    assert(message_views(replies@) =~= seq![reply@]);
                }
            },
            _ => {
                // Ignore other message types on the sync channel.
            },
        }
        replies
    }
}

// ---------------------------------------------------------------------------
// Client
// ---------------------------------------------------------------------------

/// The client's end of one connection, once the handshake is done.
///
/// # Credit tracking
///
/// The client:
/// 1. Parses the initial credit count from the `control_code` of the
///    `InitializeResponse` message.
/// 2. Decrements the credit count when sending a Data or DataEnd message.
/// 3. Replenishes credits when receiving response messages from the server
///    (the `control_code` of the response carries the credit grant).
///
/// If the client has no credits remaining, [`ClientSession::request`]
/// returns an error rather than violating the protocol by sending without
/// permission.
#[derive(Debug)]
pub struct ClientSession {
    /// Session ID assigned by the server.
    session_id: u16,
    /// Available message credits.
    credits: u32,
}

/// What a [`ClientSession`] stands for.
pub struct ClientView {
    pub session_id: u16,
    pub credits: u32,
}

/// The session that a server's answer to `Initialize` opens.
pub open spec fn opened(resp: MessageView) -> Result<ClientView, HislipError> {
    if resp.message_type != MessageType::InitializeResponse {
        Err(HislipError::ExpectedInitializeResponse(resp.message_type))
    } else if resp.control_code == 0 {
        Err(HislipError::ZeroInitialCredits)
    } else {
        Ok(
            ClientView {
                session_id: (resp.message_parameter / 0x1_0000) as u16,
                credits: resp.control_code as u32,
            },
        )
    }
}

/// The session once a message has been sent.
pub open spec fn spent(c: ClientView) -> ClientView {
    ClientView { credits: (c.credits - 1) as u32, ..c }
}

/// The session once a response has come.
pub open spec fn replenished(c: ClientView, resp: MessageView) -> ClientView {
    ClientView { credits: (c.credits + resp.control_code) as u32, ..c }
}

/// The message that sends a SCPI command or query.
pub open spec fn request_message(command: Seq<char>) -> MessageView {
    MessageView {
        message_type: MessageType::DataEnd,
        control_code: 0,
        message_parameter: 0,
        payload: encode_utf8(command),
    }
}

impl View for ClientSession {
    type V = ClientView;

    closed spec fn view(&self) -> ClientView {
        ClientView { session_id: self.session_id, credits: self.credits }
    }
}

impl ClientSession {
    /// Open the session that the server's answer to `Initialize` grants.
    pub fn open(resp: &Message) -> (r: Result<ClientSession, HislipError>)
        ensures
            match r {
                Ok(session) => opened(resp@) == Ok::<ClientView, HislipError>(session@),
                Err(e) => opened(resp@) == Err::<ClientView, HislipError>(e),
            },
    {
        if resp.message_type != MessageType::InitializeResponse {
            return Err(HislipError::ExpectedInitializeResponse(resp.message_type));
        }
        // The session ID stands in bits 31-16 of message_parameter.
        let session_id: u16 = (resp.message_parameter / 0x1_0000) as u16;
        // The initial credits are the control_code.
        let credits: u32 = resp.control_code as u32;
        if credits == 0 {
            return Err(HislipError::ZeroInitialCredits);
        }
        Ok(ClientSession { session_id, credits })
    }

    /// Return the session ID assigned by the server.
    pub fn session_id(&self) -> (r: u16)
        ensures
            r == self@.session_id,
    {
        self.session_id
    }

    /// Return the number of available credits.
    pub fn credits(&self) -> (r: u32)
        ensures
            r == self@.credits,
    {
        self.credits
    }

    /// Check that at least one credit is available; return an error if not.
    pub fn require_credit(&self) -> (r: Result<(), HislipError>)
        ensures
            r == (if self@.credits == 0 {
                Err::<(), HislipError>(HislipError::NoCredits)
            } else {
                Ok::<(), HislipError>(())
            }),
    {
        if self.credits == 0 {
            return Err(HislipError::NoCredits);
        }
        Ok(())
    }

    /// The message that sends a SCPI command or query.
    ///
    /// Returns an error if no credits are available.
    pub fn request(&self, command: &str) -> (r: Result<Message, HislipError>)
        ensures
            match r {
                Ok(msg) => self@.credits > 0 && msg@ == request_message(command@),
                Err(e) => self@.credits == 0 && e == HislipError::NoCredits,
            },
    {
        match self.require_credit() {
            Err(e) => Err(e),
            Ok(()) => Ok(Message::with_payload(MessageType::DataEnd, 0, 0, bytes_of(command))),
        }
    }

    /// Note that a message has been sent, which uses up a credit.
    pub fn note_sent(&mut self)
        requires
            old(self)@.credits > 0,
        ensures
            final(self)@ == spent(old(self)@),
    {
        self.credits = self.credits - 1;
    }

    /// Take a response: replenish the credits by its `control_code` and
    /// return its text without the white space around it.
    pub fn take_response(&mut self, resp: &Message) -> (r: String)
        requires
            old(self)@.credits + resp.control_code <= u32::MAX,
        ensures
            r@ == trimmed(received_text(resp.payload@)),
            final(self)@ == replenished(old(self)@, resp@),
    {
        self.credits = self.credits + resp.control_code as u32;
        let text = from_utf8_lossy(resp.payload.as_slice());
        trim(text.as_str()).to_owned()
    }
}

// ---------------------------------------------------------------------------
// Laws of a connection
// ---------------------------------------------------------------------------

/// The handshake hands the session ID and the credits over: the client opens
/// the session that the server granted, unless it granted no credits.
pub proof fn law_handshake_hands_over(session_id: u16, credits: u8)
    ensures
        opened(initialize_response(session_id, credits)) == (if credits == 0 {
            Err::<ClientView, HislipError>(HislipError::ZeroInitialCredits)
        } else {
            Ok::<ClientView, HislipError>(ClientView { session_id, credits: credits as u32 })
        }),
{
}

/// The answer to `Initialize` carries the session ID in its upper 16 bits
/// and the protocol version in its lower ones.
pub proof fn law_response_parameter_layout(session_id: u16, credits: u8)
    ensures
        ({
            let p = initialize_response(session_id, credits).message_parameter;
            &&& p / 0x1_0000 == session_id
            &&& p / 0x100 % 0x100 == PROTOCOL_VERSION_MAJOR
            &&& p % 0x100 == PROTOCOL_VERSION_MINOR
        }),
{
}

/// What a client sends reaches the server as it was: the text that the
/// server takes the payload for is the command.
pub proof fn law_requests_are_received(command: Seq<char>)
    ensures
        received_text(request_message(command).payload) == command,
        received_text(Seq::empty() + request_message(command).payload) == command,
{
    encode_utf8_valid_utf8(command);
    encode_utf8_decode_utf8(command);
    assert(Seq::<u8>::empty() + request_message(command).payload =~= encode_utf8(command));
}

/// What a server sends reaches the client as it was, but for white space
/// around it.
pub proof fn law_responses_are_received(line: Seq<char>)
    ensures
        trimmed(received_text(response_message(line).payload)) == trimmed(line),
{
    encode_utf8_valid_utf8(line);
    encode_utf8_decode_utf8(line);
}

/// A query that is answered with one response leaves the credits as they
/// were.
pub proof fn law_answered_queries_keep_credits(c: ClientView, line: Seq<char>)
    requires
        c.credits > 0,
    ensures
        replenished(spent(c), response_message(line)) == c,
{
}

/// The credits that responses grant.
pub open spec fn granted(responses: Seq<MessageView>) -> nat
    decreases responses.len(),
{
    if responses.len() == 0 {
        0
    } else {
        granted(responses.drop_last()) + responses.last().control_code as nat
    }
}

/// The session after a run of queries, each answered with one response.
pub open spec fn after_queries(c: ClientView, responses: Seq<MessageView>) -> ClientView
    decreases responses.len(),
{
    if responses.len() == 0 {
        c
    } else {
        replenished(spent(after_queries(c, responses.drop_last())), responses.last())
    }
}

/// Every one of the queries finds a credit, and the credits stay in range.
pub open spec fn has_credit_for(c: ClientView, responses: Seq<MessageView>) -> bool
    decreases responses.len(),
{
    responses.len() == 0 || {
        let before = after_queries(c, responses.drop_last());
        &&& has_credit_for(c, responses.drop_last())
        &&& before.credits > 0
        &&& before.credits - 1 + responses.last().control_code <= u32::MAX
    }
}

/// Credits are neither lost nor made up: after a run of queries a client has
/// what it had and what it was granted, less one for each query.
pub proof fn law_credits_add_up(c: ClientView, responses: Seq<MessageView>)
    requires
        has_credit_for(c, responses),
    ensures
        after_queries(c, responses).credits == c.credits + granted(responses) - responses.len(),
        after_queries(c, responses).session_id == c.session_id,
    decreases responses.len(),
{
    if responses.len() > 0 {
        law_credits_add_up(c, responses.drop_last());
    }
}

/// A client's request is dispatched as the command that it carries: a server
/// without pending data answers it with the lines of the device.
pub proof fn law_requests_are_dispatched<
    H: Fn(&Command) -> Option<Response>,
    F: Fn(&str) -> Option<Binary64>,
    G: Fn(Binary64) -> String,
>(
    handlers: Seq<H>,
    read: F,
    write: G,
    command: Seq<char>,
    d: DeviceView,
    replies: Seq<MessageView>,
    pending_after: Seq<u8>,
    after: DeviceView,
)
    ensures
        takes_client_message(
            handlers,
            read,
            write,
            request_message(command),
            Seq::empty(),
            d,
            replies,
            pending_after,
            after,
        ) <==> pending_after.len() == 0 && exists|lines: Seq<Seq<char>>|
            {
                &&& #[trigger] takes_line(handlers, read, write, command, d, lines, after)
                &&& replies == response_messages(lines)
            },
{
    law_requests_are_received(command);
}

/// A SCPI message may come in pieces: `Data` messages and a `DataEnd` are
/// taken as one `DataEnd` with all of their payloads.
pub proof fn law_pieces_are_put_together<
    H: Fn(&Command) -> Option<Response>,
    F: Fn(&str) -> Option<Binary64>,
    G: Fn(Binary64) -> String,
>(
    handlers: Seq<H>,
    read: F,
    write: G,
    first: MessageView,
    last: MessageView,
    whole: MessageView,
    pending: Seq<u8>,
    d: DeviceView,
    replies: Seq<MessageView>,
    after: DeviceView,
)
    requires
        first.message_type == MessageType::Data,
        last.message_type == MessageType::DataEnd,
        whole.message_type == MessageType::DataEnd,
        whole.payload == first.payload + last.payload,
    ensures
        takes_client_message(
            handlers,
            read,
            write,
            first,
            pending,
            d,
            Seq::empty(),
            pending + first.payload,
            d,
        ),
        takes_client_message(
            handlers,
            read,
            write,
            last,
            pending + first.payload,
            d,
            replies,
            Seq::empty(),
            after,
        ) == takes_client_message(
            handlers,
            read,
            write,
            whole,
            pending,
            d,
            replies,
            Seq::empty(),
            after,
        ),
{
    assert((pending + first.payload) + last.payload =~= pending + whole.payload);
}

/// Every response grants one credit, and a response is sent for each line.
pub proof fn law_every_response_grants_a_credit(lines: Seq<Seq<char>>)
    ensures
        response_messages(lines).len() == lines.len(),
        forall|i: int|
            0 <= i < lines.len() ==> (#[trigger] response_messages(lines)[i]).control_code == 1
                && response_messages(lines)[i].payload == encode_utf8(lines[i]),
{
}

// ---------------------------------------------------------------------------
// Laws of the wire format
// ---------------------------------------------------------------------------

/// The number that a message type has on the wire.
pub proof fn law_type_numbers(t: MessageType, code: u8)
    ensures
        type_code(t) == (match t {
            MessageType::Initialize => 0u8,
            MessageType::InitializeResponse => 1u8,
            MessageType::Data => 2u8,
            MessageType::DataEnd => 3u8,
            MessageType::AsyncInitialize => 6u8,
            MessageType::AsyncInitializeResponse => 7u8,
            MessageType::AsyncMaximumMessageSize => 8u8,
            MessageType::AsyncMaximumMessageSizeResponse => 9u8,
        }),
        type_of(code) is None <==> code == 4 || code == 5 || code > 9,
{
}

/// The first bytes of a big-endian number are its higher part.
proof fn lemma_big_endian_bytes(n: nat, width: nat)
    ensures
        big_endian(n, width).len() == width,
        width >= 1 ==> big_endian(n, width)[width - 1] == n % 256,
        width >= 1 ==> big_endian(n, width).drop_last() == big_endian(n / 256, (width - 1) as nat),
    decreases width,
{
    if width > 0 {
        lemma_big_endian_bytes(n / 256, (width - 1) as nat);
        assert(big_endian(n, width).drop_last() =~= big_endian(n / 256, (width - 1) as nat));
    }
}

/// Where the fields of a message stand on the wire: `HS`, the type, the
/// control code, the parameter in four bytes and the length of the payload in
/// eight, both with the highest byte first, and the payload.
pub proof fn law_wire_layout(m: MessageView)
    requires
        m.payload.len() <= u64::MAX,
    ensures
        ({
            let b = message_bytes(m);
            let p = m.message_parameter as int;
            let n = m.payload.len() as int;
            &&& b.len() == 16 + n
            &&& b[0] == 0x48 && b[1] == 0x53
            &&& b[2] == type_code(m.message_type)
            &&& b[3] == m.control_code
            &&& b[4] == p / 0x100_0000 && b[5] == p / 0x1_0000 % 256 && b[6] == p / 256 % 256
                && b[7] == p % 256
            &&& n < 0x1_0000_0000 ==> b[8] == 0 && b[9] == 0 && b[10] == 0 && b[11] == 0 && b[12] == n
                / 0x100_0000 && b[13] == n / 0x1_0000 % 256 && b[14] == n / 256 % 256 && b[15] == n
                % 256
            &&& b.skip(16) == m.payload
        }),
{
    let b = message_bytes(m);
    let p = m.message_parameter as nat;
    let n = m.payload.len();
    lemma_big_endian_bytes(p, 4);
    lemma_big_endian_bytes(p / 256, 3);
    lemma_big_endian_bytes(p / 256 / 256, 2);
    lemma_big_endian_bytes(p / 256 / 256 / 256, 1);
    let bp = big_endian(p, 4);
    assert(bp[2] == bp.drop_last()[2]);
    assert(bp[1] == bp.drop_last().drop_last()[1]);
    assert(bp[0] == bp.drop_last().drop_last().drop_last()[0]);
    lemma_big_endian_bytes(n, 8);
    lemma_big_endian_bytes(n / 256, 7);
    lemma_big_endian_bytes(n / 256 / 256, 6);
    lemma_big_endian_bytes(n / 256 / 256 / 256, 5);
    let q = n / 256 / 256 / 256 / 256;
    lemma_big_endian_bytes(q, 4);
    lemma_big_endian_bytes(q / 256, 3);
    lemma_big_endian_bytes(q / 256 / 256, 2);
    lemma_big_endian_bytes(q / 256 / 256 / 256, 1);
    let bn = big_endian(n, 8);
    let d1 = bn.drop_last();
    let d2 = d1.drop_last();
    let d3 = d2.drop_last();
    let d4 = d3.drop_last();
    let d5 = d4.drop_last();
    let d6 = d5.drop_last();
    let d7 = d6.drop_last();
    assert(bn[6] == d1[6] && bn[5] == d2[5] && bn[4] == d3[4] && bn[3] == d4[3] && bn[2] == d5[2]
        && bn[1] == d6[1] && bn[0] == d7[0]);
    assert forall|i: int| 0 <= i < 4 implies b[4 + i] == bp[i] by {}
    assert forall|i: int| 0 <= i < 8 implies b[8 + i] == bn[i] by {}
    assert(b[4] == bp[0] && b[5] == bp[1] && b[6] == bp[2] && b[7] == bp[3]);
    assert(b[8] == bn[0] && b[9] == bn[1] && b[10] == bn[2] && b[11] == bn[3] && b[12] == bn[4]
        && b[13] == bn[5] && b[14] == bn[6] && b[15] == bn[7]);
    assert(b.skip(16) =~= m.payload);
}

/// Bytes that end within a message hold none, and nothing is left of them.
/// Behind a bad header the bytes behind it are left.
pub proof fn law_cut_messages_are_refused(m: MessageView, n: int, bytes: Seq<u8>)
    requires
        m.payload.len() <= u64::MAX,
        0 <= n < message_bytes(m).len(),
    ensures
        message_of(message_bytes(m).take(n)) == Err::<(MessageView, Seq<u8>), HislipError>(
            HislipError::UnexpectedEnd,
        ),
        after_error(bytes, HislipError::UnexpectedEnd).len() == 0,
        forall|e: HislipError|
            e != HislipError::UnexpectedEnd ==> #[trigger] after_error(bytes, e) == bytes.skip(16),
{
    let whole = message_bytes(m);
    let part = whole.take(n);
    law_messages_are_read_back(m, Seq::empty());
    assert(whole + Seq::<u8>::empty() =~= whole);
    if n >= HEADER_LEN {
        assert(part.take(HEADER_LEN as int) =~= whole.take(HEADER_LEN as int));
        let h = header_of(whole.take(HEADER_LEN as int));
        assert(h is Ok);
        assert(h->Ok_0.payload_length == m.payload.len()) by {
            assert(message_of(whole) == Ok::<(MessageView, Seq<u8>), HislipError>(
                (m, Seq::empty()),
            ));
            let end = HEADER_LEN + h->Ok_0.payload_length;
            assert(whole.subrange(HEADER_LEN as int, end) == m.payload);
            assert(whole.subrange(HEADER_LEN as int, end).len() == h->Ok_0.payload_length);
        }
    }
}

/// A message that is read is the one that the bytes in front write: writing it
/// gives these bytes back, and what follows them is left.
pub proof fn law_read_messages_were_written(bytes: Seq<u8>, m: MessageView, rest: Seq<u8>)
    requires
        message_of(bytes) == Ok::<(MessageView, Seq<u8>), HislipError>((m, rest)),
    ensures
        bytes == message_bytes(m) + rest,
{
    let head = bytes.take(HEADER_LEN as int);
    let h = header_of(head)->Ok_0;
    let p4 = head.subrange(4, 8);
    let p8 = head.subrange(8, 16);
    lemma_big_endian_bound(p4);
    lemma_big_endian_bound(p8);
    assert(vstd::arithmetic::power::pow(256, 4) == 0x1_0000_0000int) by {
        reveal_with_fuel(vstd::arithmetic::power::pow, 5);
    }
    assert(vstd::arithmetic::power::pow(256, 8) == 0x1_0000_0000_0000_0000int) by {
        reveal_with_fuel(vstd::arithmetic::power::pow, 9);
    }
    lemma_big_endian_of_value(p4);
    lemma_big_endian_of_value(p8);
    law_type_codes(h.message_type, head[2]);
    assert(m.payload.len() == h.payload_length);
    assert(bytes.take(4) =~= seq![PROLOGUE_0, PROLOGUE_1, type_code(m.message_type), m.control_code]);
    assert(bytes =~= bytes.take(4) + p4 + p8 + m.payload + rest);
}

proof fn lemma_big_endian_of_value(bytes: Seq<u8>)
    ensures
        big_endian(big_endian_value(bytes), bytes.len()) == bytes,
    decreases bytes.len(),
{
    if bytes.len() > 0 {
        let n = big_endian_value(bytes);
        lemma_big_endian_of_value(bytes.drop_last());
        assert(n / 256 == big_endian_value(bytes.drop_last()));
        assert(n % 256 == bytes.last() as nat);
        assert(bytes.drop_last().push(bytes.last()) =~= bytes);
    } else {
        assert(big_endian(0, 0) =~= bytes);
    }
}

// ---------------------------------------------------------------------------
// Laws of what the messages say
// ---------------------------------------------------------------------------

/// What the messages of the handshake carry: the version 1.0, the session ID
/// and the initial credits.
pub proof fn law_handshake_messages(
    session_id: u16,
    credits: u8,
    request: Message,
    async_request: Message,
    async_response: Message,
)
    requires
        call_ensures(init_request, (), request),
        call_ensures(async_init_request, (session_id,), async_request),
        call_ensures(async_init_response, (), async_response),
    ensures
        request.message_type == MessageType::Initialize,
        request.message_parameter == 0x0100_0000,
        request.control_code == 0 && request.payload@.len() == 0,
        ({
            let r = initialize_response(session_id, credits);
            &&& r.message_type == MessageType::InitializeResponse
            &&& r.control_code == credits
            &&& r.message_parameter == session_id * 0x1_0000 + 0x100
            &&& r.payload.len() == 0
        }),
        async_request.message_type == MessageType::AsyncInitialize,
        async_request.message_parameter == session_id,
        async_request.control_code == 0 && async_request.payload@.len() == 0,
        async_response.message_type == MessageType::AsyncInitializeResponse,
        async_response.message_parameter == 0,
        async_response.control_code == 0 && async_response.payload@.len() == 0,
{
    assert(request@.payload.len() == 0);
    assert(async_request@.payload.len() == 0);
    assert(async_response@.payload.len() == 0);
}

/// A client opens a session only on an answer to `Initialize` that grants
/// credits, and has the session ID and the credits that it carries.
pub proof fn law_opening_a_session(resp: MessageView)
    ensures
        match opened(resp) {
            Ok(c) => {
                &&& resp.message_type == MessageType::InitializeResponse
                &&& resp.control_code > 0
                &&& c.credits == resp.control_code
                &&& c.session_id == resp.message_parameter as int / 0x1_0000
            },
            Err(e) => if resp.message_type == MessageType::InitializeResponse {
                resp.control_code == 0 && e == HislipError::ZeroInitialCredits
            } else {
                e == HislipError::ExpectedInitializeResponse(resp.message_type)
            },
        },
{
}

/// Sending uses up one credit, and a response brings as many as its control
/// code says.
pub proof fn law_credits(c: ClientView, resp: MessageView)
    ensures
        c.credits > 0 ==> spent(c).credits == c.credits - 1,
        spent(c).session_id == c.session_id,
        c.credits + resp.control_code <= u32::MAX ==> replenished(c, resp).credits == c.credits
            + resp.control_code,
        replenished(c, resp).session_id == c.session_id,
{
}

/// What requests and responses carry: the text in UTF-8, as a message that is
/// complete.  A response grants a credit, a request none.
pub proof fn law_requests_and_responses(text: Seq<char>)
    ensures
        request_message(text) == (MessageView {
            message_type: MessageType::DataEnd,
            control_code: 0,
            message_parameter: 0,
            payload: encode_utf8(text),
        }),
        response_message(text) == (MessageView { control_code: 1, ..request_message(text) }),
        received_text(request_message(text).payload) == text,
        received_text(response_message(text).payload) == text,
{
    law_requests_are_received(text);
}

/// Session IDs follow one another: the next is one more, and behind the last
/// comes 1.
pub proof fn law_next_session_id(id: u16)
    ensures
        following_id(id) == (if id == 0xffff { 1 } else { id + 1 }),
        following_id(id) != 0,
        following_id(id) != id,
{
}

/// What a server does with each kind of message.  `Data` is collected and not
/// answered; `DataEnd` is answered and leaves nothing pending; a maximum
/// message size is acknowledged; and all others are passed over.
pub proof fn law_messages_of_each_kind<
    H: Fn(&Command) -> Option<Response>,
    F: Fn(&str) -> Option<Binary64>,
    G: Fn(Binary64) -> String,
>(
    handlers: Seq<H>,
    read: F,
    write: G,
    msg: MessageView,
    pending: Seq<u8>,
    d: DeviceView,
    replies: Seq<MessageView>,
    pending_after: Seq<u8>,
    after: DeviceView,
)
    requires
        takes_client_message(
            handlers,
            read,
            write,
            msg,
            pending,
            d,
            replies,
            pending_after,
            after,
        ),
    ensures
        msg.message_type == MessageType::Data ==> replies.len() == 0 && pending_after == pending
            + msg.payload && after == d,
        msg.message_type == MessageType::DataEnd ==> {
            &&& pending_after.len() == 0
            &&& exists|lines: Seq<Seq<char>>|
                {
                    &&& #[trigger] takes_line(
                        handlers,
                        read,
                        write,
                        received_text(pending + msg.payload),
                        d,
                        lines,
                        after,
                    )
                    &&& replies.len() == lines.len()
                    &&& forall|i: int|
                        0 <= i < lines.len() ==> #[trigger] replies[i] == response_message(lines[i])
                }
        },
        msg.message_type == MessageType::AsyncMaximumMessageSize ==> {
            &&& replies.len() == 1
            &&& replies[0].message_type == MessageType::AsyncMaximumMessageSizeResponse
            &&& replies[0].payload.len() == 0
            &&& replies[0].control_code == 0 && replies[0].message_parameter == 0
            &&& pending_after == pending && after == d
        },
        msg.message_type != MessageType::Data && msg.message_type != MessageType::DataEnd
            && msg.message_type != MessageType::AsyncMaximumMessageSize ==> replies.len() == 0
            && pending_after == pending && after == d,
{
}

/// A payload that is UTF-8 is taken for the text that it encodes, and any
/// other for what the lossy conversion makes of it.
pub proof fn law_received_text(bytes: Seq<u8>)
    ensures
        valid_utf8(bytes) ==> received_text(bytes) == decode_utf8(bytes) && encode_utf8(
            received_text(bytes),
        ) == bytes,
        !valid_utf8(bytes) ==> received_text(bytes) == lossy_text(bytes),
{
    if valid_utf8(bytes) {
        vstd::utf8::decode_utf8_encode_utf8(bytes);
    }
}

} // verus!
