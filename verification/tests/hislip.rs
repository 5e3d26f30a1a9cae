use scpify::binary64::Binary64;
use scpify::transport::hislip::{
    async_init_request, async_init_response, init_request, init_response, ClientSession, Header,
    HislipError, Message, MessageType, Server, ServerSession, DEFAULT_HISLIP_PORT,
    DEFAULT_INITIAL_CREDITS, PROTOCOL_VERSION_MAJOR, PROTOCOL_VERSION_MINOR,
};
use scpify::{Command, Device, Identification, Response};

type Handler = Box<dyn Fn(&Command) -> Option<Response> + Send + Sync>;

fn read(s: &str) -> Option<Binary64> {
    s.parse::<f64>().ok().map(|v| Binary64 { bits: v.to_bits() })
}

fn write(v: Binary64) -> String {
    format!("{:.6E}", f64::from_bits(v.bits))
}

fn test_device() -> Device<Handler> {
    let mut dev: Device<Handler> = Device::new(Identification {
        manufacturer: "TestCo".into(),
        model: "T1".into(),
        serial: "001".into(),
        version: "0.1".into(),
    });
    dev.register(Box::new(|cmd: &Command| {
        if cmd.matches_header("MEASure:VOLTage") && cmd.is_query {
            Some(Response::Float(Binary64 {
                bits: 3.3f64.to_bits(),
            }))
        } else {
            None
        }
    }));
    dev
}

/// A server and the link to it, in memory.
struct Link {
    device: Device<Handler>,
    session: ServerSession,
}

/// Carry out the handshake with a server.
fn connect(server: &mut Server, device: Device<Handler>) -> (ClientSession, Link) {
    let wire = init_request().to_bytes();
    let init = Message::read_from(&mut wire.as_slice()).unwrap();
    let resp = server.accept(&init).unwrap();
    let wire = resp.to_bytes();
    let resp = Message::read_from(&mut wire.as_slice()).unwrap();
    let client = ClientSession::open(&resp).unwrap();
    let session = ServerSession::new();
    (client, Link { device, session })
}

fn start_hislip_server(device: Device<Handler>) -> (ClientSession, Link) {
    connect(&mut Server::new(), device)
}

fn start_hislip_server_with_credits(device: Device<Handler>, credits: u8) -> (ClientSession, Link) {
    let mut server = Server::new();
    server.set_initial_credits(credits);
    connect(&mut server, device)
}

/// Hand a message to the server and return its replies as bytes.
fn deliver(link: &mut Link, msg: &Message) -> Vec<u8> {
    let wire = msg.to_bytes();
    let msg = Message::read_from(&mut wire.as_slice()).unwrap();
    let replies = link.session.receive(&msg, &mut link.device, &read, &write);
    replies.iter().flat_map(|m| m.to_bytes()).collect()
}

fn send(client: &mut ClientSession, link: &mut Link, command: &str) -> Result<(), HislipError> {
    let msg = client.request(command)?;
    deliver(link, &msg);
    client.note_sent();
    Ok(())
}

fn query(client: &mut ClientSession, link: &mut Link, command: &str) -> Result<String, HislipError> {
    let msg = client.request(command)?;
    let wire = deliver(link, &msg);
    client.note_sent();
    let resp = Message::read_from(&mut wire.as_slice())?;
    Ok(client.take_response(&resp))
}

#[test]
fn message_round_trip_no_payload() {
    let msg = Message::new(MessageType::Initialize, 42, 0x0001_0200);
    let bytes = msg.to_bytes();
    assert_eq!(bytes.len(), 16);
    assert_eq!(&bytes[0..2], b"HS");

    let mut cursor = bytes.as_slice();
    let parsed = Message::read_from(&mut cursor).unwrap();
    assert_eq!(parsed.message_type, MessageType::Initialize);
    assert_eq!(parsed.control_code, 42);
    assert_eq!(parsed.message_parameter, 0x0001_0200);
    assert!(parsed.payload.is_empty());
}

#[test]
fn message_round_trip_with_payload() {
    let payload = b"*IDN?\n".to_vec();
    let msg = Message::with_payload(MessageType::DataEnd, 1, 0, payload.clone());
    let bytes = msg.to_bytes();
    assert_eq!(bytes.len(), 16 + payload.len());

    let mut cursor = bytes.as_slice();
    let parsed = Message::read_from(&mut cursor).unwrap();
    assert_eq!(parsed.message_type, MessageType::DataEnd);
    assert_eq!(parsed.control_code, 1);
    assert_eq!(parsed.payload, payload);
}

#[test]
fn bad_prologue_is_rejected() {
    let mut bad = vec![b'X', b'Y']; // wrong prologue
    bad.extend_from_slice(&[0u8; 14]);
    let mut cursor = bad.as_slice();
    let err = Message::read_from(&mut cursor).unwrap_err();
    assert_eq!(err, HislipError::InvalidPrologue(b'X', b'Y'));
}

#[test]
fn init_response_encodes_credits() {
    let msg = init_response(0x1234, 5);
    assert_eq!(msg.message_type, MessageType::InitializeResponse);
    // control_code must carry the initial credit count.
    assert_eq!(msg.control_code, 5);
    // session_id in bits 31-16.
    assert_eq!((msg.message_parameter >> 16) as u16, 0x1234);
    // Protocol version in bits 15-0.
    let major = ((msg.message_parameter >> 8) & 0xFF) as u8;
    let minor = (msg.message_parameter & 0xFF) as u8;
    assert_eq!(major, PROTOCOL_VERSION_MAJOR);
    assert_eq!(minor, PROTOCOL_VERSION_MINOR);
}

#[test]
fn init_response_default_credits_non_zero() {
    let msg = init_response(1, DEFAULT_INITIAL_CREDITS);
    assert!(msg.control_code > 0, "default credits must be > 0");
}

#[test]
fn client_connects_and_receives_credits() {
    let (client, _link) = start_hislip_server(test_device());
    assert!(
        client.credits() > 0,
        "client should have received initial credits"
    );
    assert_ne!(client.session_id(), 0);
}

#[test]
fn client_receives_custom_credits() {
    let (client, _link) = start_hislip_server_with_credits(test_device(), 5);
    assert_eq!(client.credits(), 5);
}

#[test]
fn client_query_idn() {
    let (mut client, mut link) = start_hislip_server(test_device());
    let initial = client.credits();
    let resp = query(&mut client, &mut link, "*IDN?").unwrap();
    assert!(resp.contains("TestCo"), "unexpected: {}", resp);
    // Credits should have been decremented then replenished.
    assert_eq!(client.credits(), initial); // 1 - 1 + 1 = 1
}

#[test]
fn client_query_f64_works() {
    let (mut client, mut link) = start_hislip_server(test_device());
    let resp = query(&mut client, &mut link, ":MEASure:VOLTage?").unwrap();
    let v: f64 = resp.parse().unwrap();
    assert!((v - 3.3).abs() < 1e-9, "expected ~3.3, got {}", v);
}

#[test]
fn client_send_consumes_credit() {
    let (mut client, mut link) = start_hislip_server_with_credits(test_device(), 5);
    assert_eq!(client.credits(), 5);
    // Sending consumes 1 credit without waiting for replenishment.
    send(&mut client, &mut link, "*RST").unwrap();
    assert_eq!(client.credits(), 4);
}

#[test]
fn client_no_credits_returns_error() {
    let (mut client, mut link) = start_hislip_server(test_device());
    // Drain credits.
    while client.credits() > 0 {
        client.note_sent();
    }
    let err = send(&mut client, &mut link, "*RST").unwrap_err();
    assert!(
        err.to_string().contains("credits"),
        "expected credit error, got: {}",
        err.to_string()
    );
    assert_eq!(
        query(&mut client, &mut link, "*IDN?"),
        Err(HislipError::NoCredits)
    );
    assert_eq!(client.require_credit(), Err(HislipError::NoCredits));
}

#[test]
fn the_wire_format() {
    let msg = Message::with_payload(MessageType::DataEnd, 7, 0x0102_0304, b"ab".to_vec());
    assert_eq!(
        msg.to_bytes(),
        b"HS\x03\x07\x01\x02\x03\x04\x00\x00\x00\x00\x00\x00\x00\x02ab"
    );
}

#[test]
fn messages_are_read_one_after_the_other() {
    let mut wire = Message::with_payload(MessageType::Data, 0, 1, b"x".to_vec()).to_bytes();
    wire.extend(Message::new(MessageType::DataEnd, 0, 2).to_bytes());
    wire.extend(b"HS");
    let mut cursor = wire.as_slice();
    assert_eq!(Message::read_from(&mut cursor).unwrap().payload, b"x");
    assert_eq!(
        Message::read_from(&mut cursor).unwrap().message_parameter,
        2
    );
    assert_eq!(cursor, b"HS");
    assert_eq!(
        Message::read_from(&mut cursor).unwrap_err(),
        HislipError::UnexpectedEnd
    );
    assert!(cursor.is_empty());
}

#[test]
fn a_bad_header_is_consumed() {
    let mut wire = vec![b'X'; 16];
    wire.extend(Message::new(MessageType::DataEnd, 0, 2).to_bytes());
    let mut cursor = wire.as_slice();
    assert_eq!(
        Message::read_from(&mut cursor).unwrap_err(),
        HislipError::InvalidPrologue(b'X', b'X')
    );
    assert_eq!(
        Message::read_from(&mut cursor).unwrap().message_parameter,
        2
    );
}

#[test]
fn a_short_payload_is_an_unexpected_end() {
    let wire = Message::with_payload(MessageType::Data, 0, 0, b"abc".to_vec()).to_bytes();
    let mut cursor = &wire[..18];
    assert_eq!(
        Message::read_from(&mut cursor).unwrap_err(),
        HislipError::UnexpectedEnd
    );
}

#[test]
fn message_type_codes() {
    let all = [
        (0, MessageType::Initialize),
        (1, MessageType::InitializeResponse),
        (2, MessageType::Data),
        (3, MessageType::DataEnd),
        (6, MessageType::AsyncInitialize),
        (7, MessageType::AsyncInitializeResponse),
        (8, MessageType::AsyncMaximumMessageSize),
        (9, MessageType::AsyncMaximumMessageSizeResponse),
    ];
    for (code, t) in all {
        assert_eq!(MessageType::from_u8(code), Ok(t));
        assert_eq!(t.code(), code);
    }
    for code in [4u8, 5, 10, 255] {
        assert_eq!(
            MessageType::from_u8(code),
            Err(HislipError::UnknownMessageType(code))
        );
    }
}

#[test]
fn unknown_types_are_rejected() {
    let mut wire = Message::new(MessageType::Data, 0, 0).to_bytes();
    wire[2] = 4;
    assert_eq!(
        Message::read_from(&mut wire.as_slice()).unwrap_err(),
        HislipError::UnknownMessageType(4)
    );
    assert_eq!(
        Header::decode(&wire),
        Err(HislipError::UnknownMessageType(4))
    );
}

#[test]
fn headers_are_decoded() {
    let wire = Message::with_payload(MessageType::Data, 9, 0xFFFF_FFFE, vec![0; 300]).to_bytes();
    let header = Header::decode(&wire[..16]).unwrap();
    assert_eq!(header.message_type, MessageType::Data);
    assert_eq!(header.control_code, 9);
    assert_eq!(header.message_parameter, 0xFFFF_FFFE);
    assert_eq!(header.payload_length, 300);
}

#[test]
fn handshake_messages() {
    let init = init_request();
    assert_eq!(init.message_type, MessageType::Initialize);
    assert_eq!(init.control_code, 0);
    assert_eq!(init.message_parameter, 0x0100_0000);
    let sync = async_init_request(0xABCD);
    assert_eq!(sync.message_type, MessageType::AsyncInitialize);
    assert_eq!(sync.message_parameter, 0xABCD);
    let resp = async_init_response();
    assert_eq!(resp.message_type, MessageType::AsyncInitializeResponse);
    assert_eq!(resp.message_parameter, 0);
    assert_eq!(DEFAULT_HISLIP_PORT, 4880);
}

#[test]
fn a_client_must_initialize_first() {
    let msg = Message::new(MessageType::Data, 0, 0);
    let mut server = Server::new();
    assert_eq!(
        server.accept(&msg).unwrap_err(),
        HislipError::ExpectedInitialize
    );
    // The connection has used up its session ID.
    let resp = server.accept(&init_request()).unwrap();
    assert_eq!(resp.message_parameter >> 16, 2);
}

#[test]
fn a_server_grants_the_credits_that_were_set() {
    let mut server = Server::new();
    server.set_initial_credits(200);
    assert_eq!(server.initial_credits(), 200);
    let resp = server.accept(&init_request()).unwrap();
    assert_eq!(resp.control_code, 200);
    assert_eq!(ClientSession::open(&resp).unwrap().credits(), 200);
}

#[test]
fn a_server_must_answer_the_handshake() {
    let msg = Message::new(MessageType::DataEnd, 1, 0);
    let err = ClientSession::open(&msg).unwrap_err();
    assert_eq!(
        err,
        HislipError::ExpectedInitializeResponse(MessageType::DataEnd)
    );
    assert_eq!(err.to_string(), "expected InitializeResponse, got DataEnd");
    let err = ClientSession::open(&init_response(3, 0)).unwrap_err();
    assert_eq!(err, HislipError::ZeroInitialCredits);
}

#[test]
fn errors_have_descriptions() {
    assert_eq!(
        HislipError::InvalidPrologue(b'X', b'Y').to_string(),
        "invalid HiSLIP prologue: expected 'HS', got 'XY'"
    );
    assert_eq!(
        HislipError::UnknownMessageType(200).to_string(),
        "unknown HiSLIP message type: 200"
    );
    assert_eq!(
        HislipError::ExpectedInitialize.to_string(),
        "expected Initialize message"
    );
    assert_eq!(
        HislipError::ZeroInitialCredits.to_string(),
        "server granted zero initial credits"
    );
    assert_eq!(
        HislipError::NoCredits.to_string(),
        "no HiSLIP credits available \u{2014} cannot send data"
    );
    assert_eq!(
        HislipError::UnexpectedEnd.to_string(),
        "unexpected end of HiSLIP message"
    );
}

#[test]
fn session_ids_start_over_at_one() {
    let mut server = Server::new();
    let init = init_request();
    for i in (0..65535u32).chain(0..2) {
        let resp = server.grant().accept(&init).unwrap();
        assert_eq!(resp.message_parameter >> 16, i + 1);
        assert_eq!(resp.control_code, DEFAULT_INITIAL_CREDITS);
    }
}

#[test]
fn data_is_collected_until_its_end() {
    let (mut client, mut link) = start_hislip_server(test_device());
    assert!(deliver(
        &mut link,
        &Message::with_payload(MessageType::Data, 0, 0, b"*I".to_vec())
    )
    .is_empty());
    assert!(deliver(&mut link, &Message::new(MessageType::Initialize, 0, 0)).is_empty());
    let wire = deliver(
        &mut link,
        &Message::with_payload(MessageType::DataEnd, 0, 0, b"DN?\n".to_vec()),
    );
    let resp = Message::read_from(&mut wire.as_slice()).unwrap();
    assert_eq!(resp.message_type, MessageType::DataEnd);
    assert_eq!(resp.control_code, 1);
    assert_eq!(resp.payload, b"\"TestCo,T1,001,0.1\"\n");
    // The next message starts afresh.
    assert_eq!(query(&mut client, &mut link, "*OPC?").unwrap(), "1");
}

#[test]
fn each_response_is_a_message_of_its_own() {
    let (_client, mut link) = start_hislip_server(test_device());
    let wire = deliver(
        &mut link,
        &Message::with_payload(MessageType::DataEnd, 0, 0, b"*OPC?;*RST;*ESE?".to_vec()),
    );
    let mut cursor = wire.as_slice();
    assert_eq!(Message::read_from(&mut cursor).unwrap().payload, b"1\n");
    assert_eq!(Message::read_from(&mut cursor).unwrap().payload, b"0\n");
    assert!(cursor.is_empty());
}

#[test]
fn a_blank_message_is_not_answered() {
    let (_client, mut link) = start_hislip_server(test_device());
    assert!(deliver(
        &mut link,
        &Message::with_payload(MessageType::DataEnd, 0, 0, b" \n".to_vec())
    )
    .is_empty());
    assert!(link.device.error_queue.is_empty());
}

#[test]
fn the_maximum_message_size_is_acknowledged() {
    let (_client, mut link) = start_hislip_server(test_device());
    let wire = deliver(
        &mut link,
        &Message::with_payload(MessageType::AsyncMaximumMessageSize, 0, 0, vec![0; 8]),
    );
    let resp = Message::read_from(&mut wire.as_slice()).unwrap();
    assert_eq!(
        resp.message_type,
        MessageType::AsyncMaximumMessageSizeResponse
    );
    assert_eq!((resp.control_code, resp.message_parameter), (0, 0));
    assert!(resp.payload.is_empty());
}

#[test]
fn bytes_that_are_not_text_are_replaced() {
    let (mut client, _link) = start_hislip_server(test_device());
    let resp = Message::with_payload(MessageType::DataEnd, 3, 0, b" a\xffb \n".to_vec());
    assert_eq!(client.take_response(&resp), "a\u{fffd}b");
    assert_eq!(client.credits(), 4);
    let resp = Message::with_payload(MessageType::DataEnd, 0, 0, "\u{b5}V\n".as_bytes().to_vec());
    assert_eq!(client.take_response(&resp), "\u{b5}V");
}

#[test]
fn credits_add_up_over_many_queries() {
    let (mut client, mut link) = start_hislip_server_with_credits(test_device(), 3);
    for _ in 0..10 {
        query(&mut client, &mut link, "*OPC?").unwrap();
    }
    assert_eq!(client.credits(), 3);
    send(&mut client, &mut link, "*CLS").unwrap();
    send(&mut client, &mut link, "*CLS").unwrap();
    assert_eq!(client.credits(), 1);
    assert_eq!(client.session_id(), 1);
}
