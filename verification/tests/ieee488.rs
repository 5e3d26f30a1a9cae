use scpify::binary64::Binary64;
use scpify::error::{command_error, missing_parameter, undefined_header};
use scpify::ieee488::{handle_common_command, recognise, CommonCommand};
use scpify::parser::parse_literal;
use scpify::{esr, parse, stb, Command, ErrorQueue, Identification, Ieee488State, Response};

fn read(s: &str) -> Option<Binary64> {
    s.parse::<f64>().ok().map(|v| Binary64 { bits: v.to_bits() })
}

fn commands(message: &str) -> Vec<Command> {
    parse(message, &read)
}

fn make_state() -> Ieee488State {
    Ieee488State::new(Identification {
        manufacturer: "ACME".into(),
        model: "XT1".into(),
        serial: "SN001".into(),
        version: "1.0".into(),
    })
}

#[test]
fn idn_query() {
    let mut state = make_state();
    let mut eq = ErrorQueue::new();
    let cmds = commands("*IDN?");
    let resp = handle_common_command(&cmds[0], &mut state, &mut eq).unwrap();
    assert_eq!(resp, Response::Str("ACME,XT1,SN001,1.0".into()));
}

#[test]
fn rst_clears_registers() {
    let mut state = make_state();
    let mut eq = ErrorQueue::new();
    state.ese = 0xFF;
    state.sre = 0xFF;
    let cmds = commands("*RST");
    handle_common_command(&cmds[0], &mut state, &mut eq).unwrap();
    assert_eq!(state.ese, 0);
    assert_eq!(state.sre, 0);
}

#[test]
fn cls_clears_esr_and_error_queue() {
    let mut state = make_state();
    let mut eq = ErrorQueue::new();
    state.esr = 0xFF;
    eq.push(command_error());
    let cmds = commands("*CLS");
    handle_common_command(&cmds[0], &mut state, &mut eq).unwrap();
    assert_eq!(state.esr, 0);
    assert!(eq.is_empty());
}

#[test]
fn ese_set_and_query() {
    let mut state = make_state();
    let mut eq = ErrorQueue::new();
    let cmds = commands("*ESE 32");
    handle_common_command(&cmds[0], &mut state, &mut eq).unwrap();
    let cmds = commands("*ESE?");
    let resp = handle_common_command(&cmds[0], &mut state, &mut eq).unwrap();
    assert_eq!(resp, Response::Integer(32));
}

#[test]
fn esr_query_clears_register() {
    let mut state = make_state();
    state.esr = esr::PON | esr::CME;
    let mut eq = ErrorQueue::new();
    let cmds = commands("*ESR?");
    let resp = handle_common_command(&cmds[0], &mut state, &mut eq).unwrap();
    assert_eq!(resp, Response::Integer((esr::PON | esr::CME) as i64));
    assert_eq!(state.esr, 0);
}

#[test]
fn opc_command_sets_bit() {
    let mut state = make_state();
    let mut eq = ErrorQueue::new();
    state.esr = 0;
    let cmds = commands("*OPC");
    handle_common_command(&cmds[0], &mut state, &mut eq).unwrap();
    assert_ne!(state.esr & esr::OPC, 0);
}

#[test]
fn opc_query_returns_1() {
    let mut state = make_state();
    let mut eq = ErrorQueue::new();
    let cmds = commands("*OPC?");
    let resp = handle_common_command(&cmds[0], &mut state, &mut eq).unwrap();
    assert_eq!(resp, Response::Integer(1));
}

#[test]
fn sre_set_and_query() {
    let mut state = make_state();
    let mut eq = ErrorQueue::new();
    let cmds = commands("*SRE 16");
    handle_common_command(&cmds[0], &mut state, &mut eq).unwrap();
    let cmds = commands("*SRE?");
    let resp = handle_common_command(&cmds[0], &mut state, &mut eq).unwrap();
    assert_eq!(resp, Response::Integer(16));
}

#[test]
fn stb_reflects_error_queue() {
    let mut state = make_state();
    let mut eq = ErrorQueue::new();
    eq.push(command_error());
    let cmds = commands("*STB?");
    let resp = handle_common_command(&cmds[0], &mut state, &mut eq).unwrap();
    if let Response::Integer(v) = resp {
        assert_ne!(v as u8 & stb::ERR_QUEUE, 0);
    } else {
        panic!("Expected integer response");
    }
}

#[test]
fn tst_query_returns_zero_by_default() {
    let mut state = make_state();
    let mut eq = ErrorQueue::new();
    let cmds = commands("*TST?");
    let resp = handle_common_command(&cmds[0], &mut state, &mut eq).unwrap();
    assert_eq!(resp, Response::Integer(0));
}

#[test]
fn unknown_common_command_returns_undefined_header_err() {
    let mut state = make_state();
    let mut eq = ErrorQueue::new();
    let cmds = commands("*XYZ?");
    let result = handle_common_command(&cmds[0], &mut state, &mut eq);
    assert_eq!(result, Err(undefined_header()));
}

#[test]
fn a_new_instrument_has_only_the_power_on_event() {
    let state = make_state();
    assert_eq!(state.esr, esr::PON);
    assert_eq!((state.ese, state.sre, state.stb), (0, 0, 0));
    assert_eq!(state.self_test_result, 0);
    assert_eq!(state.compute_stb(&ErrorQueue::new()), 0);
}

#[test]
fn register_writes_need_an_integer() {
    let mut state = make_state();
    let mut eq = ErrorQueue::new();
    for message in ["*ESE", "*SRE", "*ESE MAX", "*SRE \"5\"", "*ESE ON", "*SRE off"] {
        let cmds = commands(message);
        let result = handle_common_command(&cmds[0], &mut state, &mut eq);
        assert_eq!(result, Err(missing_parameter()));
    }
    assert_eq!((state.ese, state.sre), (0, 0));
}

#[test]
fn registers_take_one_and_zero() {
    let mut state = make_state();
    let mut eq = ErrorQueue::new();
    state.sre = 7;
    for cmd in parse_literal("*ESE 1;*SRE 0", &read) {
        assert_eq!(
            handle_common_command(&cmd, &mut state, &mut eq),
            Ok(Response::Empty)
        );
    }
    assert_eq!((state.ese, state.sre), (1, 0));
}

#[test]
fn registers_hold_the_lowest_byte() {
    let mut state = make_state();
    let mut eq = ErrorQueue::new();
    let cmds = commands("*ESE 257;*SRE -1;*ESE?;*SRE?");
    for cmd in &cmds[..2] {
        assert_eq!(
            handle_common_command(cmd, &mut state, &mut eq),
            Ok(Response::Empty)
        );
    }
    assert_eq!(
        handle_common_command(&cmds[2], &mut state, &mut eq),
        Ok(Response::Integer(1))
    );
    assert_eq!(
        handle_common_command(&cmds[3], &mut state, &mut eq),
        Ok(Response::Integer(255))
    );
    let cmds = commands("*ESE 32.9");
    handle_common_command(&cmds[0], &mut state, &mut eq).unwrap();
    assert_eq!(state.ese, 32);
}

#[test]
fn the_status_byte_sums_up_enabled_conditions() {
    let mut state = make_state();
    let mut eq = ErrorQueue::new();
    state.stb = stb::MAV;
    assert_eq!(state.compute_stb(&eq), 0x10);
    state.ese = esr::PON;
    assert_eq!(state.compute_stb(&eq), 0x30);
    state.sre = stb::ESB;
    assert_eq!(state.compute_stb(&eq), 0x70);
    eq.push(command_error());
    assert_eq!(state.compute_stb(&eq), 0x74);
    state.sre = 0;
    state.stb = stb::MSS_RQS | stb::QUESTIONABLE | stb::OPERATION;
    assert_eq!(state.compute_stb(&eq), 0xAC);
}

#[test]
fn rst_keeps_the_self_test_result() {
    let mut state = make_state();
    let mut eq = ErrorQueue::new();
    state.self_test_result = -3;
    state.stb = 0xFF;
    state.esr = esr::URQ | esr::EXE | esr::DDE | esr::QYE | esr::RQC;
    let cmds = commands("*rst;*tst?");
    handle_common_command(&cmds[0], &mut state, &mut eq).unwrap();
    assert_eq!(state.esr, esr::PON);
    assert_eq!(state.stb, 0);
    assert_eq!(
        handle_common_command(&cmds[1], &mut state, &mut eq),
        Ok(Response::Integer(-3))
    );
}

#[test]
fn headers_are_recognised_in_any_case() {
    assert_eq!(recognise("*idn", true), Some(CommonCommand::Identify));
    assert_eq!(recognise("*Wai", false), Some(CommonCommand::Wait));
    assert_eq!(recognise("*IDN", false), None);
    assert_eq!(recognise("*WAI", true), None);
    assert_eq!(recognise("IDN", true), None);
    assert_eq!(recognise("*ESE", true), Some(CommonCommand::EnabledEvents));
    assert_eq!(recognise("*ESE", false), Some(CommonCommand::EnableEvents));
    assert_eq!(recognise("*opc", false), Some(CommonCommand::NoteCompletion));
}

#[test]
fn wait_does_nothing() {
    let mut state = make_state();
    let mut eq = ErrorQueue::new();
    eq.push(command_error());
    let cmds = commands("*WAI");
    assert_eq!(
        handle_common_command(&cmds[0], &mut state, &mut eq),
        Ok(Response::Empty)
    );
    assert_eq!(state.esr, esr::PON);
    assert_eq!(eq.len(), 1);
}

#[test]
fn default_identification() {
    assert_eq!(Identification::default().to_string(), "Unknown,Unknown,0,0.1.0");
}

#[test]
fn events_are_read_once() {
    let mut state = make_state();
    let mut eq = ErrorQueue::new();
    let cmds = commands("*ESR?;*ESR?");
    assert_eq!(
        handle_common_command(&cmds[0], &mut state, &mut eq),
        Ok(Response::Integer(128))
    );
    assert_eq!(
        handle_common_command(&cmds[1], &mut state, &mut eq),
        Ok(Response::Integer(0))
    );
}

#[test]
fn completion_keeps_the_other_events() {
    let mut state = make_state();
    let mut eq = ErrorQueue::new();
    state.esr = esr::PON | esr::CME;
    let cmds = commands("*OPC");
    handle_common_command(&cmds[0], &mut state, &mut eq).unwrap();
    assert_eq!(state.esr, esr::PON | esr::CME | esr::OPC);
}

#[test]
fn clear_status_keeps_the_enables() {
    let mut state = make_state();
    let mut eq = ErrorQueue::new();
    eq.push(command_error());
    state.ese = 0xFF;
    state.sre = 0xBF;
    let cmds = commands("*STB?;*CLS;*STB?");
    assert_eq!(
        handle_common_command(&cmds[0], &mut state, &mut eq),
        Ok(Response::Integer(0x64))
    );
    handle_common_command(&cmds[1], &mut state, &mut eq).unwrap();
    assert_eq!(
        handle_common_command(&cmds[2], &mut state, &mut eq),
        Ok(Response::Integer(0))
    );
    assert_eq!((state.ese, state.sre), (0xFF, 0xBF));
}

#[test]
fn queries_only_read() {
    let mut state = make_state();
    let mut eq = ErrorQueue::new();
    eq.push(command_error());
    state.ese = 3;
    state.sre = 5;
    for cmd in commands("*IDN?;*ESE?;*OPC?;*SRE?;*STB?;*TST?;*XYZ?") {
        let _ = handle_common_command(&cmd, &mut state, &mut eq);
    }
    assert_eq!((state.ese, state.sre, state.esr, state.stb), (3, 5, esr::PON, 0));
    assert_eq!(eq.len(), 1);
}
