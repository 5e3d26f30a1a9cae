use scpify::binary64::Binary64;
use scpify::error::{command_error, missing_parameter, no_error};
use scpify::{Command, Device, Identification, Param, Response};

type Handler = Box<dyn Fn(&Command) -> Option<Response> + Send + Sync>;

fn float(v: f64) -> Binary64 {
    Binary64 { bits: v.to_bits() }
}

fn read(s: &str) -> Option<Binary64> {
    s.parse::<f64>().ok().map(float)
}

fn write(v: Binary64) -> String {
    format!("{:.6E}", f64::from_bits(v.bits))
}

fn device() -> Device<Handler> {
    Device::new(Identification {
        manufacturer: "TestCo".into(),
        model: "M1".into(),
        serial: "001".into(),
        version: "0.1".into(),
    })
}

fn test_device() -> Device<Handler> {
    let mut dev: Device<Handler> = Device::new(Identification {
        manufacturer: "TestCo".into(),
        model: "T1".into(),
        serial: "001".into(),
        version: "0.1".into(),
    });
    // Custom handler: VOLT? -> 3.3
    dev.register(Box::new(|cmd: &Command| {
        if cmd.matches_header("MEASure:VOLTage") && cmd.is_query {
            Some(Response::Float(float(3.3)))
        } else {
            None
        }
    }));
    dev
}

#[test]
fn idn_query_via_device() {
    let mut d = device();
    let responses = d.process("*IDN?", &read);
    assert_eq!(responses.len(), 1);
    assert_eq!(responses[0], Response::Str("TestCo,M1,001,0.1".into()));
}

#[test]
fn rst_is_non_query() {
    let mut d = device();
    let responses = d.process("*RST", &read);
    assert_eq!(responses[0], Response::Empty);
}

#[test]
fn lib_compound_message() {
    let mut d = device();
    let responses = d.process("*RST;*IDN?", &read);
    assert_eq!(responses.len(), 2);
    assert_eq!(responses[0], Response::Empty);
    assert!(matches!(&responses[1], Response::Str(_)));
}

#[test]
fn custom_handler() {
    let mut d = device();
    d.register(Box::new(|cmd: &Command| {
        if cmd.matches_header("MEASure:VOLTage:DC") && cmd.is_query {
            Some(Response::Float(float(3.3)))
        } else {
            None
        }
    }));
    let responses = d.process(":MEASure:VOLTage:DC?", &read);
    assert_eq!(responses[0], Response::Float(float(3.3)));
}

#[test]
fn undefined_command_pushes_error() {
    let mut d = device();
    d.process(":FAKE:CMD?", &read);
    let err = d.next_error();
    assert_ne!(err.code, 0);
}

#[test]
fn error_queue_clears_on_cls() {
    let mut d = device();
    // Generate an error by sending an unknown command.
    d.process(":FAKE?", &read);
    assert!(!d.error_queue.is_empty());
    d.process("*CLS", &read);
    assert!(d.error_queue.is_empty());
}

#[test]
fn handler_short_form_match() {
    let mut d = device();
    d.register(Box::new(|cmd: &Command| {
        if cmd.matches_header("MEASure") && cmd.is_query {
            Some(Response::Float(float(1.23)))
        } else {
            None
        }
    }));
    // Short form.
    let r1 = d.process(":MEAS?", &read);
    // Long form.
    let r2 = d.process(":MEASure?", &read);
    assert_eq!(r1[0], Response::Float(float(1.23)));
    assert_eq!(r2[0], Response::Float(float(1.23)));
}

#[test]
fn ese_round_trip_via_device() {
    let mut d = device();
    d.process("*ESE 32", &read);
    let responses = d.process("*ESE?", &read);
    assert_eq!(responses[0], Response::Integer(32));
}

#[test]
fn sequential_idn_query() {
    let mut d = test_device();
    let lines = d.reply_lines("*IDN?\n", &read, &write);
    assert_eq!(lines, vec!["\"TestCo,T1,001,0.1\"\n"]);
}

#[test]
fn sequential_custom_query() {
    let mut d = test_device();
    let lines = d.reply_lines(":MEASure:VOLTage?\r\n", &read, &write);
    assert_eq!(lines.len(), 1);
    let value: f64 = lines[0].trim().parse().expect("expected a numeric response");
    assert!((value - 3.3).abs() < 1e-9, "expected ~3.3, got {}", value);
}

#[test]
fn sequential_non_query_produces_no_output() {
    let mut d = test_device();
    assert!(d.reply_lines("*RST\n", &read, &write).is_empty());
}

#[test]
fn sequential_compound_message() {
    let mut d = test_device();
    // Compound: RST (no output) then IDN? (one output line).
    let lines = d.reply_lines("*RST;*IDN?\n", &read, &write);
    assert_eq!(lines.len(), 1);
    assert!(lines[0].contains("TestCo"), "{}", lines[0]);
}

#[test]
fn client_query() {
    let mut d = test_device();
    let lines = d.reply_lines("*IDN?\n", &read, &write);
    let resp = scpify::text::trim(&lines[0]);
    assert!(resp.contains("TestCo"), "{}", resp);
}

#[test]
fn client_query_f64() {
    let mut d = test_device();
    let lines = d.reply_lines(":MEASure:VOLTage?\n", &read, &write);
    let v: f64 = scpify::text::trim(&lines[0]).parse().unwrap();
    assert!((v - 3.3).abs() < 1e-9, "expected ~3.3, got {}", v);
}

#[test]
fn client_send_no_response() {
    let mut d = test_device();
    assert!(d.reply_lines("*RST\n", &read, &write).is_empty());
    // Follow-up query should still work.
    let lines = d.reply_lines("*IDN?\n", &read, &write);
    assert!(lines[0].contains("TestCo"), "{}", lines[0]);
}

#[test]
fn blank_lines_are_passed_over() {
    let mut d = test_device();
    assert!(d.reply_lines(" \t\r\n", &read, &write).is_empty());
    assert!(d.reply_lines("", &read, &write).is_empty());
    assert!(d.error_queue.is_empty());
}

#[test]
fn responses_come_one_per_line_in_message_order() {
    let mut d = test_device();
    let lines = d.reply_lines("*ESR?;*RST;MEAS:VOLT?;*OPC?;FAKE?", &read, &write);
    assert_eq!(lines, vec!["128\n", "3.300000E0\n", "1\n"]);
    assert_eq!(d.next_error(), command_error());
    assert_eq!(d.next_error(), no_error());
}

#[test]
fn each_command_gets_one_response() {
    let mut d = test_device();
    let responses = d.process("*IDN?;*RST;FAKE;MEAS:VOLT?;*ESE", &read);
    assert_eq!(responses.len(), 5);
    assert!(responses[1].is_empty() && responses[2].is_empty() && responses[4].is_empty());
    assert_eq!(d.error_queue.len(), 2);
    assert_eq!(d.next_error(), command_error());
    assert_eq!(d.next_error(), missing_parameter());
}

#[test]
fn the_first_handler_to_answer_wins() {
    let mut d = device();
    d.register(Box::new(|cmd: &Command| {
        if cmd.header == "A" {
            Some(Response::Integer(1))
        } else {
            None
        }
    }));
    d.register(Box::new(|_: &Command| Some(Response::Integer(2))));
    d.register(Box::new(|_: &Command| Some(Response::Integer(3))));
    assert_eq!(d.handler_count(), 3);
    assert_eq!(
        d.process("A?;B?", &read),
        vec![Response::Integer(1), Response::Integer(2)]
    );
}

#[test]
fn handlers_do_not_see_common_commands() {
    let mut d = device();
    d.register(Box::new(|_: &Command| Some(Response::Integer(9))));
    assert_eq!(
        d.process("*OPC?;*IDN;*RST", &read),
        vec![Response::Integer(1), Response::Empty, Response::Empty]
    );
}

#[test]
fn a_compound_message_is_taken_in_turn() {
    let mut once = test_device();
    let mut twice = test_device();
    let whole = once.process("*ESE 5;FAKE;*ESR?;*ESE?;*STB?", &read);
    let mut parts = twice.process("*ESE 5;FAKE", &read);
    parts.extend(twice.process("*ESR?;*ESE?;*STB?", &read));
    assert_eq!(whole, parts);
    assert_eq!(
        whole,
        vec![
            Response::Empty,
            Response::Empty,
            Response::Integer(128),
            Response::Integer(5),
            Response::Integer(4),
        ]
    );
}

#[test]
fn handlers_see_the_parsed_command() {
    let mut d = device();
    d.register(Box::new(|cmd: &Command| {
        if cmd.matches_header("SOURce:LEVel") && cmd.suffix == Some(3) {
            cmd.params[0].as_float(&read).map(Response::Float)
        } else {
            None
        }
    }));
    assert_eq!(
        d.process("sour3:lev? 2.5", &read),
        vec![Response::Float(float(2.5))]
    );
}

#[test]
fn registers_read_back_over_messages() {
    let mut d = device();
    for (n, held) in [(1i64, 1), (0, 0), (2, 2), (255, 255), (256, 0), (-2, 254)] {
        for header in ["*ESE", "*SRE"] {
            assert_eq!(
                d.process(&format!("{} {}", header, n), &read),
                vec![Response::Empty]
            );
            assert_eq!(
                d.process(&format!("{}?", header), &read),
                vec![Response::Integer(held)]
            );
        }
    }
    assert!(d.error_queue.is_empty());
}

#[test]
fn keywords_are_not_written_to_registers() {
    let mut d = device();
    d.process("*ESE 5;*SRE 6", &read);
    for message in ["*ESE ON", "*SRE OFF"] {
        assert_eq!(d.process(message, &read), vec![Response::Empty]);
        assert_eq!(d.next_error(), missing_parameter());
    }
    assert_eq!((d.registers().ese, d.registers().sre), (5, 6));
    assert!(d.errors().is_empty());
}

#[test]
fn the_state_of_a_device_can_be_read() {
    let mut d = device();
    assert_eq!(d.registers().identification.manufacturer, "TestCo");
    assert_eq!(d.errors().len(), 0);
    d.process("*ESE 9;FAKE", &read);
    assert_eq!(d.registers().ese, 9);
    assert_eq!(d.errors().len(), 1);
    assert_eq!(d.next_error(), command_error());
    assert!(d.errors().is_empty());
}

#[test]
fn handlers_are_handed_one_and_zero_as_truth_values() {
    let mut d = device();
    d.register(Box::new(|cmd: &Command| {
        Some(Response::Bool(cmd.params == vec![
            Param::Bool(true),
            Param::Bool(false),
            Param::Bool(true),
            Param::Integer(2),
            Param::Str("1".into()),
        ]))
    }));
    assert_eq!(
        d.process("FOO? 1,0,ON,2,\"1\"", &read),
        vec![Response::Bool(true)]
    );
}

#[test]
fn only_queries_are_answered() {
    let mut d = device();
    d.register(Box::new(|_: &Command| Some(Response::Integer(5))));
    assert_eq!(d.process(":FOO", &read), vec![Response::Empty]);
    assert_eq!(d.process(":FOO?", &read), vec![Response::Integer(5)]);
    assert!(d.error_queue.is_empty());
    assert_eq!(d.reply_lines("FOO;FOO?;FOO 1", &read, &write), vec!["5\n"]);
}

#[test]
fn quick_start() {
    let mut device = Device::new(Identification {
        manufacturer: "ACME".into(),
        model: "XT1".into(),
        serial: "SN001".into(),
        version: "1.0".into(),
    });
    device.register(|cmd: &Command| {
        if cmd.matches_header("MEASure:VOLTage:DC") && cmd.is_query {
            Some(Response::Float(float(3.3)))
        } else {
            None
        }
    });
    let responses = device.process("*IDN?;:MEASure:VOLTage:DC?", &read);
    assert_eq!(
        responses,
        vec![
            Response::Str("ACME,XT1,SN001,1.0".into()),
            Response::Float(float(3.3)),
        ]
    );
}
