//! IEEE 488.2 mandatory common commands.
//!
//! Every SCPI instrument must support the IEEE 488.2 common commands.  This
//! module provides default implementations that can be embedded inside a
//! [`crate::Device`].
//!
//! ## Supported commands
//!
//! | Command  | Description                         |
//! |----------|-------------------------------------|
//! | `*IDN?`  | Identification query                |
//! | `*RST`   | Reset                               |
//! | `*CLS`   | Clear status                        |
//! | `*ESE`   | Event Status Enable (write)         |
//! | `*ESE?`  | Event Status Enable (query)         |
//! | `*ESR?`  | Event Status Register (query)       |
//! | `*OPC`   | Operation Complete (set bit)        |
//! | `*OPC?`  | Operation Complete (query)          |
//! | `*SRE`   | Service Request Enable (write)      |
//! | `*SRE?`  | Service Request Enable (query)      |
//! | `*STB?`  | Status Byte (query)                 |
//! | `*TST?`  | Self-Test (query)                   |
//! | `*WAI`   | Wait-to-continue                    |

use vstd::prelude::*;

use crate::command::{integer_of, Command, CommandView, Response, ResponseView};
use crate::error::{missing_parameter, undefined_header, ErrorQueue, ScpiError, ScpiErrorView};
use crate::text::{joined, same_text, to_ascii_uppercase, upper};

pub mod esr;
pub mod stb;

verus! {

/// Identification fields embedded in the instrument.
#[derive(Debug, Clone)]
pub struct Identification {
    /// Manufacturer name.
    pub manufacturer: String,
    /// Model name.
    pub model: String,
    /// Serial number.
    pub serial: String,
    /// Firmware / software version.
    pub version: String,
}

/// What an [`Identification`] stands for.
pub struct IdentificationView {
    pub manufacturer: Seq<char>,
    pub model: Seq<char>,
    pub serial: Seq<char>,
    pub version: Seq<char>,
}

impl View for Identification {
    type V = IdentificationView;

    open spec fn view(&self) -> IdentificationView {
        IdentificationView {
            manufacturer: self.manufacturer@,
            model: self.model@,
            serial: self.serial@,
            version: self.version@,
        }
    }
}

impl Default for Identification {
    fn default() -> (r: Self)
        ensures
            r@ == (IdentificationView {
                manufacturer: "Unknown"@,
                model: "Unknown"@,
                serial: "0"@,
                version: "0.1.0"@,
            }),
    {
        Identification {
            manufacturer: "Unknown".to_owned(),
            model: "Unknown".to_owned(),
            serial: "0".to_owned(),
            version: "0.1.0".to_owned(),
        }
    }
}

/// The four fields, with commas between them.
pub open spec fn identification_text(id: IdentificationView) -> Seq<char> {
    id.manufacturer + seq![','] + id.model + seq![','] + id.serial + seq![','] + id.version
}

impl Identification {
    /// The identification as `*IDN?` reports it.
    pub fn to_string(&self) -> (r: String)
        ensures
            r@ == identification_text(self@),
    {
        let mut out = String::new();
        out.append(self.manufacturer.as_str());
        out.push(',');
        out.append(self.model.as_str());
        out.push(',');
        out.append(self.serial.as_str());
        out.push(',');
        out.append(self.version.as_str());
        assert(out@ =~= identification_text(self@));
        out
    }
}

// ---------------------------------------------------------------------------
// Ieee488State
// ---------------------------------------------------------------------------

/// Holds the mutable state required by the IEEE 488.2 common commands.
#[derive(Debug)]
pub struct Ieee488State {
    /// Identification string parts.
    pub identification: Identification,
    /// Event Status Enable register.
    pub ese: u8,
    /// Event Status Register.
    pub esr: u8,
    /// Service Request Enable register.
    pub sre: u8,
    /// Status Byte register (augmented dynamically in `compute_stb`).
    pub stb: u8,
    /// Last self-test result (0 = pass, non-zero = fail).
    pub self_test_result: i32,
}

/// What an [`Ieee488State`] stands for.
pub struct Ieee488View {
    pub identification: IdentificationView,
    pub ese: u8,
    pub esr: u8,
    pub sre: u8,
    pub stb: u8,
    pub self_test_result: i32,
}

impl View for Ieee488State {
    type V = Ieee488View;

    open spec fn view(&self) -> Ieee488View {
        Ieee488View {
            identification: self.identification@,
            ese: self.ese,
            esr: self.esr,
            sre: self.sre,
            stb: self.stb,
            self_test_result: self.self_test_result,
        }
    }
}

/// The state of an instrument that has just been switched on: only the
/// power-on event has occurred.
pub open spec fn power_on(identification: IdentificationView) -> Ieee488View {
    Ieee488View {
        identification,
        ese: 0,
        esr: esr::PON,
        sre: 0,
        stb: 0,
        self_test_result: 0,
    }
}

/// The status byte before the summary bit is added: the stored byte, with a
/// bit for waiting errors and one for enabled events.
pub open spec fn status_conditions(st: Ieee488View, errors_wait: bool) -> u8 {
    st.stb | (if errors_wait { stb::ERR_QUEUE } else { 0 }) | (if st.esr & st.ese != 0 {
        stb::ESB
    } else {
        0
    })
}

/// The live status byte: the conditions, with the summary bit set exactly if
/// one of them is enabled for service requests.
pub open spec fn status_byte(st: Ieee488View, errors_wait: bool) -> u8 {
    let conditions = status_conditions(st, errors_wait);
    if conditions & st.sre != 0 {
        conditions | stb::MSS_RQS
    } else {
        conditions & !stb::MSS_RQS
    }
}

impl Ieee488State {
    /// Create state with the given identification and a clean register set.
    pub fn new(identification: Identification) -> (r: Self)
        ensures
            r@ == power_on(identification@),
    {
        Ieee488State {
            identification,
            ese: 0,
            esr: esr::PON,  // Power-on bit set at startup.
            sre: 0,
            stb: 0,
            self_test_result: 0,
        }
    }

    /// Compute the live Status Byte value.
    pub fn compute_stb(&self, error_queue: &ErrorQueue) -> (r: u8)
        ensures
            r == status_byte(self@, error_queue@.len() > 0),
    {
        let mut val: u8 = self.stb;
        let base: u8 = val;
        assert(base | 0u8 == base) by (bit_vector);
        if !error_queue.is_empty() {
            val = val | stb::ERR_QUEUE;
        }
        let with_errors: u8 = val;
        assert(with_errors | 0u8 == with_errors) by (bit_vector);
        if self.esr & self.ese != 0 {
            val = val | stb::ESB;
        }
        if val & self.sre != 0 {
            val | stb::MSS_RQS
        } else {
            val & !stb::MSS_RQS
        }
    }
}

// ---------------------------------------------------------------------------
// Command handler
// ---------------------------------------------------------------------------

/// The common commands.
#[derive(Debug, Clone, Copy, PartialEq, Eq)]
pub enum CommonCommand {
    /// `*IDN?`
    Identify,
    /// `*RST`
    Reset,
    /// `*CLS`
    ClearStatus,
    /// `*ESE`
    EnableEvents,
    /// `*ESE?`
    EnabledEvents,
    /// `*ESR?`
    Events,
    /// `*OPC`
    NoteCompletion,
    /// `*OPC?`
    Completion,
    /// `*SRE`
    EnableRequests,
    /// `*SRE?`
    EnabledRequests,
    /// `*STB?`
    StatusByte,
    /// `*TST?`
    SelfTest,
    /// `*WAI`
    Wait,
}

/// The common command that a header, in whatever case, stands for.
pub open spec fn common_command(header: Seq<char>, is_query: bool) -> Option<CommonCommand> {
    let h = upper(header);
    if h == "*IDN"@ && is_query {
        Some(CommonCommand::Identify)
    } else if h == "*RST"@ && !is_query {
        Some(CommonCommand::Reset)
    } else if h == "*CLS"@ && !is_query {
        Some(CommonCommand::ClearStatus)
    } else if h == "*ESE"@ {
        Some(if is_query { CommonCommand::EnabledEvents } else { CommonCommand::EnableEvents })
    } else if h == "*ESR"@ && is_query {
        Some(CommonCommand::Events)
    } else if h == "*OPC"@ {
        Some(if is_query { CommonCommand::Completion } else { CommonCommand::NoteCompletion })
    } else if h == "*SRE"@ {
        Some(if is_query { CommonCommand::EnabledRequests } else { CommonCommand::EnableRequests })
    } else if h == "*STB"@ && is_query {
        Some(CommonCommand::StatusByte)
    } else if h == "*TST"@ && is_query {
        Some(CommonCommand::SelfTest)
    } else if h == "*WAI"@ && !is_query {
        Some(CommonCommand::Wait)
    } else {
        None
    }
}

/// The value that a command writes to a register: the lowest eight bits of
/// its first parameter, where that stands for a number.
pub open spec fn register_value(cmd: CommandView) -> Option<u8> {
    if cmd.params.len() > 0 && integer_of(cmd.params[0]) is Some {
        Some((integer_of(cmd.params[0])->0 as int % 256) as u8)
    } else {
        None
    }
}

/// What [`undefined_header`] stands for.
pub open spec fn undefined_header_view() -> ScpiErrorView {
    ScpiErrorView { code: -113, message: "Undefined header"@ }
}

/// What [`missing_parameter`] stands for.
pub open spec fn missing_parameter_view() -> ScpiErrorView {
    ScpiErrorView { code: -109, message: "Missing parameter"@ }
}

/// What the handling of a command answers.
pub open spec fn answer(
    cmd: CommandView,
    st: Ieee488View,
    errors: Seq<ScpiErrorView>,
) -> Result<ResponseView, ScpiErrorView> {
    match common_command(cmd.header, cmd.is_query) {
        None => Err(undefined_header_view()),
        Some(common) => match common {
            CommonCommand::Identify => Ok(
                ResponseView::Str(identification_text(st.identification)),
            ),
            CommonCommand::EnableEvents | CommonCommand::EnableRequests => if register_value(
                cmd,
            ) is Some {
                Ok(ResponseView::Empty)
            } else {
                Err(missing_parameter_view())
            },
            CommonCommand::EnabledEvents => Ok(ResponseView::Integer(st.ese as i64)),
            CommonCommand::Events => Ok(ResponseView::Integer(st.esr as i64)),
            CommonCommand::Completion => Ok(ResponseView::Integer(1)),
            CommonCommand::EnabledRequests => Ok(ResponseView::Integer(st.sre as i64)),
            CommonCommand::StatusByte => Ok(
                ResponseView::Integer(status_byte(st, errors.len() > 0) as i64),
            ),
            CommonCommand::SelfTest => Ok(ResponseView::Integer(st.self_test_result as i64)),
            CommonCommand::Reset | CommonCommand::ClearStatus | CommonCommand::NoteCompletion
            | CommonCommand::Wait => Ok(ResponseView::Empty),
        },
    }
}

/// The state once a command has been handled.
pub open spec fn state_after(cmd: CommandView, st: Ieee488View) -> Ieee488View {
    match common_command(cmd.header, cmd.is_query) {
        Some(CommonCommand::Reset) => Ieee488View { ese: 0, esr: esr::PON, sre: 0, stb: 0, ..st },
        Some(CommonCommand::ClearStatus) => Ieee488View { esr: 0, ..st },
        Some(CommonCommand::EnableEvents) => match register_value(cmd) {
            Some(v) => Ieee488View { ese: v, ..st },
            None => st,
        },
        // Reading clears the register.
        Some(CommonCommand::Events) => Ieee488View { esr: 0, ..st },
        Some(CommonCommand::NoteCompletion) => Ieee488View { esr: st.esr | esr::OPC, ..st },
        Some(CommonCommand::EnableRequests) => match register_value(cmd) {
            Some(v) => Ieee488View { sre: v, ..st },
            None => st,
        },
        _ => st,
    }
}

/// The error queue once a command has been handled.
pub open spec fn errors_after(cmd: CommandView, errors: Seq<ScpiErrorView>) -> Seq<ScpiErrorView> {
    match common_command(cmd.header, cmd.is_query) {
        Some(CommonCommand::ClearStatus) => Seq::empty(),
        _ => errors,
    }
}

/// What a result of the handling stands for.
pub open spec fn result_view(r: Result<Response, ScpiError>) -> Result<ResponseView, ScpiErrorView> {
    match r {
        Ok(response) => Ok(response@),
        Err(error) => Err(error@),
    }
}

/// Tell which common command a header stands for, if any.
pub fn recognise(header: &str, is_query: bool) -> (r: Option<CommonCommand>)
    ensures
        r == common_command(header@, is_query),
{
    let upper_case = to_ascii_uppercase(header);
    let h = upper_case.as_str();
    if same_text(h, "*IDN") && is_query {
        Some(CommonCommand::Identify)
    } else if same_text(h, "*RST") && !is_query {
        Some(CommonCommand::Reset)
    } else if same_text(h, "*CLS") && !is_query {
        Some(CommonCommand::ClearStatus)
    } else if same_text(h, "*ESE") {
        Some(if is_query { CommonCommand::EnabledEvents } else { CommonCommand::EnableEvents })
    } else if same_text(h, "*ESR") && is_query {
        Some(CommonCommand::Events)
    } else if same_text(h, "*OPC") {
        Some(if is_query { CommonCommand::Completion } else { CommonCommand::NoteCompletion })
    } else if same_text(h, "*SRE") {
        Some(if is_query { CommonCommand::EnabledRequests } else { CommonCommand::EnableRequests })
    } else if same_text(h, "*STB") && is_query {
        Some(CommonCommand::StatusByte)
    } else if same_text(h, "*TST") && is_query {
        Some(CommonCommand::SelfTest)
    } else if same_text(h, "*WAI") && !is_query {
        Some(CommonCommand::Wait)
    } else {
        None
    }
}

/// The value that `cmd` writes to a register.
fn written_value(cmd: &Command) -> (r: Result<u8, ScpiError>)
    ensures
        match r {
            Ok(v) => register_value(cmd@) == Some(v),
            Err(e) => register_value(cmd@) is None && e@ == missing_parameter_view(),
        },
{
    if cmd.params.len() == 0 {
        return Err(missing_parameter());
    }
    assert(cmd@.params[0] == cmd.params@[0]@);
    match cmd.params[0].as_integer() {
        None => Err(missing_parameter()),
        Some(val) => {
            let low: u8 = (val & 0xFF) as u8;
            assert(low as int == val as int % 256) by (bit_vector)
                requires
                    low == (val & 0xFF) as u8,
            ;
            Ok(low)
        },
    }
}

/// Dispatch a single IEEE 488.2 common command.
///
/// Returns `Ok(Response)` on success, or `Err(undefined_header())` when the
/// command is not a common command (so the caller can try device-specific
/// handlers).
pub fn handle_common_command(
    cmd: &Command,
    state: &mut Ieee488State,
    error_queue: &mut ErrorQueue,
) -> (r: Result<Response, ScpiError>)
    ensures
        result_view(r) == answer(cmd@, old(state)@, old(error_queue)@),
        final(state)@ == state_after(cmd@, old(state)@),
        final(error_queue)@ == errors_after(cmd@, old(error_queue)@),
{
    match recognise(cmd.header.as_str(), cmd.is_query) {
        None => Err(undefined_header()),
        Some(common) => match common {
            CommonCommand::Identify => Ok(Response::Str(state.identification.to_string())),
            CommonCommand::Reset => {
                state.ese = 0;
                state.esr = esr::PON;
                state.sre = 0;
                state.stb = 0;
                Ok(Response::Empty)
            },
            CommonCommand::ClearStatus => {
                state.esr = 0;
                error_queue.clear();
                Ok(Response::Empty)
            },
            CommonCommand::EnableEvents => match written_value(cmd) {
                Ok(v) => {
                    state.ese = v;
                    Ok(Response::Empty)
                },
                Err(e) => Err(e),
            },
            CommonCommand::EnabledEvents => Ok(Response::Integer(state.ese as i64)),
            CommonCommand::Events => {
                let val: u8 = state.esr;
                state.esr = 0;  // Reading clears the register.
                Ok(Response::Integer(val as i64))
            },
            CommonCommand::NoteCompletion => {
                state.esr = state.esr | esr::OPC;
                Ok(Response::Empty)
            },
            CommonCommand::Completion => Ok(Response::Integer(1)),
            CommonCommand::EnableRequests => match written_value(cmd) {
                Ok(v) => {
                    state.sre = v;
                    Ok(Response::Empty)
                },
                Err(e) => Err(e),
            },
            CommonCommand::EnabledRequests => Ok(Response::Integer(state.sre as i64)),
            CommonCommand::StatusByte => {
                let val: u8 = state.compute_stb(error_queue);
                Ok(Response::Integer(val as i64))
            },
            CommonCommand::SelfTest => Ok(Response::Integer(state.self_test_result as i64)),
            // Synchronous no-op in a single-threaded implementation.
            CommonCommand::Wait => Ok(Response::Empty),
        },
    }
}

// ---------------------------------------------------------------------------
// Laws of the registers
// ---------------------------------------------------------------------------

/// What each bit of the status byte tells.  The error bit is set where it is
/// stored or errors wait, the event bit where it is stored or an enabled
/// event has occurred, the summary bit exactly where one of the conditions
/// is enabled for service requests; the others are as stored.
pub proof fn law_status_byte_bits(st: Ieee488View, errors_wait: bool)
    ensures
        ({
            let r = status_byte(st, errors_wait);
            let others = !(stb::ERR_QUEUE | stb::ESB | stb::MSS_RQS);
            &&& r & stb::ERR_QUEUE != 0 <==> st.stb & stb::ERR_QUEUE != 0 || errors_wait
            &&& r & stb::ESB != 0 <==> st.stb & stb::ESB != 0 || st.esr & st.ese != 0
            &&& r & stb::MSS_RQS != 0 <==> status_conditions(st, errors_wait) & st.sre != 0
            &&& r & others == st.stb & others
        }),
{
    let stored = st.stb;
    let sre = st.sre;
    let events = st.esr & st.ese;
    let c = status_conditions(st, errors_wait);
    let r = status_byte(st, errors_wait);
    assert(c == stored | (if errors_wait { 0x04u8 } else { 0u8 }) | (if events != 0 {
        0x20u8
    } else {
        0u8
    }));
    assert({
        &&& r & 0x04 != 0 <==> stored & 0x04 != 0 || errors_wait
        &&& r & 0x20 != 0 <==> stored & 0x20 != 0 || events != 0
        &&& r & 0x40 != 0 <==> c & sre != 0
        &&& r & !(0x04u8 | 0x20u8 | 0x40u8) == stored & !(0x04u8 | 0x20u8 | 0x40u8)
    }) by (bit_vector)
        requires
            c == stored | (if errors_wait { 0x04u8 } else { 0u8 }) | (if events != 0 {
                0x20u8
            } else {
                0u8
            }),
            r == (if c & sre != 0 { c | 0x40u8 } else { c & !0x40u8 }),
    ;
}

/// Without service request enables the summary bit is clear.
pub proof fn law_no_summary_without_enable(st: Ieee488View, errors_wait: bool)
    requires
        st.sre == 0,
    ensures
        status_byte(st, errors_wait) & stb::MSS_RQS == 0,
{
    law_status_byte_bits(st, errors_wait);
    let c = status_conditions(st, errors_wait);
    assert(c & 0u8 == 0) by (bit_vector);
}

/// `*ESE` and `*SRE` read back what was written: the query answers with the
/// value that the command last wrote, whatever was there before, and neither
/// command touches another register.
pub proof fn law_enables_read_back(
    write: CommandView,
    query: CommandView,
    st: Ieee488View,
    errors: Seq<ScpiErrorView>,
)
    requires
        register_value(write) is Some,
        ({
            let w = common_command(write.header, write.is_query);
            let q = common_command(query.header, query.is_query);
            ||| w == Some(CommonCommand::EnableEvents) && q == Some(CommonCommand::EnabledEvents)
            ||| w == Some(CommonCommand::EnableRequests) && q == Some(
                CommonCommand::EnabledRequests,
            )
        }),
    ensures
        answer(write, st, errors) == Ok::<ResponseView, ScpiErrorView>(ResponseView::Empty),
        answer(query, state_after(write, st), errors) == Ok::<ResponseView, ScpiErrorView>(
            ResponseView::Integer(register_value(write)->0 as i64),
        ),
        state_after(query, state_after(write, st)) == state_after(write, st),
        ({
            let after = state_after(write, st);
            after.esr == st.esr && after.stb == st.stb && (after.ese == st.ese || after.sre == st.sre)
        }),
{
}

/// A byte that is written to a register is the byte that it holds.
pub proof fn law_bytes_are_written_whole(cmd: CommandView, value: i64)
    requires
        cmd.params.len() > 0,
        integer_of(cmd.params[0]) == Some(value),
        0 <= value <= 255,
    ensures
        register_value(cmd) == Some(value as u8),
{
}

/// A truth value is no number: it is not written to a register, and the
/// command is answered with "Missing parameter".
pub proof fn law_truth_values_are_not_written(
    cmd: CommandView,
    st: Ieee488View,
    errors: Seq<ScpiErrorView>,
)
    requires
        cmd.params.len() > 0,
        cmd.params[0] is Bool,
        common_command(cmd.header, cmd.is_query) == Some(CommonCommand::EnableEvents)
            || common_command(cmd.header, cmd.is_query) == Some(CommonCommand::EnableRequests),
    ensures
        answer(cmd, st, errors) == Err::<ResponseView, ScpiErrorView>(missing_parameter_view()),
        state_after(cmd, st) == st,
{
}

/// Reading the event status register clears it: a second query answers zero.
pub proof fn law_events_are_read_once(
    query: CommandView,
    st: Ieee488View,
    errors: Seq<ScpiErrorView>,
)
    requires
        common_command(query.header, query.is_query) == Some(CommonCommand::Events),
    ensures
        answer(query, st, errors) == Ok::<ResponseView, ScpiErrorView>(
            ResponseView::Integer(st.esr as i64),
        ),
        state_after(query, st) == (Ieee488View { esr: 0, ..st }),
        answer(query, state_after(query, st), errors) == Ok::<ResponseView, ScpiErrorView>(
            ResponseView::Integer(0),
        ),
{
}

/// `*OPC` sets its bit of the event status register and keeps the others.
pub proof fn law_completion_sets_its_bit(cmd: CommandView, st: Ieee488View)
    requires
        common_command(cmd.header, cmd.is_query) == Some(CommonCommand::NoteCompletion),
    ensures
        state_after(cmd, st).esr & esr::OPC == esr::OPC,
        state_after(cmd, st).esr & !esr::OPC == st.esr & !esr::OPC,
{
    let e = st.esr;
    assert((e | 1u8) & 1u8 == 1u8 && (e | 1u8) & !1u8 == e & !1u8) by (bit_vector);
}

/// `*RST` brings the registers to what a new instrument starts with.  The
/// identification and the self-test result stay.
pub proof fn law_reset_restores_power_on(cmd: CommandView, st: Ieee488View)
    requires
        common_command(cmd.header, cmd.is_query) == Some(CommonCommand::Reset),
    ensures
        state_after(cmd, st) == (Ieee488View {
            self_test_result: st.self_test_result,
            ..power_on(st.identification)
        }),
{
}

/// `*CLS` clears the events and the error queue, so that the error bit of
/// the status byte is then as stored.  It keeps the enable registers.
pub proof fn law_clear_status(
    cmd: CommandView,
    query: CommandView,
    st: Ieee488View,
    errors: Seq<ScpiErrorView>,
)
    requires
        common_command(cmd.header, cmd.is_query) == Some(CommonCommand::ClearStatus),
        common_command(query.header, query.is_query) == Some(CommonCommand::StatusByte),
    ensures
        state_after(cmd, st) == (Ieee488View { esr: 0, ..st }),
        errors_after(cmd, errors) == Seq::<ScpiErrorView>::empty(),
        answer(query, state_after(cmd, st), errors_after(cmd, errors)) == Ok::<
            ResponseView,
            ScpiErrorView,
        >(ResponseView::Integer(status_byte(state_after(cmd, st), false) as i64)),
        status_byte(state_after(cmd, st), false) & stb::ERR_QUEUE == st.stb & stb::ERR_QUEUE,
        status_byte(state_after(cmd, st), false) & stb::ESB == st.stb & stb::ESB,
{
    let after = state_after(cmd, st);
    law_status_byte_bits(after, false);
    let s = st.stb;
    let e = st.ese;
    assert(0u8 & e == 0) by (bit_vector);
    let r = status_byte(after, false);
    assert(r & 0x04 == s & 0x04 && r & 0x20 == s & 0x20) by (bit_vector)
        requires
            r & 0x04 != 0 <==> s & 0x04 != 0,
            r & 0x20 != 0 <==> s & 0x20 != 0,
    ;
}

/// A query changes nothing, but for the one that reads the events.  Only
/// `*CLS` takes errors out of the queue, and none is put in.
pub proof fn law_queries_only_read(
    cmd: CommandView,
    st: Ieee488View,
    errors: Seq<ScpiErrorView>,
)
    requires
        cmd.is_query,
        common_command(cmd.header, cmd.is_query) != Some(CommonCommand::Events),
    ensures
        state_after(cmd, st) == st,
        errors_after(cmd, errors) == errors,
{
}

/// A refused command changes nothing.
pub proof fn law_refused_commands_change_nothing(
    cmd: CommandView,
    st: Ieee488View,
    errors: Seq<ScpiErrorView>,
)
    requires
        answer(cmd, st, errors) is Err,
    ensures
        state_after(cmd, st) == st,
        errors_after(cmd, errors) == errors,
{
}

/// The case of a header makes no difference.
pub proof fn law_common_commands_ignore_case(a: Seq<char>, b: Seq<char>, is_query: bool)
    requires
        upper(a) == upper(b),
    ensures
        common_command(a, is_query) == common_command(b, is_query),
{
}

/// Each supported header, as command or as query, is the command that the
/// table lists.
pub proof fn law_headers_of_common_commands(header: Seq<char>)
    ensures
        upper(header) == "*IDN"@ ==> common_command(header, true) == Some(CommonCommand::Identify)
            && common_command(header, false) is None,
        upper(header) == "*RST"@ ==> common_command(header, false) == Some(CommonCommand::Reset)
            && common_command(header, true) is None,
        upper(header) == "*CLS"@ ==> common_command(header, false) == Some(
            CommonCommand::ClearStatus,
        ) && common_command(header, true) is None,
        upper(header) == "*ESE"@ ==> common_command(header, false) == Some(
            CommonCommand::EnableEvents,
        ) && common_command(header, true) == Some(CommonCommand::EnabledEvents),
        upper(header) == "*ESR"@ ==> common_command(header, true) == Some(CommonCommand::Events)
            && common_command(header, false) is None,
        upper(header) == "*OPC"@ ==> common_command(header, false) == Some(
            CommonCommand::NoteCompletion,
        ) && common_command(header, true) == Some(CommonCommand::Completion),
        upper(header) == "*SRE"@ ==> common_command(header, false) == Some(
            CommonCommand::EnableRequests,
        ) && common_command(header, true) == Some(CommonCommand::EnabledRequests),
        upper(header) == "*STB"@ ==> common_command(header, true) == Some(
            CommonCommand::StatusByte,
        ) && common_command(header, false) is None,
        upper(header) == "*TST"@ ==> common_command(header, true) == Some(CommonCommand::SelfTest)
            && common_command(header, false) is None,
        upper(header) == "*WAI"@ ==> common_command(header, false) == Some(CommonCommand::Wait)
            && common_command(header, true) is None,
{
    reveal_strlit("*IDN");
    reveal_strlit("*RST");
    reveal_strlit("*CLS");
    reveal_strlit("*ESE");
    reveal_strlit("*ESR");
    reveal_strlit("*OPC");
    reveal_strlit("*SRE");
    reveal_strlit("*STB");
    reveal_strlit("*TST");
    reveal_strlit("*WAI");
    let h = upper(header);
    assert(h.len() == 4 ==> h == seq![h[0], h[1], h[2], h[3]]);
}

// ---------------------------------------------------------------------------
// Laws of the common commands
// ---------------------------------------------------------------------------

/// The summary bit of the status byte is set exactly if some bit of the byte
/// that is answered is enabled for service requests: another one that is set
/// there, or the summary bit itself where it is stored.
pub proof fn law_summary_bit(st: Ieee488View, errors_wait: bool)
    ensures
        ({
            let r = status_byte(st, errors_wait);
            r & 0x40 != 0 <==> (r & 0xbf) & st.sre != 0 || (st.stb & st.sre) & 0x40 != 0
        }),
        errors_wait && st.sre & 0x04 != 0 ==> status_byte(st, errors_wait) & 0x44 == 0x44,
        st.esr & st.ese != 0 && st.sre & 0x20 != 0 ==> status_byte(st, errors_wait) & 0x60 == 0x60,
{
    let held = st.stb;
    let sre = st.sre;
    let r = status_byte(st, errors_wait);
    let found = status_conditions(st, errors_wait);
    let events = st.esr & st.ese;
    assert(found == held | (if errors_wait { 0x04u8 } else { 0u8 }) | (if events != 0 {
        0x20u8
    } else {
        0u8
    }));
    assert({
        &&& r & 0x40 != 0 <==> (r & 0xbf) & sre != 0 || (held & sre) & 0x40 != 0
        &&& errors_wait && sre & 0x04 != 0 ==> r & 0x44 == 0x44
        &&& events != 0 && sre & 0x20 != 0 ==> r & 0x60 == 0x60
    }) by (bit_vector)
        requires
            found == held | (if errors_wait { 0x04u8 } else { 0u8 }) | (if events != 0 {
                0x20u8
            } else {
                0u8
            }),
            r == (if found & sre != 0 { found | 0x40u8 } else { found & !0x40u8 }),
    ;
}

/// The other bits of the status byte: bit 2 tells of waiting errors, bit 5 of
/// enabled events, and the rest are as stored.
pub proof fn law_condition_bits(st: Ieee488View, errors_wait: bool)
    ensures
        ({
            let r = status_byte(st, errors_wait);
            &&& r & 0x04 != 0 <==> errors_wait || st.stb & 0x04 != 0
            &&& r & 0x20 != 0 <==> st.esr & st.ese != 0 || st.stb & 0x20 != 0
            &&& r & 0x9b == st.stb & 0x9b
        }),
{
    law_status_byte_bits(st, errors_wait);
    assert(!(0x04u8 | 0x20u8 | 0x40u8) == 0x9bu8) by (bit_vector);
}

/// Only the ten headers are common commands, and only in the form that the
/// table lists.
pub proof fn law_only_these_headers_are_common(header: Seq<char>, is_query: bool)
    ensures
        common_command(header, is_query) is Some ==> {
            let h = upper(header);
            ||| h == "*ESE"@ || h == "*OPC"@ || h == "*SRE"@
            ||| is_query && (h == "*IDN"@ || h == "*ESR"@ || h == "*STB"@ || h == "*TST"@)
            ||| !is_query && (h == "*RST"@ || h == "*CLS"@ || h == "*WAI"@)
        },
{
}

/// What the queries answer: the identification, the registers, 1 for a
/// completed operation and the result of the self-test.
pub proof fn law_answers_to_queries(cmd: CommandView, st: Ieee488View, errors: Seq<ScpiErrorView>)
    requires
        cmd.is_query,
    ensures
        ({
            let h = upper(cmd.header);
            let a = answer(cmd, st, errors);
            &&& h == "*IDN"@ ==> a == Ok::<ResponseView, ScpiErrorView>(
                ResponseView::Str(
                    joined(
                        seq![
                            st.identification.manufacturer,
                            st.identification.model,
                            st.identification.serial,
                            st.identification.version,
                        ],
                        ',',
                    ),
                ),
            )
            &&& h == "*ESE"@ ==> a == Ok::<ResponseView, ScpiErrorView>(
                ResponseView::Integer(st.ese as i64),
            )
            &&& h == "*SRE"@ ==> a == Ok::<ResponseView, ScpiErrorView>(
                ResponseView::Integer(st.sre as i64),
            )
            &&& h == "*ESR"@ ==> a == Ok::<ResponseView, ScpiErrorView>(
                ResponseView::Integer(st.esr as i64),
            )
            &&& h == "*OPC"@ ==> a == Ok::<ResponseView, ScpiErrorView>(ResponseView::Integer(1))
            &&& h == "*TST"@ ==> a == Ok::<ResponseView, ScpiErrorView>(
                ResponseView::Integer(st.self_test_result as i64),
            )
            &&& h == "*STB"@ ==> (a matches Ok(ResponseView::Integer(n)) && 0 <= n <= 255 && n as u8
                == status_byte(st, errors.len() > 0))
        }),
{
    law_headers_of_common_commands(cmd.header);
    let id = st.identification;
    let four = seq![id.manufacturer, id.model, id.serial, id.version];
    let three = four.drop_last();
    let two = three.drop_last();
    let one = two.drop_last();
    assert(joined(one, ',') == id.manufacturer);
    assert(joined(two, ',') == id.manufacturer.push(',') + id.model);
    assert(joined(three, ',') == joined(two, ',').push(',') + id.serial);
    assert(joined(four, ',') == joined(three, ',').push(',') + id.version);
    assert(identification_text(id) =~= joined(four, ','));
}

/// What the commands do: each changes what it names and nothing else.  `*RST`
/// clears the enables and the stored byte and leaves only the power-on event;
/// `*CLS` clears the events and the errors; `*ESE` and `*SRE` set their
/// register to the lowest eight bits of their first parameter; `*OPC` notes
/// the completion; `*ESR?` clears the events that it reads.
pub proof fn law_effects_of_commands(
    cmd: CommandView,
    st: Ieee488View,
    errors: Seq<ScpiErrorView>,
)
    ensures
        ({
            let h = upper(cmd.header);
            let after = state_after(cmd, st);
            let n = integer_of(cmd.params[0]);
            let known = cmd.params.len() > 0 && n is Some;
            &&& h == "*RST"@ && !cmd.is_query ==> after == (Ieee488View {
                ese: 0,
                esr: 0x80,
                sre: 0,
                stb: 0,
                ..st
            })
            &&& h == "*CLS"@ && !cmd.is_query ==> after == (Ieee488View { esr: 0, ..st })
            &&& h == "*ESE"@ && !cmd.is_query ==> after == (Ieee488View {
                ese: if known { (n->0 as int % 256) as u8 } else { st.ese },
                ..st
            })
            &&& h == "*SRE"@ && !cmd.is_query ==> after == (Ieee488View {
                sre: if known { (n->0 as int % 256) as u8 } else { st.sre },
                ..st
            })
            &&& (h == "*ESE"@ || h == "*SRE"@) && !cmd.is_query ==> (answer(cmd, st, errors) is Ok
                <==> known)
            &&& h == "*OPC"@ && !cmd.is_query ==> after == (Ieee488View { esr: st.esr | 1, ..st })
            &&& h == "*ESR"@ && cmd.is_query ==> after == (Ieee488View { esr: 0, ..st })
            &&& after == st || (h == "*ESR"@ && cmd.is_query) || (!cmd.is_query && (h == "*RST"@ || h
                == "*CLS"@ || h == "*ESE"@ || h == "*SRE"@ || h == "*OPC"@))
            &&& errors_after(cmd, errors) == (if h == "*CLS"@ && !cmd.is_query {
                Seq::empty()
            } else {
                errors
            })
        }),
{
    law_headers_of_common_commands(cmd.header);
}

/// What is no query has no value to answer with: it is answered with the
/// empty response, or refused.  A header that is no common command is an
/// undefined header, and a register that is given no number misses one.
pub proof fn law_answers_to_commands(cmd: CommandView, st: Ieee488View, errors: Seq<ScpiErrorView>)
    ensures
        common_command(cmd.header, cmd.is_query) is None <==> answer(cmd, st, errors) == Err::<
            ResponseView,
            ScpiErrorView,
        >(ScpiErrorView { code: -113, message: "Undefined header"@ }),
        !cmd.is_query ==> (answer(cmd, st, errors) matches Ok(r) ==> r is Empty),
        cmd.is_query ==> (answer(cmd, st, errors) matches Ok(r) ==> r is Integer || r is Str),
        common_command(cmd.header, cmd.is_query) is Some && answer(cmd, st, errors) is Err
            ==> answer(cmd, st, errors) == Err::<ResponseView, ScpiErrorView>(
            ScpiErrorView { code: -109, message: "Missing parameter"@ },
        ),
{
}

/// An instrument that has just been switched on has had the power-on event,
/// and every other bit of every register is clear.
pub proof fn law_power_on(id: IdentificationView)
    ensures
        ({
            let st = power_on(id);
            &&& st.identification == id
            &&& st.esr == 0x80
            &&& st.ese == 0 && st.sre == 0 && st.stb == 0 && st.self_test_result == 0
        }),
        status_byte(power_on(id), false) == 0,
{
    assert(0x80u8 & 0u8 == 0 && 0u8 | 0u8 | 0u8 == 0 && 0u8 & 0u8 == 0 && 0u8 & !0x40u8 == 0)
        by (bit_vector);
}

/// The bits of the registers, from the lowest to the highest, each twice the
/// one before it.
pub proof fn law_register_bits()
    ensures
        esr::OPC == 1,
        esr::RQC == 2 * esr::OPC && esr::QYE == 2 * esr::RQC && esr::DDE == 2 * esr::QYE,
        esr::EXE == 2 * esr::DDE && esr::CME == 2 * esr::EXE && esr::URQ == 2 * esr::CME,
        esr::PON == 2 * esr::URQ && esr::PON == 128,
        stb::ERR_QUEUE == 4,
        stb::QUESTIONABLE == 2 * stb::ERR_QUEUE && stb::MAV == 2 * stb::QUESTIONABLE,
        stb::ESB == 2 * stb::MAV && stb::MSS_RQS == 2 * stb::ESB,
        stb::OPERATION == 2 * stb::MSS_RQS && stb::OPERATION == 128,
{
}

} // verus!
