//! The device: routes incoming messages to registered command handlers or
//! the IEEE 488.2 built-ins.

use vstd::prelude::*;

use crate::binary64::Binary64;
use crate::command::{
    command_views, lemma_response_views, reads_any, renders, response_views, take_shorthands,
    with_shorthands, writes_any, Command, CommandView, ParamView, Response, ResponseView,
};
use crate::error::{
    command_error, left_over, next_out, undefined_header, ErrorQueue, ScpiError, ScpiErrorView,
};
use crate::ieee488::{
    answer, common_command, errors_after, handle_common_command, identification_text,
    law_effects_of_commands, law_headers_of_common_commands, law_refused_commands_change_nothing,
    power_on, register_value, state_after,
    undefined_header_view, Identification, Ieee488State, Ieee488View,
};
use crate::number::signed_decimal;
use crate::parser::{
    law_common_command_with_integer, law_common_query, law_compound_literally, parse_literal,
    parses_literally,
};
use crate::text::{law_trimming, texts, trim, trimmed, upper, CharClass};
use crate::token::{can_be_ended, compound, is_star_word};

verus! {

// ---------------------------------------------------------------------------
// Dispatch
// ---------------------------------------------------------------------------

/// The state of a device that messages change.  The handlers, which no
/// message changes, are stated by [`Device::handlers`].
pub struct DeviceView {
    pub state: Ieee488View,
    pub errors: Seq<ScpiErrorView>,
}

/// `handler` can be asked about every command.
pub open spec fn takes_any<H: Fn(&Command) -> Option<Response>>(handler: H) -> bool {
    forall|cmd: &Command| #[trigger] call_requires(handler, (cmd,))
}

/// `handler` may pass `cmd` on.
pub open spec fn passes<H: Fn(&Command) -> Option<Response>>(handler: H, cmd: Command) -> bool {
    call_ensures(handler, (&cmd,), None)
}

/// `handler` may answer `cmd` with `response`.
pub open spec fn answers<H: Fn(&Command) -> Option<Response>>(
    handler: H,
    cmd: Command,
    response: ResponseView,
) -> bool {
    exists|r: Response| r@ == response && #[trigger] call_ensures(handler, (&cmd,), Some(r))
}

/// All of the first `n` handlers may pass `cmd` on.
pub open spec fn first_pass<H: Fn(&Command) -> Option<Response>>(
    handlers: Seq<H>,
    cmd: Command,
    n: int,
) -> bool {
    forall|j: int| 0 <= j < n ==> passes(#[trigger] handlers[j], cmd)
}

/// What the handlers, tried in order, may make of `cmd`: the answer of one
/// where all before it passed, or nothing where all passed.
pub open spec fn handled_by<H: Fn(&Command) -> Option<Response>>(
    handlers: Seq<H>,
    cmd: Command,
    handled: Option<ResponseView>,
) -> bool {
    match handled {
        Some(response) => exists|i: int|
            0 <= i < handlers.len() && answers(#[trigger] handlers[i], cmd, response) && first_pass(
                handlers,
                cmd,
                i,
            ),
        None => first_pass(handlers, cmd, handlers.len() as int),
    }
}

/// What the handlers may make of a command whose parameters are as they are
/// written: they are handed it with the boolean shorthands taken.
pub open spec fn may_handle<H: Fn(&Command) -> Option<Response>>(
    handlers: Seq<H>,
    literal: CommandView,
    handled: Option<ResponseView>,
) -> bool {
    exists|cmd: Command|
        cmd@ == with_shorthands(literal) && #[trigger] handled_by(handlers, cmd, handled)
}

/// Whether a command is left to the handlers: it is no common command.
pub open spec fn is_custom(cmd: CommandView) -> bool {
    common_command(cmd.header, cmd.is_query) is None
}

/// What [`command_error`] stands for.
pub open spec fn command_error_view() -> ScpiErrorView {
    ScpiErrorView { code: -100, message: "Command error"@ }
}

/// The response to a command, where `handled` is what the handlers make of
/// it if it is left to them.  Only a query is given a handler's answer.
pub open spec fn response_to(
    d: DeviceView,
    cmd: CommandView,
    handled: Option<ResponseView>,
) -> ResponseView {
    if is_custom(cmd) {
        match handled {
            Some(response) => if cmd.is_query { response } else { ResponseView::Empty },
            None => ResponseView::Empty,
        }
    } else {
        match answer(cmd, d.state, d.errors) {
            Ok(response) => response,
            Err(_) => ResponseView::Empty,
        }
    }
}

/// The device once a command has been dispatched.  A command that nothing
/// answers, and one that is refused, leave an error behind.
pub open spec fn device_after(
    d: DeviceView,
    cmd: CommandView,
    handled: Option<ResponseView>,
) -> DeviceView {
    if is_custom(cmd) {
        match handled {
            Some(_) => d,
            None => DeviceView { errors: d.errors.push(command_error_view()), ..d },
        }
    } else {
        DeviceView {
            state: state_after(cmd, d.state),
            errors: match answer(cmd, d.state, d.errors) {
                Ok(_) => errors_after(cmd, d.errors),
                Err(error) => d.errors.push(error),
            },
        }
    }
}

/// A command, with its parameters as they are written, may be dispatched so
/// that it gets `response` and leaves the device as `after`, with `handled`
/// what the handlers make of it.
pub open spec fn dispatches<H: Fn(&Command) -> Option<Response>>(
    handlers: Seq<H>,
    d: DeviceView,
    cmd: CommandView,
    handled: Option<ResponseView>,
    response: ResponseView,
    after: DeviceView,
) -> bool {
    &&& is_custom(cmd) ==> may_handle(handlers, cmd, handled)
    &&& response == response_to(d, cmd, handled)
    &&& after == device_after(d, cmd, handled)
}

/// The device once a run of commands has been dispatched.
pub open spec fn device_after_all(
    d: DeviceView,
    cmds: Seq<CommandView>,
    handled: Seq<Option<ResponseView>>,
) -> DeviceView
    decreases cmds.len(),
{
    if cmds.len() == 0 {
        d
    } else {
        device_after(
            device_after_all(d, cmds.drop_last(), handled.drop_last()),
            cmds.last(),
            handled.last(),
        )
    }
}

/// The responses to a run of commands, one for each.
pub open spec fn responses_to(
    d: DeviceView,
    cmds: Seq<CommandView>,
    handled: Seq<Option<ResponseView>>,
) -> Seq<ResponseView>
    decreases cmds.len(),
{
    if cmds.len() == 0 {
        Seq::empty()
    } else {
        responses_to(d, cmds.drop_last(), handled.drop_last()).push(
            response_to(
                device_after_all(d, cmds.drop_last(), handled.drop_last()),
                cmds.last(),
                handled.last(),
            ),
        )
    }
}

/// `handled` is what the handlers may make of the commands that are left to
/// them.
pub open spec fn all_handled_by<H: Fn(&Command) -> Option<Response>>(
    handlers: Seq<H>,
    cmds: Seq<CommandView>,
    handled: Seq<Option<ResponseView>>,
) -> bool {
    &&& handled.len() == cmds.len()
    &&& forall|i: int|
        0 <= i < cmds.len() && is_custom(#[trigger] cmds[i]) ==> may_handle(
            handlers,
            cmds[i],
            handled[i],
        )
}

/// How a device may take a message: it stands for some commands, the
/// handlers make something of theirs, and the responses and the device after
/// them follow.  Common commands take their parameters as they are written.
pub open spec fn takes_message<H: Fn(&Command) -> Option<Response>, F: Fn(&str) -> Option<Binary64>>(
    handlers: Seq<H>,
    read: F,
    message: Seq<char>,
    d: DeviceView,
    responses: Seq<ResponseView>,
    after: DeviceView,
) -> bool {
    exists|cmds: Seq<CommandView>, handled: Seq<Option<ResponseView>>|
        {
            &&& parses_literally(read, message, cmds)
            &&& #[trigger] all_handled_by(handlers, cmds, handled)
            &&& responses == responses_to(d, cmds, handled)
            &&& after == device_after_all(d, cmds, handled)
        }
}

// ---------------------------------------------------------------------------
// Device
// ---------------------------------------------------------------------------

/// A SCPI device that dispatches incoming messages to registered handlers.
///
/// `Device` owns:
/// * an [`Ieee488State`] for IEEE 488.2 common commands,
/// * an [`ErrorQueue`] that accumulates errors,
/// * a list of user-registered command handlers tried in registration order.
///
/// A handler receives a [`Command`] and returns `Some(Response)` if it
/// handles the command, or `None` to pass to the next handler.  Handlers of
/// several kinds share a device as boxed closures.
///
/// Call [`Device::process`] to handle a raw SCPI message string.  The method
/// returns one [`Response`] per parsed command (empty responses for
/// non-query commands, or an error in the queue if no handler matched).
pub struct Device<H: Fn(&Command) -> Option<Response>> {
    /// IEEE 488.2 state (registers + identification).
    pub state: Ieee488State,
    /// SCPI error queue.
    pub error_queue: ErrorQueue,
    /// User-registered handlers, tried in order.
    handlers: Vec<H>,
}

impl<H: Fn(&Command) -> Option<Response>> View for Device<H> {
    type V = DeviceView;

    closed spec fn view(&self) -> DeviceView {
        DeviceView { state: self.state@, errors: self.error_queue@ }
    }
}

impl<H: Fn(&Command) -> Option<Response>> Device<H> {
    /// The handlers, in the order in which they are tried.
    pub closed spec fn handlers(&self) -> Seq<H> {
        self.handlers@
    }

    /// Every handler can be asked about every command.
    pub open spec fn well_formed(&self) -> bool {
        forall|i: int| 0 <= i < self.handlers().len() ==> takes_any(#[trigger] self.handlers()[i])
    }

    /// Create a new `Device` with the given identification.
    pub fn new(identification: Identification) -> (r: Self)
        ensures
            r.well_formed(),
            r@ == (DeviceView { state: power_on(identification@), errors: Seq::empty() }),
            r.handlers() == Seq::<H>::empty(),
    {
        Device {
            state: Ieee488State::new(identification),
            error_queue: ErrorQueue::new(),
            handlers: Vec::new(),
        }
    }

    /// Register a command handler.
    ///
    /// Handlers are tried in the order they were registered.  The first
    /// handler that returns `Some(response)` "wins".
    pub fn register(&mut self, handler: H)
        requires
            old(self).well_formed(),
            takes_any(handler),
        ensures
            final(self).well_formed(),
            final(self)@ == old(self)@,
            final(self).handlers() == old(self).handlers().push(handler),
    {
        let ghost before = self.handlers();
        self.handlers.push(handler);
        proof {
            assert(self.handlers() == before.push(handler));
            assert forall|i: int| 0 <= i < self.handlers().len() implies takes_any(
                #[trigger] self.handlers()[i],
            ) by {
                if i < before.len() {
                    assert(takes_any(before[i]));
                }
            }
        }
    }

    /// The IEEE 488.2 state.
    pub fn registers(&self) -> (r: &Ieee488State)
        ensures
            r@ == self@.state,
    {
        &self.state
    }

    /// The errors that have been queued.
    pub fn errors(&self) -> (r: &ErrorQueue)
        ensures
            r@ == self@.errors,
    {
        &self.error_queue
    }

    /// Return the number of registered handlers.
    pub fn handler_count(&self) -> (r: usize)
        ensures
            r == self.handlers().len(),
    {
        self.handlers.len()
    }

    /// Try the handlers in order.
    fn ask_handlers(&self, cmd: &Command) -> (r: Option<Response>)
        requires
            self.well_formed(),
        ensures
            handled_by(
                self.handlers(),
                *cmd,
                match r {
                    Some(response) => Some(response@),
                    None => None,
                },
            ),
    {
        let mut i: usize = 0;
        while i < self.handlers.len()
            invariant
                self.well_formed(),
                0 <= i <= self.handlers@.len(),
                first_pass(self.handlers(), *cmd, i as int),
            decreases self.handlers@.len() - i,
        {
            let handler = &self.handlers[i];
            assert(takes_any(self.handlers()[i as int]));
            let r = handler(cmd);
            assert(call_ensures(self.handlers()[i as int], (cmd,), r));
            if let Some(response) = r {
                assert(answers(self.handlers()[i as int], *cmd, response@));
                return Some(response);
            }
            i = i + 1;
        }
        None
    }

    /// Dispatch a single [`Command`] through IEEE 488.2 common handlers and
    /// then user-registered handlers.  The parameters are as they are
    /// written; the handlers are handed 1 and 0 as truth values.
    pub fn dispatch(&mut self, cmd: &Command) -> (r: Response)
        requires
            old(self).well_formed(),
        ensures
            final(self).well_formed(),
            final(self).handlers() == old(self).handlers(),
            exists|handled: Option<ResponseView>| #[trigger]
                dispatches(
                    old(self).handlers(),
                    old(self)@,
                    cmd@,
                    handled,
                    r@,
                    final(self)@,
                ),
    {
        let ghost d = self@;
        let ghost hs = self.handlers();
        // 1. Try IEEE 488.2 common commands.
        match handle_common_command(cmd, &mut self.state, &mut self.error_queue) {
            Ok(response) => {
                proof {
                    assert(self.handlers() == hs);
                    assert(dispatches(hs, d, cmd@, None, response@, self@));
                }
                return response;
            },
            Err(e) => {
                assert(self.handlers() == hs);
                if e != undefined_header() {
                    self.error_queue.push(e);
                    let response = Response::Empty;
                    proof {
                        assert(self.handlers() == hs);
                        assert(dispatches(hs, d, cmd@, None, response@, self@));
                    }
                    return response;
                }
                // Not a common command.
                proof {
                    lemma_undefined_is_custom(cmd@, d);
                }
            },
        }
        // 2. Try user-registered handlers.
        let given = take_shorthands(cmd);
        match self.ask_handlers(&given) {
            Some(answered) => {
                let ghost handled = answered@;
                // What is no query succeeds without a value.
                let response = if cmd.is_query { answered } else { Response::Empty };
                proof {
                    assert(handled_by(hs, given, Some(handled)));
                    assert(dispatches(hs, d, cmd@, Some(handled), response@, self@));
                }
                response
            },
            None => {
                // 3. No handler matched: push command error.
                self.error_queue.push(command_error());
                let response = Response::Empty;
                proof {
                    assert(self.handlers() == hs);
                    assert(handled_by(hs, given, None));
                    assert(dispatches(hs, d, cmd@, None, response@, self@));
                }
                response
            },
        }
    }
}

impl<H: Fn(&Command) -> Option<Response>> Device<H> {
    /// Process a raw SCPI message string and return responses.
    ///
    /// Each parsed sub-command produces exactly one entry in the returned
    /// `Vec`:
    /// * Query commands produce a [`Response`] value.
    /// * Non-query commands produce [`Response::Empty`] on success.
    /// * Unrecognised commands produce [`Response::Empty`] and push an
    ///   error onto the error queue.
    ///
    /// `read` reads floating-point numbers.
    pub fn process<F: Fn(&str) -> Option<Binary64>>(&mut self, message: &str, read: &F) -> (r: Vec<
        Response,
    >)
        requires
            old(self).well_formed(),
            reads_any(*read),
        ensures
            final(self).well_formed(),
            final(self).handlers() == old(self).handlers(),
            takes_message(
                old(self).handlers(),
                *read,
                message@,
                old(self)@,
                response_views(r@),
                final(self)@,
            ),
    {
        let commands = parse_literal(message, read);
        let ghost d = self@;
        let ghost hs = self.handlers();
        let ghost views = command_views(commands@);
        let mut responses: Vec<Response> = Vec::new();
        let ghost mut handled: Seq<Option<ResponseView>> = Seq::empty();
        let mut i: usize = 0;
        while i < commands.len()
            invariant
                self.well_formed(),
                self.handlers() == hs,
                views == command_views(commands@),
                0 <= i <= commands@.len(),
                all_handled_by(hs, views.take(i as int), handled),
                self@ == device_after_all(d, views.take(i as int), handled),
                response_views(responses@) == responses_to(d, views.take(i as int), handled),
            decreases commands@.len() - i,
        {
            let ghost before = self@;
            let ghost sent = responses@;
            let cmd = &commands[i];
            let response = self.dispatch(cmd);
            proof {
                let h = choose|h: Option<ResponseView>| #[trigger]
                    dispatches(hs, before, cmd@, h, response@, self@);
                let more = handled.push(h);
                assert(more.drop_last() =~= handled);
                assert(views.take(i + 1).drop_last() =~= views.take(i as int));
                assert(views.take(i + 1).last() == cmd@);
                let cs = views.take(i + 1);
                assert forall|j: int| 0 <= j < cs.len() && is_custom(#[trigger] cs[j]) implies
                    may_handle(hs, cs[j], more[j]) by {
                    if j < i {
                        assert(cs[j] == views.take(i as int)[j]);
                    }
                }
                handled = more;
            }
            responses.push(response);
            proof {
                assert(responses@.drop_last() =~= sent);
            }
            i = i + 1;
        }
        proof {
            assert(views.take(i as int) =~= views);
        }
        responses
    }

    /// Pop the oldest error from the error queue (returns `no_error()` if
    /// empty).
    pub fn next_error(&mut self) -> (r: ScpiError)
        requires
            old(self).well_formed(),
        ensures
            final(self).well_formed(),
            final(self).handlers() == old(self).handlers(),
            r@ == next_out(old(self)@.errors),
            final(self)@ == (DeviceView { errors: left_over(old(self)@.errors), ..old(self)@ }),
    {
        let ghost hs = self.handlers();
        let r = self.error_queue.pop();
        assert(self.handlers() == hs);
        r
    }

    /// Process one message as it came from a link and return the lines to
    /// send back, each with its `\n`.
    ///
    /// White space around the message is dropped, and a blank message is
    /// passed over.  Empty responses are not sent.
    pub fn reply_lines<F: Fn(&str) -> Option<Binary64>, G: Fn(Binary64) -> String>(
        &mut self,
        message: &str,
        read: &F,
        write: &G,
    ) -> (r: Vec<String>)
        requires
            old(self).well_formed(),
            reads_any(*read),
            writes_any(*write),
        ensures
            final(self).well_formed(),
            final(self).handlers() == old(self).handlers(),
            takes_line(
                old(self).handlers(),
                *read,
                *write,
                message@,
                old(self)@,
                texts(r@),
                final(self)@,
            ),
    {
        let mut lines: Vec<String> = Vec::new();
        let msg = trim(message);
        if msg.is_empty() {
            assert(texts(lines@) =~= Seq::<Seq<char>>::empty());
            return lines;
        }
        let responses = self.process(msg, read);
        let ghost all = response_views(responses@);
        proof {
            lemma_response_views(responses@);
        }
        let mut i: usize = 0;
        while i < responses.len()
            invariant
                writes_any(*write),
                all == response_views(responses@),
                0 <= i <= responses@.len(),
                renders_lines(*write, sent(all.take(i as int)), texts(lines@)),
            decreases responses@.len() - i,
        {
            let response = &responses[i];
            proof {
                lemma_response_views(responses@);
                assert(all.take(i + 1).drop_last() =~= all.take(i as int));
                assert(all[i as int] == response@);
            }
            if !response.is_empty() {
                let ghost before = lines@;
                let mut line = response.to_string(write);
                let ghost text = line@;
                line.push('\n');
                lines.push(line);
                proof {
                    assert(texts(lines@).drop_last() =~= texts(before));
                    assert(texts(lines@).last() == text.push('\n'));
                    assert(sent(all.take(i + 1)).drop_last() =~= sent(all.take(i as int)));
                    assert(renders_line(*write, response@, text.push('\n')));
                }
            }
            i = i + 1;
        }
        proof {
            lemma_response_views(responses@);
            assert(all.take(i as int) =~= all);
        }
        lines
    }
}

/// The responses that are sent: all but the empty ones.
pub open spec fn sent(responses: Seq<ResponseView>) -> Seq<ResponseView>
    decreases responses.len(),
{
    if responses.len() == 0 {
        Seq::empty()
    } else if responses.last() is Empty {
        sent(responses.drop_last())
    } else {
        sent(responses.drop_last()).push(responses.last())
    }
}

/// `line` is a response as it may be sent, and a line feed.
pub open spec fn renders_line<G: Fn(Binary64) -> String>(
    write: G,
    response: ResponseView,
    line: Seq<char>,
) -> bool {
    exists|text: Seq<char>| renders(write, response, text) && line == #[trigger] text.push('\n')
}

/// The responses may be sent as the lines, one for one.
pub open spec fn renders_lines<G: Fn(Binary64) -> String>(
    write: G,
    responses: Seq<ResponseView>,
    lines: Seq<Seq<char>>,
) -> bool
    decreases responses.len(),
{
    if responses.len() == 0 {
        lines.len() == 0
    } else {
        lines.len() > 0 && renders_line(write, responses.last(), lines.last()) && renders_lines(
            write,
            responses.drop_last(),
            lines.drop_last(),
        )
    }
}

/// How a device may take a message from a link: a blank one changes nothing
/// and is not answered, and of any other the responses that are not empty
/// are sent, in order.
pub open spec fn takes_line<
    H: Fn(&Command) -> Option<Response>,
    F: Fn(&str) -> Option<Binary64>,
    G: Fn(Binary64) -> String,
>(
    handlers: Seq<H>,
    read: F,
    write: G,
    message: Seq<char>,
    d: DeviceView,
    lines: Seq<Seq<char>>,
    after: DeviceView,
) -> bool {
    if trimmed(message).len() == 0 {
        lines.len() == 0 && after == d
    } else {
        exists|responses: Seq<ResponseView>|
            #[trigger] takes_message(handlers, read, trimmed(message), d, responses, after)
                && renders_lines(write, sent(responses), lines)
    }
}

/// Only commands that are left to the handlers are undefined headers.
proof fn lemma_undefined_is_custom(cmd: CommandView, d: DeviceView)
    requires
        answer(cmd, d.state, d.errors) == Err::<ResponseView, ScpiErrorView>(
            undefined_header_view(),
        ),
    ensures
        is_custom(cmd),
{
}

// ---------------------------------------------------------------------------
// Laws of dispatch
// ---------------------------------------------------------------------------

/// Every command gets exactly one response, and never more lines than that
/// are sent.
pub proof fn law_one_response_per_command(
    d: DeviceView,
    cmds: Seq<CommandView>,
    handled: Seq<Option<ResponseView>>,
)
    ensures
        responses_to(d, cmds, handled).len() == cmds.len(),
        sent(responses_to(d, cmds, handled)).len() <= cmds.len(),
    decreases cmds.len(),
{
    if cmds.len() > 0 {
        law_one_response_per_command(d, cmds.drop_last(), handled.drop_last());
        assert(responses_to(d, cmds, handled).drop_last() =~= responses_to(
            d,
            cmds.drop_last(),
            handled.drop_last(),
        ));
    }
}

/// A run of commands can be cut anywhere: the commands behind the cut are
/// dispatched to the device that the ones before it leave.
pub proof fn law_dispatch_in_steps(
    d: DeviceView,
    ca: Seq<CommandView>,
    ha: Seq<Option<ResponseView>>,
    cb: Seq<CommandView>,
    hb: Seq<Option<ResponseView>>,
)
    requires
        ha.len() == ca.len(),
        hb.len() == cb.len(),
    ensures
        ({
            let mid = device_after_all(d, ca, ha);
            &&& device_after_all(d, ca + cb, ha + hb) == device_after_all(mid, cb, hb)
            &&& responses_to(d, ca + cb, ha + hb) == responses_to(d, ca, ha) + responses_to(
                mid,
                cb,
                hb,
            )
        }),
    decreases cb.len(),
{
    let mid = device_after_all(d, ca, ha);
    if cb.len() == 0 {
        assert(ca + cb =~= ca);
        assert(ha + hb =~= ha);
        assert(responses_to(d, ca, ha) + responses_to(mid, cb, hb) =~= responses_to(d, ca, ha));
    } else {
        law_dispatch_in_steps(d, ca, ha, cb.drop_last(), hb.drop_last());
        assert((ca + cb).drop_last() =~= ca + cb.drop_last());
        assert((ha + hb).drop_last() =~= ha + hb.drop_last());
        assert((ca + cb).last() == cb.last() && (ha + hb).last() == hb.last());
        assert(responses_to(d, ca + cb, ha + hb) =~= responses_to(d, ca, ha) + responses_to(
            mid,
            cb,
            hb,
        ));
    }
}

/// The handlers may make of two runs of commands, one behind the other, what
/// they may make of each.
proof fn lemma_handled_in_steps<H: Fn(&Command) -> Option<Response>>(
    handlers: Seq<H>,
    ca: Seq<CommandView>,
    ha: Seq<Option<ResponseView>>,
    cb: Seq<CommandView>,
    hb: Seq<Option<ResponseView>>,
)
    requires
        ha.len() == ca.len(),
    ensures
        all_handled_by(handlers, ca + cb, ha + hb) <==> all_handled_by(handlers, ca, ha)
            && all_handled_by(handlers, cb, hb),
{
    let c = ca + cb;
    let h = ha + hb;
    let n = ca.len() as int;
    if all_handled_by(handlers, c, h) {
        assert forall|i: int| 0 <= i < ca.len() && is_custom(#[trigger] ca[i]) implies may_handle(
            handlers,
            ca[i],
            ha[i],
        ) by {
            assert(c[i] == ca[i] && h[i] == ha[i]);
        }
        assert forall|i: int| 0 <= i < cb.len() && is_custom(#[trigger] cb[i]) implies may_handle(
            handlers,
            cb[i],
            hb[i],
        ) by {
            assert(c[n + i] == cb[i] && h[n + i] == hb[i]);
        }
    }
}

/// What a compound message does, its two parts do one after the other.
proof fn lemma_compound_comes_apart<
    H: Fn(&Command) -> Option<Response>,
    F: Fn(&str) -> Option<Binary64>,
>(
    handlers: Seq<H>,
    read: F,
    a: Seq<char>,
    b: Seq<char>,
    d: DeviceView,
    responses: Seq<ResponseView>,
    after: DeviceView,
)
    requires
        can_be_ended(a),
        takes_message(handlers, read, compound(a, b), d, responses, after),
    ensures
        exists|ra: Seq<ResponseView>, rb: Seq<ResponseView>, mid: DeviceView|
            {
                &&& #[trigger] takes_message(handlers, read, a, d, ra, mid)
                &&& #[trigger] takes_message(handlers, read, b, mid, rb, after)
                &&& responses == ra + rb
            },
{
    let (cmds, handled) = choose|cmds: Seq<CommandView>, handled: Seq<Option<ResponseView>>|
        {
            &&& parses_literally(read, compound(a, b), cmds)
            &&& #[trigger] all_handled_by(handlers, cmds, handled)
            &&& responses == responses_to(d, cmds, handled)
            &&& after == device_after_all(d, cmds, handled)
        };
    law_compound_literally(read, a, b, cmds);
    let (ca, cb) = choose|ca: Seq<CommandView>, cb: Seq<CommandView>| #[trigger]
        parses_literally(read, a, ca) && #[trigger] parses_literally(read, b, cb) && cmds == ca
            + cb;
    let n = ca.len() as int;
    let ha = handled.take(n);
    let hb = handled.skip(n);
    assert(ha + hb =~= handled);
    law_dispatch_in_steps(d, ca, ha, cb, hb);
    lemma_handled_in_steps(handlers, ca, ha, cb, hb);
    let mid = device_after_all(d, ca, ha);
    let ra = responses_to(d, ca, ha);
    let rb = responses_to(mid, cb, hb);
    assert(takes_message(handlers, read, a, d, ra, mid));
    assert(takes_message(handlers, read, b, mid, rb, after));
}

/// What two messages do one after the other, their compound message does.
proof fn lemma_compound_comes_together<
    H: Fn(&Command) -> Option<Response>,
    F: Fn(&str) -> Option<Binary64>,
>(
    handlers: Seq<H>,
    read: F,
    a: Seq<char>,
    b: Seq<char>,
    d: DeviceView,
    ra: Seq<ResponseView>,
    mid: DeviceView,
    rb: Seq<ResponseView>,
    after: DeviceView,
)
    requires
        can_be_ended(a),
        takes_message(handlers, read, a, d, ra, mid),
        takes_message(handlers, read, b, mid, rb, after),
    ensures
        takes_message(handlers, read, compound(a, b), d, ra + rb, after),
{
    let (ca, ha) = choose|cmds: Seq<CommandView>, handled: Seq<Option<ResponseView>>|
        {
            &&& parses_literally(read, a, cmds)
            &&& #[trigger] all_handled_by(handlers, cmds, handled)
            &&& ra == responses_to(d, cmds, handled)
            &&& mid == device_after_all(d, cmds, handled)
        };
    let (cb, hb) = choose|cmds: Seq<CommandView>, handled: Seq<Option<ResponseView>>|
        {
            &&& parses_literally(read, b, cmds)
            &&& #[trigger] all_handled_by(handlers, cmds, handled)
            &&& rb == responses_to(mid, cmds, handled)
            &&& after == device_after_all(mid, cmds, handled)
        };
    law_compound_literally(read, a, b, ca + cb);
    law_dispatch_in_steps(d, ca, ha, cb, hb);
    lemma_handled_in_steps(handlers, ca, ha, cb, hb);
    assert(all_handled_by(handlers, ca + cb, ha + hb));
}

/// A compound message is taken as its two parts are, one after the other:
/// the responses to the first come first, and the second meets the device
/// that the first leaves.
pub proof fn law_compound_is_taken_in_turn<
    H: Fn(&Command) -> Option<Response>,
    F: Fn(&str) -> Option<Binary64>,
>(
    handlers: Seq<H>,
    read: F,
    a: Seq<char>,
    b: Seq<char>,
    d: DeviceView,
    responses: Seq<ResponseView>,
    after: DeviceView,
)
    requires
        can_be_ended(a),
    ensures
        takes_message(handlers, read, compound(a, b), d, responses, after) <==> exists|
            ra: Seq<ResponseView>,
            rb: Seq<ResponseView>,
            mid: DeviceView,
        |
            {
                &&& #[trigger] takes_message(handlers, read, a, d, ra, mid)
                &&& #[trigger] takes_message(handlers, read, b, mid, rb, after)
                &&& responses == ra + rb
            },
{
    if takes_message(handlers, read, compound(a, b), d, responses, after) {
        lemma_compound_comes_apart(handlers, read, a, b, d, responses, after);
    }
    assert forall|ra: Seq<ResponseView>, rb: Seq<ResponseView>, mid: DeviceView|
        {
            &&& #[trigger] takes_message(handlers, read, a, d, ra, mid)
            &&& #[trigger] takes_message(handlers, read, b, mid, rb, after)
            &&& responses == ra + rb
        } implies takes_message(handlers, read, compound(a, b), d, responses, after) by {
        lemma_compound_comes_together(handlers, read, a, b, d, ra, mid, rb, after);
    }
}

/// A command that is neither common nor answered by a handler gets the
/// empty response, and "Command error" is added to the queue.
pub proof fn law_unanswered_commands_leave_an_error(d: DeviceView, cmd: CommandView)
    requires
        is_custom(cmd),
    ensures
        response_to(d, cmd, None) is Empty,
        device_after(d, cmd, None) == (DeviceView {
            errors: d.errors.push(command_error_view()),
            ..d
        }),
{
}

/// Handlers neither see common commands nor change what they do.
pub proof fn law_common_commands_are_not_handled(
    d: DeviceView,
    cmd: CommandView,
    h1: Option<ResponseView>,
    h2: Option<ResponseView>,
)
    requires
        !is_custom(cmd),
    ensures
        response_to(d, cmd, h1) == response_to(d, cmd, h2),
        device_after(d, cmd, h1) == device_after(d, cmd, h2),
{
}

/// Only queries are answered: every other command gets the empty response,
/// whatever a handler makes of it.  A common query always gets an answer.
pub proof fn law_only_queries_are_answered(
    d: DeviceView,
    cmd: CommandView,
    handled: Option<ResponseView>,
)
    ensures
        !cmd.is_query ==> response_to(d, cmd, handled) is Empty,
        cmd.is_query && !is_custom(cmd) ==> !(response_to(d, cmd, handled) is Empty),
        cmd.is_query && is_custom(cmd) && handled is Some ==> response_to(d, cmd, handled)
            == handled->0,
{
}

/// The first handler to answer wins: one that is registered later is not
/// asked about what an earlier one answers, and a command is unanswered only
/// if every handler passes it on.
pub proof fn law_first_handler_wins<H: Fn(&Command) -> Option<Response>>(
    handlers: Seq<H>,
    later: H,
    cmd: Command,
    response: ResponseView,
)
    ensures
        handled_by(handlers, cmd, Some(response)) ==> handled_by(
            handlers.push(later),
            cmd,
            Some(response),
        ),
        handled_by(handlers.push(later), cmd, None) <==> handled_by(handlers, cmd, None)
            && passes(later, cmd),
        handled_by(handlers, cmd, None) && answers(later, cmd, response) ==> handled_by(
            handlers.push(later),
            cmd,
            Some(response),
        ),
{
    let more = handlers.push(later);
    if handled_by(handlers, cmd, Some(response)) {
        let i = choose|i: int|
            0 <= i < handlers.len() && answers(#[trigger] handlers[i], cmd, response) && first_pass(
                handlers,
                cmd,
                i,
            );
        assert(more[i] == handlers[i]);
        assert forall|j: int| 0 <= j < i implies passes(#[trigger] more[j], cmd) by {
            assert(passes(handlers[j], cmd));
        }
        assert(handled_by(more, cmd, Some(response)));
    }
    if handled_by(more, cmd, None) {
        assert forall|j: int| 0 <= j < handlers.len() implies passes(
            #[trigger] handlers[j],
            cmd,
        ) by {
            assert(passes(more[j], cmd));
        }
        assert(passes(more[handlers.len() as int], cmd));
    }
    if handled_by(handlers, cmd, None) {
        assert forall|j: int| 0 <= j < handlers.len() implies passes(#[trigger] more[j], cmd) by {
            assert(passes(handlers[j], cmd));
        }
        if answers(later, cmd, response) {
            assert(more[handlers.len() as int] == later);
            assert(first_pass(more, cmd, handlers.len() as int));
        }
    }
}

/// What a device makes of a message that stands for one common command.
proof fn lemma_one_common_command<
    H: Fn(&Command) -> Option<Response>,
    F: Fn(&str) -> Option<Binary64>,
>(
    handlers: Seq<H>,
    read: F,
    message: Seq<char>,
    cmd: CommandView,
    d: DeviceView,
    responses: Seq<ResponseView>,
    after: DeviceView,
)
    requires
        !is_custom(cmd),
        forall|cs: Seq<CommandView>| #[trigger] parses_literally(read, message, cs) ==> cs == seq![cmd],
        takes_message(handlers, read, message, d, responses, after),
    ensures
        responses == seq![response_to(d, cmd, None)],
        after == device_after(d, cmd, None),
{
    let (views, handled) = choose|cmds: Seq<CommandView>, handled: Seq<Option<ResponseView>>|
        {
            &&& parses_literally(read, message, cmds)
            &&& #[trigger] all_handled_by(handlers, cmds, handled)
            &&& responses == responses_to(d, cmds, handled)
            &&& after == device_after_all(d, cmds, handled)
        };
    assert(views == seq![cmd]);
    assert(views.drop_last() =~= Seq::empty());
    assert(handled.drop_last() =~= Seq::empty());
    assert(device_after_all(d, views.drop_last(), handled.drop_last()) == d);
    assert(responses_to(d, views.drop_last(), handled.drop_last()) =~= Seq::empty());
    assert(views.last() == cmd);
    law_common_commands_are_not_handled(d, cmd, handled.last(), None);
    assert(responses =~= seq![response_to(d, cmd, None)]);
}

/// A register reads back what was written to it: behind `*ESE n` the query
/// `*ESE?` is answered with the lowest eight bits of `n`, and so with `*SRE`.
/// No error is left behind.
pub proof fn law_registers_read_back<
    H: Fn(&Command) -> Option<Response>,
    F: Fn(&str) -> Option<Binary64>,
>(
    handlers: Seq<H>,
    read: F,
    header: Seq<char>,
    n: i64,
    d: DeviceView,
    written: Seq<ResponseView>,
    mid: DeviceView,
    queried: Seq<ResponseView>,
    after: DeviceView,
)
    requires
        header == "*ESE"@ || header == "*SRE"@,
        takes_message(
            handlers,
            read,
            header + (seq![' '] + signed_decimal(n as int)),
            d,
            written,
            mid,
        ),
        takes_message(handlers, read, header + seq!['?'], mid, queried, after),
    ensures
        written == seq![ResponseView::Empty],
        queried == seq![ResponseView::Integer((n as int % 256) as i64)],
        mid.errors == d.errors,
        after == mid,
{
    reveal_strlit("*ESE");
    reveal_strlit("*SRE");
    assert(upper(header) =~= header);
    assert(is_star_word(header));
    law_headers_of_common_commands(header);
    let write_message = header + (seq![' '] + signed_decimal(n as int));
    let write = CommandView {
        header,
        is_query: false,
        suffix: None,
        params: seq![ParamView::Integer(n)],
    };
    assert forall|cs: Seq<CommandView>| #[trigger] parses_literally(read, write_message, cs) implies cs
        == seq![write] by {
        law_common_command_with_integer(read, header, n, cs);
    }
    lemma_one_common_command(handlers, read, write_message, write, d, written, mid);
    let query_message = header + seq!['?'];
    let query = CommandView { header, is_query: true, suffix: None, params: Seq::empty() };
    assert forall|cs: Seq<CommandView>| #[trigger] parses_literally(read, query_message, cs) implies cs
        == seq![query] by {
        law_common_query(read, header, cs);
    }
    lemma_one_common_command(handlers, read, query_message, query, mid, queried, after);
    assert(register_value(write) == Some((n as int % 256) as u8));
}

/// `*IDN?` is answered with the identification, and changes nothing.
pub proof fn law_identification_is_reported<
    H: Fn(&Command) -> Option<Response>,
    F: Fn(&str) -> Option<Binary64>,
>(
    handlers: Seq<H>,
    read: F,
    d: DeviceView,
    responses: Seq<ResponseView>,
    after: DeviceView,
)
    requires
        takes_message(handlers, read, "*IDN"@ + seq!['?'], d, responses, after),
    ensures
        responses == seq![ResponseView::Str(identification_text(d.state.identification))],
        after == d,
{
    reveal_strlit("*IDN");
    let header = "*IDN"@;
    assert(upper(header) =~= header);
    assert(is_star_word(header));
    law_headers_of_common_commands(header);
    let cmd = CommandView { header, is_query: true, suffix: None, params: Seq::empty() };
    assert forall|cs: Seq<CommandView>| #[trigger] parses_literally(read, header + seq!['?'], cs) implies cs
        == seq![cmd] by {
        law_common_query(read, header, cs);
    }
    lemma_one_common_command(handlers, read, header + seq!['?'], cmd, d, responses, after);
}

// ---------------------------------------------------------------------------
// Laws of single commands
// ---------------------------------------------------------------------------

/// Without handlers no command is answered.  With one handler more, an answer
/// comes from an earlier one, or from the new one where all earlier ones pass
/// the command on; and only where all pass it on is there none.
pub proof fn law_handlers_are_asked_in_turn<H: Fn(&Command) -> Option<Response>>(
    handlers: Seq<H>,
    later: H,
    cmd: Command,
    response: ResponseView,
)
    ensures
        handled_by(Seq::<H>::empty(), cmd, None),
        !handled_by(Seq::<H>::empty(), cmd, Some(response)),
        handled_by(handlers.push(later), cmd, None) <==> handled_by(handlers, cmd, None)
            && call_ensures(later, (&cmd,), None),
        handled_by(handlers.push(later), cmd, Some(response)) <==> handled_by(
            handlers,
            cmd,
            Some(response),
        ) || (handled_by(handlers, cmd, None) && exists|r: Response|
            r@ == response && #[trigger] call_ensures(later, (&cmd,), Some(r))),
{
    law_first_handler_wins(handlers, later, cmd, response);
    let more = handlers.push(later);
    if handled_by(more, cmd, Some(response)) {
        let i = choose|i: int|
            0 <= i < more.len() && answers(#[trigger] more[i], cmd, response) && first_pass(
                more,
                cmd,
                i,
            );
        assert forall|j: int| 0 <= j < i implies passes(#[trigger] handlers[j], cmd) by {
            assert(passes(more[j], cmd));
        }
        if i < handlers.len() {
            assert(answers(handlers[i], cmd, response));
        } else {
            assert(answers(later, cmd, response));
        }
    }
    if handled_by(handlers, cmd, None) && exists|r: Response|
        r@ == response && #[trigger] call_ensures(later, (&cmd,), Some(r)) {
        assert(answers(later, cmd, response));
    }
}

/// What becomes of one command.  A common command is answered as such, and
/// one that is refused leaves its error in the queue and nothing else.  A
/// command that a handler answers changes nothing.
pub proof fn law_outcome_of_a_command(
    d: DeviceView,
    cmd: CommandView,
    handled: Option<ResponseView>,
)
    ensures
        common_command(cmd.header, cmd.is_query) is Some ==> match answer(cmd, d.state, d.errors) {
            Ok(r) => {
                &&& response_to(d, cmd, handled) == r
                &&& device_after(d, cmd, handled).state == state_after(cmd, d.state)
                &&& device_after(d, cmd, handled).errors == errors_after(cmd, d.errors)
            },
            Err(e) => {
                &&& response_to(d, cmd, handled) is Empty
                &&& device_after(d, cmd, handled).state == d.state
                &&& device_after(d, cmd, handled).errors == d.errors.push(e)
            },
        },
        common_command(cmd.header, cmd.is_query) is None ==> match handled {
            Some(r) => {
                &&& device_after(d, cmd, handled) == d
                &&& cmd.is_query ==> response_to(d, cmd, handled) == r
                &&& !cmd.is_query ==> response_to(d, cmd, handled) is Empty
            },
            None => {
                &&& response_to(d, cmd, handled) is Empty
                &&& device_after(d, cmd, handled).state == d.state
                &&& device_after(d, cmd, handled).errors == d.errors.push(
                    ScpiErrorView { code: -100, message: "Command error"@ },
                )
            },
        },
{
    if answer(cmd, d.state, d.errors) is Err {
        law_refused_commands_change_nothing(cmd, d.state, d.errors);
    }
}

/// A message that stands for one command gets one response, and what becomes
/// of it is what becomes of that command.  Handlers see it only if it is no
/// common command, and then with 1 and 0 as truth values.
pub proof fn law_one_command<H: Fn(&Command) -> Option<Response>, F: Fn(&str) -> Option<Binary64>>(
    handlers: Seq<H>,
    read: F,
    message: Seq<char>,
    cmd: CommandView,
    d: DeviceView,
    responses: Seq<ResponseView>,
    after: DeviceView,
)
    requires
        forall|cs: Seq<CommandView>| #[trigger] parses_literally(read, message, cs) ==> cs == seq![cmd],
        takes_message(handlers, read, message, d, responses, after),
    ensures
        exists|handled: Option<ResponseView>|
            {
                &&& responses == seq![#[trigger] response_to(d, cmd, handled)]
                &&& after == device_after(d, cmd, handled)
                &&& common_command(cmd.header, cmd.is_query) is None ==> exists|given: Command|
                    given@ == with_shorthands(cmd) && #[trigger] handled_by(
                        handlers,
                        given,
                        handled,
                    )
            },
{
    let (views, handled) = choose|cmds: Seq<CommandView>, handled: Seq<Option<ResponseView>>|
        {
            &&& parses_literally(read, message, cmds)
            &&& #[trigger] all_handled_by(handlers, cmds, handled)
            &&& responses == responses_to(d, cmds, handled)
            &&& after == device_after_all(d, cmds, handled)
        };
    assert(views == seq![cmd]);
    assert(views.drop_last() =~= Seq::empty());
    assert(device_after_all(d, views.drop_last(), handled.drop_last()) == d);
    assert(responses_to(d, views.drop_last(), handled.drop_last()) =~= Seq::empty());
    assert(views.last() == cmd && views[0] == cmd);
    let h = handled.last();
    assert(responses =~= seq![response_to(d, cmd, h)]);
    if is_custom(cmd) {
        assert(is_custom(views[0]));
        assert(may_handle(handlers, views[0], handled[0]));
        let given = choose|given: Command|
            given@ == with_shorthands(cmd) && #[trigger] handled_by(handlers, given, h);
        assert(handled_by(handlers, given, h));
    }
}

/// A common query that is sent as a message gets the answer to it, and
/// nothing but the events that it reads is changed.
pub proof fn law_common_queries_are_answered<
    H: Fn(&Command) -> Option<Response>,
    F: Fn(&str) -> Option<Binary64>,
>(
    handlers: Seq<H>,
    read: F,
    header: Seq<char>,
    d: DeviceView,
    responses: Seq<ResponseView>,
    after: DeviceView,
)
    requires
        is_star_word(header),
        common_command(header, true) is Some,
        takes_message(handlers, read, header + seq!['?'], d, responses, after),
    ensures
        ({
            let cmd = CommandView { header, is_query: true, suffix: None, params: Seq::empty() };
            &&& answer(cmd, d.state, d.errors) matches Ok(r) && responses == seq![r]
            &&& after.errors == d.errors
            &&& after.state == (if upper(header) == "*ESR"@ {
                Ieee488View { esr: 0, ..d.state }
            } else {
                d.state
            })
        }),
{
    let cmd = CommandView { header, is_query: true, suffix: None, params: Seq::empty() };
    assert forall|cs: Seq<CommandView>| #[trigger]
        parses_literally(read, header + seq!['?'], cs) implies cs == seq![cmd] by {
        law_common_query(read, header, cs);
    }
    lemma_one_common_command(handlers, read, header + seq!['?'], cmd, d, responses, after);
    law_effects_of_commands(cmd, d.state, d.errors);
}

/// A message that stands for no command gets no response and changes nothing.
pub proof fn law_no_command<H: Fn(&Command) -> Option<Response>, F: Fn(&str) -> Option<Binary64>>(
    handlers: Seq<H>,
    read: F,
    message: Seq<char>,
    d: DeviceView,
    responses: Seq<ResponseView>,
    after: DeviceView,
)
    requires
        forall|cs: Seq<CommandView>| #[trigger] parses_literally(read, message, cs) ==> cs.len() == 0,
        takes_message(handlers, read, message, d, responses, after),
    ensures
        responses.len() == 0,
        after == d,
{
}

// ---------------------------------------------------------------------------
// Laws of lines
// ---------------------------------------------------------------------------

/// Of responses, those that are not empty are sent, and in order.
pub proof fn law_empty_responses_are_not_sent(a: Seq<ResponseView>, b: Seq<ResponseView>)
    ensures
        sent(Seq::empty()) == Seq::<ResponseView>::empty(),
        a.len() == 1 ==> sent(a) == (if a[0] is Empty { Seq::empty() } else { a }),
        sent(a + b) == sent(a) + sent(b),
    decreases b.len(),
{
    if a.len() == 1 {
        assert(a.drop_last() =~= Seq::empty());
        assert(Seq::<ResponseView>::empty().push(a[0]) =~= a);
        assert(sent(a.drop_last()) =~= Seq::empty());
    }
    if b.len() == 0 {
        assert(a + b =~= a);
        assert(sent(a) + sent(b) =~= sent(a));
    } else {
        assert((a + b).drop_last() =~= a + b.drop_last());
        law_empty_responses_are_not_sent(a, b.drop_last());
        assert(sent(a + b) =~= sent(a) + sent(b));
    }
}

/// Each response that is sent is a line of its own: its text and a line feed.
pub proof fn law_lines_hold_the_responses<G: Fn(Binary64) -> String>(
    write: G,
    responses: Seq<ResponseView>,
    lines: Seq<Seq<char>>,
)
    ensures
        renders_lines(write, responses, lines) <==> lines.len() == responses.len() && forall|i: int|
            0 <= i < lines.len() ==> (#[trigger] lines[i]).len() > 0 && lines[i].last() == '\n'
                && renders(write, responses[i], lines[i].drop_last()),
    decreases responses.len(),
{
    if responses.len() > 0 && lines.len() > 0 {
        let r = responses.drop_last();
        let l = lines.drop_last();
        law_lines_hold_the_responses(write, r, l);
        let line = lines.last();
        assert(renders_line(write, responses.last(), line) <==> line.len() > 0 && line.last() == '\n'
            && renders(write, responses.last(), line.drop_last())) by {
            if renders_line(write, responses.last(), line) {
                let text = choose|text: Seq<char>|
                    renders(write, responses.last(), text) && line == #[trigger] text.push('\n');
                assert(line.drop_last() =~= text);
            }
            if line.len() > 0 && line.last() == '\n' && renders(
                write,
                responses.last(),
                line.drop_last(),
            ) {
                assert(line.drop_last().push('\n') =~= line);
            }
        }
        if renders_lines(write, responses, lines) {
            assert forall|i: int| 0 <= i < lines.len() implies (#[trigger] lines[i]).len() > 0
                && lines[i].last() == '\n' && renders(
                write,
                responses[i],
                lines[i].drop_last(),
            ) by {
                if i < l.len() {
                    assert(l[i] == lines[i] && r[i] == responses[i]);
                }
            }
        }
        if lines.len() == responses.len() && forall|i: int|
            0 <= i < lines.len() ==> (#[trigger] lines[i]).len() > 0 && lines[i].last() == '\n'
                && renders(write, responses[i], lines[i].drop_last()) {
            assert forall|i: int| 0 <= i < l.len() implies (#[trigger] l[i]).len() > 0
                && l[i].last() == '\n' && renders(write, r[i], l[i].drop_last()) by {
                assert(l[i] == lines[i] && r[i] == responses[i]);
            }
            assert(lines[lines.len() - 1] == line);
        }
    }
}

/// A message from a link is taken without the white space around it, and its
/// responses are sent.  A blank one is passed over.
pub proof fn law_messages_from_a_link<
    H: Fn(&Command) -> Option<Response>,
    F: Fn(&str) -> Option<Binary64>,
    G: Fn(Binary64) -> String,
>(
    handlers: Seq<H>,
    read: F,
    write: G,
    before: Seq<char>,
    message: Seq<char>,
    behind: Seq<char>,
    d: DeviceView,
    lines: Seq<Seq<char>>,
    after: DeviceView,
)
    requires
        forall|i: int|
            0 <= i < before.len() ==> CharClass::WhiteSpace.has(#[trigger] before[i]),
        forall|i: int|
            0 <= i < behind.len() ==> CharClass::WhiteSpace.has(#[trigger] behind[i]),
        message.len() > 0 ==> !CharClass::WhiteSpace.has(message[0]) && !CharClass::WhiteSpace.has(
            message.last(),
        ),
    ensures
        takes_line(handlers, read, write, before + message + behind, d, lines, after) <==> (
        if message.len() == 0 {
            lines.len() == 0 && after == d
        } else {
            exists|responses: Seq<ResponseView>|
                #[trigger] takes_message(handlers, read, message, d, responses, after)
                    && renders_lines(write, sent(responses), lines)
        }),
{
    law_trimming(before, message, behind);
}

} // verus!
