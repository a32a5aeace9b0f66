//! What holds of a log and of the engine that is recovered from it.
use vstd::prelude::*;

use crate::book;
use crate::book::EngineState;
use crate::decimal;
use crate::laws;
use crate::log;
use crate::log::LogFailure;
use crate::protocol;
use crate::session;
use crate::session::{ActionContents, RequestContents};
use crate::text;
use crate::types::{Command, EngineError, Event, Fill, Sequence};
use crate::web;
use crate::web::{Route, StepContents};

verus! {

/// Whether nothing was cut off at the end of a log: there is nothing in it, or its last line is
/// ended.
pub open spec fn ended(log: Seq<char>) -> bool {
    log.len() > 0 ==> log.last() == '\n'
}

/// The log of a series of events.
pub open spec fn log_of(events: Seq<Event>) -> Seq<char>
    decreases events.len(),
{
    if events.len() == 0 {
        Seq::empty()
    } else {
        log::log_appended(log_of(events.drop_last()), events.last())
    }
}

/// The fields of the line of an event.
pub proof fn lemma_event_fields(event: Event)
    ensures
        text::fields(log::event_line(event), '|') == match event.command {
            Command::Limit { id, side, price, qty } => seq![
                decimal::decimal(event.seq as int),
                seq!['L'],
                seq![log::side_letter(side)],
                decimal::decimal(id as int),
                decimal::decimal(price as int),
                decimal::decimal(qty as int),
            ],
            Command::Cancel { id } => seq![
                decimal::decimal(event.seq as int),
                seq!['C'],
                decimal::decimal(id as int),
            ],
        },
{
    let line = log::event_line(event);
    let number = decimal::decimal(event.seq as int);
    decimal::lemma_decimal_chars(event.seq as int);
    match event.command {
        Command::Limit { id, side, price, qty } => {
            let kind = seq!['L'];
            let letter = seq![log::side_letter(side)];
            let a = decimal::decimal(id as int);
            let b = decimal::decimal(price as int);
            let c = decimal::decimal(qty as int);
            decimal::lemma_decimal_chars(id as int);
            decimal::lemma_decimal_chars(price as int);
            decimal::lemma_decimal_chars(qty as int);
            let bar = seq!['|'];
            let after_price = c;
            let after_id = b + bar + c;
            let after_side = a + bar + after_id;
            let after_kind = letter + bar + after_side;
            let after_number = kind + bar + after_kind;
            assert(line =~= number + bar + after_number);
            text::lemma_fields_only(c, '|');
            text::lemma_fields_first(b, c, '|');
            text::lemma_fields_first(a, after_id, '|');
            text::lemma_fields_first(letter, after_side, '|');
            text::lemma_fields_first(kind, after_kind, '|');
            text::lemma_fields_first(number, after_number, '|');
            assert(text::fields(line, '|') =~= seq![number, kind, letter, a, b, c]);
        },
        Command::Cancel { id } => {
            let kind = seq!['C'];
            let a = decimal::decimal(id as int);
            decimal::lemma_decimal_chars(id as int);
            let bar = seq!['|'];
            assert(line =~= number + bar + (kind + bar + a));
            text::lemma_fields_only(a, '|');
            text::lemma_fields_first(kind, a, '|');
            text::lemma_fields_first(number, kind + bar + a, '|');
            assert(text::fields(line, '|') =~= seq![number, kind, a]);
        },
    }
}

/// Reading the line of an event gives back the event.
pub proof fn written_events_are_read_back(line: int, event: Event)
    ensures
        log::event_read(line, log::event_line(event)) == Ok::<Event, LogFailure>(event),
{
    lemma_event_fields(event);
    match event.command {
        Command::Limit { id, side, price, qty } => {
            decimal::written_numbers_are_read_back(event.seq, price);
            decimal::written_numbers_are_read_back(id, qty);
            assert(seq!['A'][0] != seq!['B'][0]);
        },
        Command::Cancel { id } => {
            decimal::written_numbers_are_read_back(event.seq, 0);
            decimal::written_numbers_are_read_back(id, 0);
        },
    }
}

/// A text that does not start with white space is not blank.
proof fn lemma_not_blank(s: Seq<char>)
    requires
        s.len() > 0,
        !text::is_space(s[0]),
    ensures
        text::trimmed_end(s).len() > 0,
    decreases s.len(),
{
    if s.len() > 1 {
        lemma_not_blank(s.drop_last());
    }
}

/// The line of an event holds no line feed, is not blank and does not end with a carriage return.
pub proof fn lemma_event_line(event: Event)
    ensures
        text::lacks(log::event_line(event), '\n'),
        !log::is_blank(log::event_line(event)),
        text::without_return(log::event_line(event)) == log::event_line(event),
{
    let line = log::event_line(event);
    decimal::lemma_decimal_chars(event.seq as int);
    match event.command {
        Command::Limit { id, side, price, qty } => {
            decimal::lemma_decimal_chars(id as int);
            decimal::lemma_decimal_chars(price as int);
            decimal::lemma_decimal_chars(qty as int);
            assert(line.last() == decimal::decimal(qty as int).last());
        },
        Command::Cancel { id } => {
            decimal::lemma_decimal_chars(id as int);
            assert(line.last() == decimal::decimal(id as int).last());
        },
    }
    assert(line[0] == decimal::decimal(event.seq as int)[0]);
    lemma_not_blank(line);
}

/// An event that is appended adds one line to an ended log.
proof fn lemma_line_appended(log: Seq<char>, event: Event)
    requires
        ended(log),
    ensures
        text::lines(log::log_appended(log, event)) == text::lines(log).push(
            log::event_line(event),
        ),
        ended(log::log_appended(log, event)),
{
    let line = log::event_line(event);
    let after = log::log_appended(log, event);
    let found = text::fields(log, '\n');
    text::lemma_parts_len(log, text::only('\n'));
    assert(found.last().len() == 0);
    lemma_event_line(event);
    text::lemma_fields_longer(log, line, '\n');
    assert(found.last() + line =~= line);
    let longer = found.drop_last().push(line);
    assert(after.drop_last() =~= log + line);
    assert(text::fields(after, '\n') == longer.push(Seq::empty()));
    assert(text::fields(after, '\n').drop_last() =~= longer);
    assert(text::lines(after) =~= text::lines(log).push(line));
}

/// Reading a log to which an event was appended gives the events from before and the new one. The
/// log before must be ended: what is appended to a line that was cut off becomes part of that
/// line.
pub proof fn appended_events_are_read_back(log: Seq<char>, event: Event)
    requires
        ended(log),
    ensures
        ended(log::log_appended(log, event)),
        log::log_read(log::log_appended(log, event)) == match log::log_read(log) {
            Ok(events) => Ok::<Seq<Event>, LogFailure>(events.push(event)),
            Err(e) => Err(e),
        },
{
    let line = log::event_line(event);
    let before = text::lines(log);
    let after = before.push(line);
    lemma_line_appended(log, event);
    lemma_event_line(event);
    written_events_are_read_back(after.len() as int, event);
    assert(after.drop_last() =~= before);
}

/// Reading the log of a series of events gives back the events.
pub proof fn logs_are_read_back(events: Seq<Event>)
    ensures
        ended(log_of(events)),
        log::log_read(log_of(events)) == Ok::<Seq<Event>, LogFailure>(events),
    decreases events.len(),
{
    if events.len() == 0 {
        assert(text::fields(Seq::empty(), '\n') =~= seq![Seq::empty()]);
        assert(text::lines(Seq::empty()) =~= Seq::empty());
        assert(events =~= Seq::empty());
    } else {
        logs_are_read_back(events.drop_last());
        appended_events_are_read_back(log_of(events.drop_last()), events.last());
        assert(events.drop_last().push(events.last()) =~= events);
    }
}

/// An engine that is recovered from the log of the commands that another engine has carried out
/// has the other's book and has made the same trades, and it goes on numbering after the last
/// event of the log.
pub proof fn recovery_rebuilds_the_book_and_the_trades(commands: Seq<Command>)
    requires
        commands.len() < Sequence::MAX,
    ensures
        ({
            let session = book::submitted(commands);
            let recovery = log::log_replayed(log_of(session.accepted));
            &&& log::log_read(log_of(session.accepted)) == Ok::<Seq<Event>, LogFailure>(
                session.accepted,
            )
            &&& log::can_recover(log_of(session.accepted))
            &&& recovery is Ok
            &&& recovery->Ok_0.0.book == session.state.book
            &&& recovery->Ok_0.1 == session.fills
            &&& session.accepted.len() > 0 ==> recovery->Ok_0.0.next_seq
                == session.accepted.last().seq + 1
        }),
{
    logs_are_read_back(book::submitted(commands).accepted);
    laws::replay_rebuilds_the_book_and_the_trades(commands);
}

/// Recovery ends with the first event that is turned down: it gives the place of that event among
/// the events and the reason, whatever comes after it. All that it asks is that the events up to
/// there leave a number for the next.
pub proof fn recovery_reports_the_first_refused_event(
    log: Seq<char>,
    events: Seq<Event>,
    at: int,
    source: EngineError,
)
    requires
        log::log_read(log) == Ok::<Seq<Event>, LogFailure>(events),
        0 <= at < events.len(),
        book::replayed(events.take(at)) is Ok,
        book::replayed(events.take(at))->Ok_0.0.after(events[at]).1 == Err::<
            Seq<Fill>,
            EngineError,
        >(source),
    ensures
        log::log_replayed(log) == Err::<(EngineState, Seq<Fill>), LogFailure>(
            LogFailure::Engine { line: at + 1, source },
        ),
        (forall|i: int| 0 <= i <= at ==> (#[trigger] events[i]).seq < Sequence::MAX)
            ==> log::can_recover(log),
{
    let upto = events.take(at + 1);
    assert(upto.drop_last() =~= events.take(at));
    laws::replay_stops_at_a_refused_event(events, at + 1);
    assert forall|i: int| at < i < events.len() implies book::replayed(
        #[trigger] events.take(i),
    ) is Err by {
        assert(events.take(i).take(at + 1) =~= upto);
        laws::replay_stops_at_a_refused_event(events.take(i), at + 1);
    }
}

/// What a client sends: a line, or a browser's request.
pub enum Message {
    Line(Seq<char>),
    Web(Route, Seq<char>),
}

/// An engine that serves clients, with the log of the events that it has carried out and all
/// trades since the log was begun.
pub struct Service {
    pub state: EngineState,
    pub log: Seq<char>,
    pub fills: Seq<Fill>,
}

impl Service {
    /// A service that has just begun its log.
    pub open spec fn fresh() -> Service {
        Service { state: EngineState::fresh(), log: Seq::empty(), fills: Seq::empty() }
    }

    /// The service after it has taken a request and has logged what was to be logged.
    pub open spec fn after(self, request: RequestContents) -> Service {
        match session::answered(self.state, request) {
            (state, ActionContents::Persist(event, fills)) => Service {
                state,
                log: log::log_appended(self.log, event),
                fills: self.fills + fills,
            },
            (state, _) => Service { state, ..self },
        }
    }

    /// The service after it has taken a browser's request and has logged what was to be logged.
    pub open spec fn after_web(self, route: Route, body: Seq<char>) -> Service {
        match web::answered(self.state, route, body) {
            (state, StepContents::Persist(event, fills)) => Service {
                state,
                log: log::log_appended(self.log, event),
                fills: self.fills + fills,
            },
            (state, _) => Service { state, ..self },
        }
    }

    /// The service after it has taken messages in order.
    pub open spec fn served(self, messages: Seq<Message>) -> Service
        decreases messages.len(),
    {
        if messages.len() == 0 {
            self
        } else {
            let before = self.served(messages.drop_last());
            match messages.last() {
                Message::Line(line) => before.after(session::request_read(line)),
                Message::Web(route, body) => before.after_web(route, body),
            }
        }
    }

    /// Whether an engine can be recovered from the log, with the book and the trades, and numbers on
    /// from no higher than the service does.
    pub open spec fn recoverable(self) -> bool {
        &&& ended(self.log)
        &&& log::can_recover(self.log)
        &&& log::log_replayed(self.log) is Ok
        &&& log::log_replayed(self.log)->Ok_0.0.book == self.state.book
        &&& log::log_replayed(self.log)->Ok_0.0.next_seq <= self.state.next_seq
        &&& log::log_replayed(self.log)->Ok_0.1 == self.fills
    }

    /// The service after a crash: what the log rebuilds.
    pub open spec fn restarted(self) -> Service {
        Service {
            state: log::log_replayed(self.log)->Ok_0.0,
            log: self.log,
            fills: log::log_replayed(self.log)->Ok_0.1,
        }
    }
}

/// No event that is carried out makes the log useless.
proof fn lemma_event_logged(service: Service, command: Command)
    requires
        service.recoverable(),
        service.state.next_seq < Sequence::MAX,
        service.state.after(service.state.event(command)).1 is Ok,
    ensures
        ({
            let event = service.state.event(command);
            let (state, outcome) = service.state.after(event);
            Service {
                state,
                log: log::log_appended(service.log, event),
                fills: service.fills + outcome->Ok_0,
            }.recoverable()
        }),
{
    let event = service.state.event(command);
    let before = log::log_read(service.log)->Ok_0;
    let after = before.push(event);
    appended_events_are_read_back(service.log, event);
    assert(after.drop_last() =~= before);
    assert forall|i: int|
        0 <= i < after.len() && book::replayed(#[trigger] after.take(i)) is Ok implies after[i].seq
        < Sequence::MAX by {
        if i < before.len() {
            assert(after.take(i) =~= before.take(i));
        }
    }
}

/// No client's line makes the log useless: what was logged rebuilds the book and the trades as they
/// are after the request.
pub proof fn every_request_keeps_the_log_recoverable(service: Service, request: RequestContents)
    requires
        service.recoverable(),
        request is Submit ==> service.state.next_seq < Sequence::MAX,
    ensures
        service.after(request).recoverable(),
        service.after(request).state.next_seq <= service.state.next_seq + 1,
{
    if let RequestContents::Submit(command) = request {
        if service.state.after(service.state.event(command)).1 is Ok {
            lemma_event_logged(service, command);
        }
    }
}

/// No browser's request makes the log useless: what was logged rebuilds the book and the trades as
/// they are after the request.
pub proof fn every_web_request_keeps_the_log_recoverable(
    service: Service,
    route: Route,
    body: Seq<char>,
)
    requires
        service.recoverable(),
        route == Route::Order ==> web::can_order(service.state, text::trimmed(body)),
    ensures
        service.after_web(route, body).recoverable(),
        service.after_web(route, body).state.next_seq <= service.state.next_seq + 1,
{
    if route == Route::Order {
        if let Ok(command) = protocol::command_read(text::trimmed(body)) {
            if service.state.after(service.state.event(command)).1 is Ok {
                lemma_event_logged(service, command);
            }
        }
    }
}

/// Whatever clients send, and wherever the service stops, a restart from the log brings back the
/// book and the trades, and the service goes on with a log that stays recoverable.
pub proof fn a_restart_loses_nothing(service: Service, messages: Seq<Message>)
    requires
        service.recoverable(),
        service.state.next_seq + messages.len() <= Sequence::MAX,
    ensures
        Service::fresh().recoverable(),
        service.served(messages).recoverable(),
        service.served(messages).state.next_seq <= service.state.next_seq + messages.len(),
        service.served(messages).restarted().state.book == service.served(messages).state.book,
        service.served(messages).restarted().fills == service.served(messages).fills,
        service.served(messages).restarted().recoverable(),
    decreases messages.len(),
{
    logs_are_read_back(Seq::empty());
    if messages.len() > 0 {
        a_restart_loses_nothing(service, messages.drop_last());
        let before = service.served(messages.drop_last());
        match messages.last() {
            Message::Line(line) => {
                every_request_keeps_the_log_recoverable(before, session::request_read(line));
            },
            Message::Web(route, body) => {
                every_web_request_keeps_the_log_recoverable(before, route, body);
            },
        }
    }
}

} // verus!
