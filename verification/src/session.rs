//! The conversation with a client: one line for each request, one line for each reply.
use vstd::prelude::*;

use crate::book::EngineState;
use crate::decimal;
use crate::engine::Engine;
use crate::protocol;
use crate::protocol::{ProtocolError, ProtocolFailure};
use crate::text;
use crate::types::{Accepted, Command, EngineError, Event, Fill, Sequence, SnapshotContents};

verus! {

/// What a client asks for.
#[derive(Debug, Eq, PartialEq)]
pub enum Request {
    /// A line without anything on it.
    Blank,
    Quit,
    Snapshot,
    Submit(Command),
    /// A line that is none of these.
    Invalid(ProtocolError),
}

/// The contents of a [`Request`].
pub enum RequestContents {
    Blank,
    Quit,
    Snapshot,
    Submit(Command),
    Invalid(ProtocolFailure),
}

impl View for Request {
    type V = RequestContents;

    open spec fn view(&self) -> RequestContents {
        match *self {
            Request::Blank => RequestContents::Blank,
            Request::Quit => RequestContents::Quit,
            Request::Snapshot => RequestContents::Snapshot,
            Request::Submit(command) => RequestContents::Submit(command),
            Request::Invalid(e) => RequestContents::Invalid(e@),
        }
    }
}

/// What to do about a request.
#[derive(Debug, Eq, PartialEq)]
pub enum Action {
    /// Wait for the next line.
    Nothing,
    /// Send a line.
    Reply(String),
    /// Send a line and close the connection.
    Close(String),
    /// Write the event to the log; only when it is written, send [`confirmation`].
    Persist(Accepted),
}

/// The contents of an [`Action`].
pub enum ActionContents {
    Nothing,
    Reply(Seq<char>),
    Close(Seq<char>),
    Persist(Event, Seq<Fill>),
}

impl View for Action {
    type V = ActionContents;

    open spec fn view(&self) -> ActionContents {
        match *self {
            Action::Nothing => ActionContents::Nothing,
            Action::Reply(line) => ActionContents::Reply(line@),
            Action::Close(line) => ActionContents::Close(line@),
            Action::Persist(accepted) => ActionContents::Persist(accepted.event, accepted.fills@),
        }
    }
}

/// What a line asks for. White space around it does not matter, nor do capitals in the words of
/// the protocol.
pub open spec fn request_read(line: Seq<char>) -> RequestContents {
    let request = text::trimmed(line);
    if request.len() == 0 {
        RequestContents::Blank
    } else if text::capitals(request) == "QUIT"@ {
        RequestContents::Quit
    } else if text::capitals(request) == "SNAPSHOT"@ {
        RequestContents::Snapshot
    } else {
        match protocol::command_read(request) {
            Ok(command) => RequestContents::Submit(command),
            Err(e) => RequestContents::Invalid(e),
        }
    }
}

/// The first line that a client gets.
pub open spec fn greeting_text() -> Seq<char> {
    "OK slipstream ready; send LIMIT, CANCEL, SNAPSHOT, or QUIT"@
}

/// The reply to a request that cannot be met.
pub open spec fn refusal_text(message: Seq<char>) -> Seq<char> {
    "ERR "@ + message
}

/// The reply that shows a book.
pub open spec fn book_text(snapshot: SnapshotContents) -> Seq<char> {
    "OK BIDS "@ + protocol::side_text(snapshot.bids) + " ASKS "@ + protocol::side_text(
        snapshot.asks,
    )
}

/// The reply to a command that was carried out and logged.
pub open spec fn confirmation_text(seq: Sequence, fills: Seq<Fill>) -> Seq<char> {
    "OK seq="@ + decimal::decimal(seq as int) + seq![' '] + protocol::fills_text(fills)
}

/// What a request does to the engine, and what is to be done about it.
pub open spec fn answered(state: EngineState, request: RequestContents) -> (
    EngineState,
    ActionContents,
) {
    match request {
        RequestContents::Blank => (state, ActionContents::Nothing),
        RequestContents::Quit => (state, ActionContents::Close("OK bye"@)),
        RequestContents::Snapshot => (state, ActionContents::Reply(book_text(state.book.shown()))),
        RequestContents::Invalid(e) => (state, ActionContents::Reply(refusal_text(e.message()))),
        RequestContents::Submit(command) => {
            let event = state.event(command);
            match state.after(event) {
                (next, Ok(fills)) => (next, ActionContents::Persist(event, fills)),
                (next, Err(e)) => (next, ActionContents::Reply(refusal_text(e.message()))),
            }
        },
    }
}

/// Whether an engine can take a request: there is a number left for a command, and the units of
/// each level of a book that is shown can be added up.
pub open spec fn can_answer(state: EngineState, request: RequestContents) -> bool {
    match request {
        RequestContents::Snapshot => protocol::snapshot_fits(state.book.shown()),
        RequestContents::Submit(_) => state.next_seq < Sequence::MAX,
        _ => true,
    }
}

/// The first line that a client gets.
pub fn greeting() -> (line: String)
    ensures
        line@ == greeting_text(),
{
    "OK slipstream ready; send LIMIT, CANCEL, SNAPSHOT, or QUIT".to_owned()
}

/// Reads a request.
pub fn read_request(line: &str) -> (request: Request)
    ensures
        request@ == request_read(line@),
{
    let words = text::trim(line);
    if words.as_str().is_empty() {
        return Request::Blank;
    }
    let name = text::to_capitals(&words);
    if text::same(&name, "QUIT") {
        Request::Quit
    } else if text::same(&name, "SNAPSHOT") {
        Request::Snapshot
    } else {
        match protocol::parse_command(&words) {
            Ok(command) => Request::Submit(command),
            Err(e) => Request::Invalid(e),
        }
    }
}

/// The reply to a request that cannot be met.
fn refusal(message: &str) -> (line: String)
    ensures
        line@ == refusal_text(message@),
{
    let mut line = "ERR ".to_owned();
    line.append(message);
    line
}

/// The reply to a command that was carried out and logged.
pub fn confirmation(accepted: &Accepted) -> (line: String)
    ensures
        line@ == confirmation_text(accepted.event.seq, accepted.fills@),
{
    let mut line = "OK seq=".to_owned();
    decimal::write_u64(&mut line, accepted.event.seq);
    line.push(' ');
    line.append(&protocol::format_fills(&accepted.fills));
    assert(line@ =~= confirmation_text(accepted.event.seq, accepted.fills@));
    line
}

/// Whether an engine can take a request.
pub fn accepts(engine: &Engine, request: &Request) -> (yes: bool)
    ensures
        yes == can_answer(engine@, request@),
{
    match request {
        Request::Snapshot => protocol::depths_fit(&engine.snapshot()),
        Request::Submit(_) => engine.next_seq() < Sequence::MAX,
        _ => true,
    }
}

/// The reply that shows a book is the written book on one line.
proof fn lemma_book_text(snapshot: SnapshotContents)
    ensures
        "OK "@ + text::replaced(protocol::snapshot_text(snapshot), '\n', ' ') == book_text(
            snapshot,
        ),
{
    reveal_strlit("OK ");
    reveal_strlit("BIDS ");
    reveal_strlit("ASKS ");
    reveal_strlit("OK BIDS ");
    reveal_strlit(" ASKS ");
    protocol::lemma_side_text(snapshot.bids);
    protocol::lemma_side_text(snapshot.asks);
    assert("OK "@ + text::replaced(protocol::snapshot_text(snapshot), '\n', ' ') =~= book_text(
        snapshot,
    ));
}

/// Whether a request needs the engine.
pub open spec fn needs_engine(request: RequestContents) -> bool {
    request is Snapshot || request is Submit
}

/// Takes a request that does not need the engine, and leaves the others.
pub fn answer_at_once(request: &Request) -> (action: Option<Action>)
    ensures
        match action {
            Some(action) => !needs_engine(request@) && forall|state: EngineState| #[trigger]
                answered(state, request@) == (state, action@),
            None => needs_engine(request@),
        },
{
    match request {
        Request::Blank => Some(Action::Nothing),
        Request::Quit => Some(Action::Close("OK bye".to_owned())),
        Request::Invalid(e) => Some(Action::Reply(refusal(&e.to_string()))),
        Request::Snapshot => None,
        Request::Submit(_) => None,
    }
}

/// Takes a request.
pub fn answer(engine: &mut Engine, request: &Request) -> (action: Action)
    requires
        old(engine).wf(),
        can_answer(old(engine)@, request@),
    ensures
        final(engine).wf(),
        (final(engine)@, action@) == answered(old(engine)@, request@),
{
    if let Some(action) = answer_at_once(request) {
        return action;
    }
    match request {
        Request::Submit(command) => match engine.submit(*command) {
            Ok(accepted) => Action::Persist(accepted),
            Err(e) => Action::Reply(refusal(&e.to_string())),
        },
        _ => {
            let shown = protocol::format_snapshot(&engine.snapshot());
            let mut line = "OK ".to_owned();
            line.append(&text::replace(&shown, '\n', ' '));
            proof {
                lemma_book_text(engine@.book.shown());
            }
            Action::Reply(line)
        },
    }
}

/// Capitals are no line feeds.
proof fn lemma_capitals_one_line(s: Seq<char>)
    requires
        text::lacks(s, '\n'),
    ensures
        text::lacks(text::capitals(s), '\n'),
{
    assert forall|i: int| 0 <= i < s.len() implies #[trigger] text::capitals(s)[i] != '\n' by {
        assert(s[i] != '\n');
    }
}

/// What is said about a line that is no command is one line.
proof fn lemma_refusal_one_line(line: Seq<char>)
    requires
        protocol::command_read(line) is Err,
    ensures
        text::lacks(protocol::command_read(line)->Err_0.message(), '\n'),
{
    let words = text::words(line);
    text::lemma_words_lack(line, '\n');
    if words.len() > 0 {
        lemma_capitals_one_line(words[0]);
    }
    reveal_strlit("empty command");
    reveal_strlit("unknown command `");
    reveal_strlit("` expects ");
    reveal_strlit("LIMIT <BID|ASK> <id> <price> <qty>");
    reveal_strlit("CANCEL <id>");
    reveal_strlit("SNAPSHOT");
    reveal_strlit("side must be BID or ASK, got `");
    reveal_strlit(" must be a number, got `");
    reveal_strlit("id");
    reveal_strlit("price");
    reveal_strlit("qty");
}

/// A confirmation is one line.
proof fn lemma_confirmation_one_line(seq: Sequence, fills: Seq<Fill>)
    ensures
        text::lacks(confirmation_text(seq, fills), '\n'),
{
    let items = fills.map_values(|fill: Fill| protocol::fill_text(fill));
    reveal_strlit("OK seq=");
    reveal_strlit("fills=[");
    reveal_strlit("{seq=");
    reveal_strlit(",maker=");
    reveal_strlit(",taker=");
    reveal_strlit(",price=");
    reveal_strlit(",qty=");
    assert forall|i: int| 0 <= i < items.len() implies text::lacks(#[trigger] items[i], '\n') by {
        let fill = fills[i];
        decimal::lemma_decimal_chars(fill.seq as int);
        decimal::lemma_decimal_chars(fill.maker as int);
        decimal::lemma_decimal_chars(fill.taker as int);
        decimal::lemma_decimal_chars(fill.price as int);
        decimal::lemma_decimal_chars(fill.qty as int);
    }
    text::lemma_joined_lacks(items, seq![','], '\n');
    decimal::lemma_decimal_chars(seq as int);
}

/// Each request but a blank one gets one line: no reply holds a line feed, whatever was asked.
pub proof fn replies_are_single_lines(state: EngineState, line: Seq<char>)
    ensures
        text::lacks(greeting_text(), '\n'),
        match answered(state, request_read(line)).1 {
            ActionContents::Nothing => request_read(line) is Blank,
            ActionContents::Reply(reply) => text::lacks(reply, '\n'),
            ActionContents::Close(reply) => text::lacks(reply, '\n'),
            ActionContents::Persist(event, fills) => text::lacks(
                confirmation_text(event.seq, fills),
                '\n',
            ),
        },
{
    reveal_strlit("OK slipstream ready; send LIMIT, CANCEL, SNAPSHOT, or QUIT");
    reveal_strlit("OK bye");
    reveal_strlit("ERR ");
    reveal_strlit("OK BIDS ");
    reveal_strlit(" ASKS ");
    let shown = state.book.shown();
    match request_read(line) {
        RequestContents::Snapshot => {
            protocol::lemma_side_text(shown.bids);
            protocol::lemma_side_text(shown.asks);
        },
        RequestContents::Invalid(e) => {
            lemma_refusal_one_line(text::trimmed(line));
        },
        RequestContents::Submit(command) => {
            let event = state.event(command);
            match state.after(event).1 {
                Ok(fills) => {
                    lemma_confirmation_one_line(event.seq, fills);
                },
                Err(e) => {
                    reveal_strlit("duplicate order id ");
                    reveal_strlit("quantity must be positive, got ");
                    match e {
                        EngineError::DuplicateOrder(id) => {
                            decimal::lemma_decimal_chars(id as int);
                        },
                        EngineError::NonPositiveQuantity(qty) => {
                            decimal::lemma_decimal_chars(qty as int);
                        },
                    }
                },
            }
        },
        _ => {},
    }
}

/// Only what goes to the log changes the book.
pub proof fn unlogged_requests_leave_the_book_alone(state: EngineState, request: RequestContents)
    ensures
        answered(state, request).1 !is Persist ==> answered(state, request).0.book == state.book,
        request !is Submit ==> answered(state, request).0 == state,
{
}

} // verus!
