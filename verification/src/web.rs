//! The interface for browsers: requests and responses of HTTP, with books and trades in JSON.
use vstd::prelude::*;

use crate::book::EngineState;
use crate::decimal;
use crate::engine::Engine;
use crate::log::{LogError, LogFailure};
use crate::protocol;
use crate::session;
use crate::session::{ActionContents, RequestContents};
use crate::text;
use crate::types;
use crate::types::{
    Accepted, BookSnapshot, Command, Event, Fill, OrderView, Price, Sequence, SnapshotContents,
};

verus! {

/// How a character is written in a JSON string.
pub open spec fn escaped_char(c: char) -> Seq<char> {
    if c == '\\' {
        seq!['\\', '\\']
    } else if c == '"' {
        seq!['\\', '"']
    } else if c == '\n' {
        seq!['\\', 'n']
    } else {
        seq![c]
    }
}

/// How a text is written in a JSON string: backslashes, quotes and line feeds are escaped.
pub open spec fn escaped(s: Seq<char>) -> Seq<char>
    decreases s.len(),
{
    if s.len() == 0 {
        Seq::empty()
    } else {
        escaped(s.drop_last()) + escaped_char(s.last())
    }
}

/// A level: its price, its units and the number of its orders.
pub open spec fn level_object(level: (Price, Seq<OrderView>)) -> Seq<char> {
    "{\"price\":"@ + decimal::decimal(level.0 as int) + ",\"qty\":"@ + decimal::decimal(
        protocol::depth(level.1),
    ) + ",\"orders\":"@ + decimal::decimal(level.1.len() as int) + seq!['}']
}

/// The levels of a side.
pub open spec fn side_array(levels: Seq<(Price, Seq<OrderView>)>) -> Seq<char> {
    seq!['['] + text::joined(
        levels.map_values(|level: (Price, Seq<OrderView>)| level_object(level)),
        seq![','],
    ) + seq![']']
}

/// A book.
pub open spec fn snapshot_object(snapshot: SnapshotContents) -> Seq<char> {
    "{\"bids\":"@ + side_array(snapshot.bids) + ",\"asks\":"@ + side_array(snapshot.asks) + seq![
        '}',
    ]
}

/// Writes a text as it stands between the quotes of a JSON string.
pub fn json_escape(value: &str) -> (out: String)
    ensures
        out@ == escaped(value@),
{
    let mut out = String::new();
    assert(out@ =~= escaped(value@.take(0)));
    for c in it: value.chars()
        invariant
            it.seq() == value@,
            out@ == escaped(value@.take(it.index())),
    {
        let ghost next = value@.take(it.index() + 1);
        assert(next.drop_last() =~= value@.take(it.index()));
        if c == '\\' {
            out.push('\\');
            out.push('\\');
        } else if c == '"' {
            out.push('\\');
            out.push('"');
        } else if c == '\n' {
            out.push('\\');
            out.push('n');
        } else {
            out.push(c);
        }
        assert(out@ =~= escaped(next));
    }
    assert(value@.take(value@.len() as int) =~= value@);
    out
}

/// Writes a level in JSON at the end of a text.
fn write_level(out: &mut String, price: Price, orders: &Vec<OrderView>)
    requires
        protocol::depth_fits(orders@),
    ensures
        final(out)@ == old(out)@ + level_object((price, orders@)),
{
    out.append("{\"price\":");
    decimal::write_i64(out, price);
    out.append(",\"qty\":");
    decimal::write_i64(out, protocol::total(orders));
    out.append(",\"orders\":");
    decimal::write_u64(out, orders.len() as u64);
    out.push('}');
    assert(out@ =~= old(out)@ + level_object((price, orders@)));
}

/// Writes a side in JSON.
fn side_json(levels: &Vec<(Price, Vec<OrderView>)>) -> (out: String)
    requires
        protocol::side_fits(types::level_contents(levels@)),
    ensures
        out@ == side_array(types::level_contents(levels@)),
{
    let ghost all = types::level_contents(levels@);
    let ghost items = all.map_values(|level: (Price, Seq<OrderView>)| level_object(level));
    let mut out = String::new();
    out.push('[');
    let mut i: usize = 0;
    assert(out@ =~= seq!['['] + text::joined(items.take(0), seq![',']));
    while i < levels.len()
        invariant
            i <= levels@.len(),
            all == types::level_contents(levels@),
            protocol::side_fits(all),
            items == all.map_values(|level: (Price, Seq<OrderView>)| level_object(level)),
            out@ == seq!['['] + text::joined(items.take(i as int), seq![',']),
        decreases levels@.len() - i,
    {
        proof {
            text::lemma_joined_next(items, i as int, seq![',']);
            assert(all[i as int].1 == levels@[i as int].1@);
        }
        if i > 0 {
            out.push(',');
        }
        write_level(&mut out, levels[i].0, &levels[i].1);
        i = i + 1;
        assert(out@ =~= seq!['['] + text::joined(items.take(i as int), seq![',']));
    }
    assert(items.take(i as int) =~= items);
    out.push(']');
    assert(out@ =~= side_array(all));
    out
}

/// Writes a book in JSON.
pub fn snapshot_json(snapshot: &BookSnapshot) -> (out: String)
    requires
        protocol::snapshot_fits(snapshot@),
    ensures
        out@ == snapshot_object(snapshot@),
{
    let mut out = "{\"bids\":".to_owned();
    out.append(&side_json(&snapshot.bids));
    out.append(",\"asks\":");
    out.append(&side_json(&snapshot.asks));
    out.push('}');
    assert(out@ =~= snapshot_object(snapshot@));
    out
}

/// A header line of a request.
#[derive(Clone, Copy, Debug, Eq, PartialEq, Structural)]
pub enum Header {
    /// The empty line behind the headers.
    End,
    /// How many bytes the body has.
    ContentLength(usize),
    Other,
}

/// What a header line says. A length that is not a number counts as zero.
pub open spec fn header_read(line: Seq<char>) -> Header {
    let header = text::trimmed_end(line);
    if header.len() == 0 {
        Header::End
    } else if "Content-Length:"@.is_prefix_of(header) {
        match decimal::usize_read(
            text::trimmed(header.skip("Content-Length:"@.len() as int)),
        ) {
            Some(length) => Header::ContentLength(length),
            None => Header::ContentLength(0),
        }
    } else {
        Header::Other
    }
}

/// Reads a header line.
pub fn read_header(line: &str) -> (header: Header)
    ensures
        header == header_read(line@),
{
    let header = text::trim_end(line);
    if header.as_str().is_empty() {
        return Header::End;
    }
    match text::strip_prefix(&header, "Content-Length:") {
        Some(value) => match decimal::read_usize(&text::trim(&value)) {
            Some(length) => Header::ContentLength(length),
            None => Header::ContentLength(0),
        },
        None => Header::Other,
    }
}

/// The length of the body once a header has been read, `None` at the end of the headers. A later
/// length replaces an earlier one.
pub open spec fn length_after(length: usize, header: Header) -> Option<usize> {
    match header {
        Header::End => None,
        Header::ContentLength(new) => Some(new),
        Header::Other => Some(length),
    }
}

/// The length of the body once a header has been read.
pub fn next_length(length: usize, header: Header) -> (next: Option<usize>)
    ensures
        next == length_after(length, header),
        header is End <==> next is None,
        header matches Header::ContentLength(new) ==> next == Some(new),
        header is Other ==> next == Some(length),
{
    match header {
        Header::End => None,
        Header::ContentLength(new) => Some(new),
        Header::Other => Some(length),
    }
}

/// What a request is for.
#[derive(Clone, Copy, Debug, Eq, PartialEq, Structural)]
pub enum Route {
    Page,
    Snapshot,
    Order,
    NotFound,
}

/// What a request is for, by the method and the path on its first line.
pub open spec fn route_read(line: Seq<char>) -> Route {
    let words = text::words(line);
    if words.len() < 2 {
        Route::NotFound
    } else if words[0] == "GET"@ && words[1] == "/"@ {
        Route::Page
    } else if words[0] == "GET"@ && words[1] == "/api/snapshot"@ {
        Route::Snapshot
    } else if words[0] == "POST"@ && words[1] == "/api/order"@ {
        Route::Order
    } else {
        Route::NotFound
    }
}

/// Reads the first line of a request.
pub fn read_route(line: &str) -> (route: Route)
    ensures
        route == route_read(line@),
{
    let words = text::split_words(line);
    assert(words@.len() == text::words(line@).len());
    if words.len() < 2 {
        return Route::NotFound;
    }
    assert(words@[0]@ == text::words(line@)[0]);
    assert(words@[1]@ == text::words(line@)[1]);
    let method = &words[0];
    let path = &words[1];
    if text::same(method, "GET") && text::same(path, "/") {
        Route::Page
    } else if text::same(method, "GET") && text::same(path, "/api/snapshot") {
        Route::Snapshot
    } else if text::same(method, "POST") && text::same(path, "/api/order") {
        Route::Order
    } else {
        Route::NotFound
    }
}

/// The text of a response. Its length counts bytes.
pub open spec fn response_text(
    status: Seq<char>,
    content_type: Seq<char>,
    body: Seq<char>,
) -> Seq<char> {
    "HTTP/1.1 "@ + status + "\r\nContent-Type: "@ + content_type + "\r\nContent-Length: "@
        + decimal::decimal(vstd::utf8::encode_utf8(body).len() as int)
        + "\r\nConnection: close\r\n\r\n"@ + body
}

/// Writes a response.
pub fn http_response(status: &str, content_type: &str, body: &str) -> (out: String)
    ensures
        out@ == response_text(status@, content_type@, body@),
{
    let mut out = "HTTP/1.1 ".to_owned();
    out.append(status);
    out.append("\r\nContent-Type: ");
    out.append(content_type);
    out.append("\r\nContent-Length: ");
    decimal::write_u64(&mut out, body.as_bytes().len() as u64);
    out.append("\r\nConnection: close\r\n\r\n");
    out.append(body);
    out
}

/// A response in JSON.
#[derive(Clone, Debug, Eq, PartialEq)]
pub struct WebResponse {
    pub status: &'static str,
    pub body: String,
}

/// The contents of a [`WebResponse`].
pub struct ResponseContents {
    pub status: Seq<char>,
    pub body: Seq<char>,
}

impl View for WebResponse {
    type V = ResponseContents;

    open spec fn view(&self) -> ResponseContents {
        ResponseContents { status: self.status@, body: self.body@ }
    }
}

/// What to do about a request.
#[derive(Debug, Eq, PartialEq)]
pub enum WebStep {
    /// Send the page.
    Page,
    /// Send a response.
    Reply(WebResponse),
    /// Write the event to the log, then send what [`finish_web_command`] gives.
    Persist(Accepted),
}

/// The contents of a [`WebStep`].
pub enum StepContents {
    Page,
    Reply(ResponseContents),
    Persist(Event, Seq<Fill>),
}

impl View for WebStep {
    type V = StepContents;

    open spec fn view(&self) -> StepContents {
        match *self {
            WebStep::Page => StepContents::Page,
            WebStep::Reply(response) => StepContents::Reply(response@),
            WebStep::Persist(accepted) => StepContents::Persist(accepted.event, accepted.fills@),
        }
    }
}

/// The response to a request that cannot be met.
pub open spec fn refused(status: Seq<char>, message: Seq<char>) -> ResponseContents {
    ResponseContents { status, body: "{\"ok\":false,\"message\":\""@ + escaped(message) + "\"}"@ }
}

/// The response to a command that was carried out and logged.
pub open spec fn confirmed(
    seq: Sequence,
    fills: Seq<Fill>,
    snapshot: SnapshotContents,
) -> ResponseContents {
    ResponseContents {
        status: "200 OK"@,
        body: "{\"ok\":true,\"message\":\"accepted seq "@ + decimal::decimal(seq as int)
            + "\",\"fills\":\""@ + escaped(protocol::fills_text(fills)) + "\",\"snapshot\":"@
            + snapshot_object(snapshot) + seq!['}'],
    }
}

/// What a command does to the engine, and what is to be done about it.
pub open spec fn ordered(state: EngineState, command: Seq<char>) -> (EngineState, StepContents) {
    match protocol::command_read(command) {
        Err(e) => (state, StepContents::Reply(refused("400 Bad Request"@, e.message()))),
        Ok(command) => {
            let event = state.event(command);
            match state.after(event) {
                (next, Ok(fills)) => (next, StepContents::Persist(event, fills)),
                (next, Err(e)) => (
                    next,
                    StepContents::Reply(refused("400 Bad Request"@, e.message())),
                ),
            }
        },
    }
}

/// What a request does to the engine, and what is to be done about it.
pub open spec fn answered(state: EngineState, route: Route, body: Seq<char>) -> (
    EngineState,
    StepContents,
) {
    match route {
        Route::Page => (state, StepContents::Page),
        Route::Snapshot => (
            state,
            StepContents::Reply(
                ResponseContents {
                    status: "200 OK"@,
                    body: snapshot_object(state.book.shown()),
                },
            ),
        ),
        Route::Order => ordered(state, text::trimmed(body)),
        Route::NotFound => (
            state,
            StepContents::Reply(
                ResponseContents {
                    status: "404 Not Found"@,
                    body: "{\"ok\":false,\"message\":\"not found\"}"@,
                },
            ),
        ),
    }
}

/// Whether an engine has a number left for a command, if this is one.
pub open spec fn can_order(state: EngineState, command: Seq<char>) -> bool {
    protocol::command_read(command) is Ok ==> state.next_seq < Sequence::MAX
}

/// Whether an engine can take a request: there is a number left for a command, and the units of
/// each level of a book that is shown can be added up.
pub open spec fn can_answer(state: EngineState, route: Route, body: Seq<char>) -> bool {
    match route {
        Route::Snapshot => protocol::snapshot_fits(state.book.shown()),
        Route::Order => can_order(state, text::trimmed(body)),
        _ => true,
    }
}

/// The response to a command once it was logged or could not be.
pub open spec fn finished(
    state: EngineState,
    seq: Sequence,
    fills: Seq<Fill>,
    logged: Result<(), LogFailure>,
) -> ResponseContents {
    match logged {
        Ok(_) => confirmed(seq, fills, state.book.shown()),
        Err(e) => refused("500 Internal Server Error"@, e.message()),
    }
}

/// The response to a request that cannot be met.
fn refusal(status: &'static str, message: &str) -> (response: WebResponse)
    ensures
        response@ == refused(status@, message@),
{
    let mut body = "{\"ok\":false,\"message\":\"".to_owned();
    body.append(&json_escape(message));
    body.append("\"}");
    WebResponse { status, body }
}

/// Takes a command.
pub fn submit_web_command(engine: &mut Engine, command: &str) -> (step: WebStep)
    requires
        old(engine).wf(),
        can_order(old(engine)@, command@),
    ensures
        final(engine).wf(),
        (final(engine)@, step@) == ordered(old(engine)@, command@),
{
    let command = match protocol::parse_command(command) {
        Ok(command) => command,
        Err(e) => return WebStep::Reply(refusal("400 Bad Request", &e.to_string())),
    };
    match engine.submit(command) {
        Ok(accepted) => WebStep::Persist(accepted),
        Err(e) => WebStep::Reply(refusal("400 Bad Request", &e.to_string())),
    }
}

/// The response to a command that was carried out, once its event was logged or could not be. The
/// book that it shows is the engine's.
pub fn finish_web_command(
    engine: &Engine,
    accepted: &Accepted,
    logged: Result<(), LogError>,
) -> (response: WebResponse)
    requires
        logged is Ok ==> protocol::snapshot_fits(engine@.book.shown()),
    ensures
        response@ == finished(
            engine@,
            accepted.event.seq,
            accepted.fills@,
            match logged {
                Ok(_) => Ok(()),
                Err(e) => Err(e@),
            },
        ),
{
    match logged {
        Ok(_) => {
            let mut body = "{\"ok\":true,\"message\":\"accepted seq ".to_owned();
            decimal::write_u64(&mut body, accepted.event.seq);
            body.append("\",\"fills\":\"");
            body.append(&json_escape(&protocol::format_fills(&accepted.fills)));
            body.append("\",\"snapshot\":");
            body.append(&snapshot_json(&engine.snapshot()));
            body.push('}');
            let response = WebResponse { status: "200 OK", body };
            assert(response.body@ =~= confirmed(
                accepted.event.seq,
                accepted.fills@,
                engine@.book.shown(),
            ).body);
            response
        },
        Err(e) => refusal("500 Internal Server Error", &e.to_string()),
    }
}

/// Whether an engine can take a request.
pub fn accepts(engine: &Engine, route: Route, body: &str) -> (yes: bool)
    ensures
        yes == can_answer(engine@, route, body@),
{
    match route {
        Route::Snapshot => protocol::depths_fit(&engine.snapshot()),
        Route::Order => match protocol::parse_command(&text::trim(body)) {
            Ok(_) => engine.next_seq() < Sequence::MAX,
            Err(_) => true,
        },
        _ => true,
    }
}

/// Whether a request needs the engine.
pub open spec fn needs_engine(route: Route, body: Seq<char>) -> bool {
    match route {
        Route::Snapshot => true,
        Route::Order => protocol::command_read(text::trimmed(body)) is Ok,
        _ => false,
    }
}

/// Takes a request that does not need the engine, and leaves the others.
pub fn answer_at_once(route: Route, body: &str) -> (step: Option<WebStep>)
    ensures
        match step {
            Some(step) => !needs_engine(route, body@) && forall|state: EngineState| #[trigger]
                answered(state, route, body@) == (state, step@),
            None => needs_engine(route, body@),
        },
{
    match route {
        Route::Page => Some(WebStep::Page),
        Route::Snapshot => None,
        Route::Order => match protocol::parse_command(&text::trim(body)) {
            Ok(_) => None,
            Err(e) => Some(WebStep::Reply(refusal("400 Bad Request", &e.to_string()))),
        },
        Route::NotFound => Some(
            WebStep::Reply(
                WebResponse {
                    status: "404 Not Found",
                    body: "{\"ok\":false,\"message\":\"not found\"}".to_owned(),
                },
            ),
        ),
    }
}

/// Takes a request.
pub fn answer(engine: &mut Engine, route: Route, body: &str) -> (step: WebStep)
    requires
        old(engine).wf(),
        can_answer(old(engine)@, route, body@),
    ensures
        final(engine).wf(),
        (final(engine)@, step@) == answered(old(engine)@, route, body@),
{
    if let Some(step) = answer_at_once(route, body) {
        return step;
    }
    match route {
        Route::Order => submit_web_command(engine, &text::trim(body)),
        _ => WebStep::Reply(
            WebResponse { status: "200 OK", body: snapshot_json(&engine.snapshot()) },
        ),
    }
}

/// The text of the response that a step becomes: `page` for the page, JSON for the others. An event
/// that is still to be logged has no response yet.
pub open spec fn step_text(step: StepContents, page: Seq<char>) -> Seq<char>
    recommends
        step !is Persist,
{
    match step {
        StepContents::Reply(response) => response_text(
            response.status,
            "application/json"@,
            response.body,
        ),
        _ => response_text("200 OK"@, "text/html; charset=utf-8"@, page),
    }
}

/// Writes the response that a step becomes.
pub fn respond(step: &WebStep, page: &str) -> (out: String)
    requires
        step@ !is Persist,
    ensures
        out@ == step_text(step@, page@),
{
    match step {
        WebStep::Reply(response) => http_response(
            response.status,
            "application/json",
            &response.body,
        ),
        _ => http_response("200 OK", "text/html; charset=utf-8", page),
    }
}

/// The text that a JSON string stands for, and what follows the quote that ends it. The string
/// starts behind its first quote; escapes are those for backslashes, quotes and line feeds.
pub open spec fn string_read(s: Seq<char>) -> Option<(Seq<char>, Seq<char>)>
    decreases s.len(),
{
    if s.len() == 0 {
        None
    } else if s[0] == '"' {
        Some((Seq::empty(), s.skip(1)))
    } else if s[0] == '\\' {
        if s.len() == 1 || !(s[1] == '\\' || s[1] == '"' || s[1] == 'n') {
            None
        } else {
            let c = if s[1] == 'n' {
                '\n'
            } else {
                s[1]
            };
            match string_read(s.skip(2)) {
                Some((more, rest)) => Some((seq![c] + more, rest)),
                None => None,
            }
        }
    } else {
        match string_read(s.skip(1)) {
            Some((more, rest)) => Some((seq![s[0]] + more, rest)),
            None => None,
        }
    }
}

/// Escaping the first character first.
proof fn lemma_escaped_first(s: Seq<char>)
    requires
        s.len() > 0,
    ensures
        escaped(s) == escaped_char(s[0]) + escaped(s.drop_first()),
    decreases s.len(),
{
    if s.len() == 1 {
        assert(s.drop_last() =~= Seq::empty());
        assert(s.drop_first() =~= Seq::empty());
        assert(escaped(s) =~= escaped_char(s[0]) + escaped(s.drop_first()));
    } else {
        lemma_escaped_first(s.drop_last());
        assert(s.drop_last().drop_first() =~= s.drop_first().drop_last());
        assert(escaped(s) =~= escaped_char(s[0]) + escaped(s.drop_first()));
    }
}

/// An escaped text can be told from what stands around it: whatever the text is, a reader of JSON
/// gets it back and finds the quote that ends it. It takes up one line.
pub proof fn escaped_texts_are_read_back(s: Seq<char>, rest: Seq<char>)
    ensures
        string_read(escaped(s) + seq!['"'] + rest) == Some((s, rest)),
        text::lacks(escaped(s), '\n'),
    decreases s.len(),
{
    let all = escaped(s) + seq!['"'] + rest;
    if s.len() == 0 {
        assert(all.skip(1) =~= rest);
        assert(s =~= Seq::empty());
    } else {
        let more = s.drop_first();
        let first = escaped_char(s[0]);
        lemma_escaped_first(s);
        escaped_texts_are_read_back(more, rest);
        assert(all.skip(first.len() as int) =~= escaped(more) + seq!['"'] + rest);
        assert(all[0] == first[0]);
        assert(first.len() == 2 ==> all[1] == first[1]);
        assert(seq![s[0]] + more =~= s);
    }
}

/// Only what goes to the log changes the book.
pub proof fn unlogged_requests_leave_the_book_alone(
    state: EngineState,
    route: Route,
    body: Seq<char>,
)
    ensures
        answered(state, route, body).1 !is Persist ==> answered(state, route, body).0.book
            == state.book,
        route != Route::Order ==> answered(state, route, body).0 == state,
{
}

/// A command does the same to the engine, and leads to the same event and trades, whether it comes
/// from a browser or on a line of its own.
pub proof fn orders_do_what_submitted_commands_do(state: EngineState, command: Command)
    ensures
        ({
            let (by_web, step) = ordered(state, protocol::command_text(command));
            let (by_line, action) = session::answered(state, RequestContents::Submit(command));
            &&& by_web == by_line
            &&& match (step, action) {
                (StepContents::Persist(event, fills), ActionContents::Persist(e, f)) => event == e
                    && fills == f,
                (StepContents::Reply(_), ActionContents::Reply(_)) => true,
                _ => false,
            }
        }),
{
    protocol::written_commands_are_read_back(command);
}

} // verus!
