//! The event log: one line of text for each event, oldest first.
use vstd::prelude::*;

use crate::book;
use crate::book::EngineState;
use crate::decimal;
use crate::engine::Engine;
use crate::text;
use crate::types::{Command, EngineError, Event, Fill, Side};

verus! {

/// Why a log could not be written or read.
#[derive(Debug)]
pub enum LogError {
    /// The file could not be written or read; what the system says about it.
    Io(String),
    MalformedLine { line: usize, text: String, reason: &'static str },
    Engine { line: usize, source: EngineError },
}

/// The contents of a [`LogError`].
pub enum LogFailure {
    Io(Seq<char>),
    MalformedLine { line: int, text: Seq<char>, reason: Seq<char> },
    Engine { line: int, source: EngineError },
}

impl View for LogError {
    type V = LogFailure;

    open spec fn view(&self) -> LogFailure {
        match *self {
            LogError::Io(source) => LogFailure::Io(source@),
            LogError::MalformedLine { line, text, reason } => LogFailure::MalformedLine {
                line: line as int,
                text: text@,
                reason: reason@,
            },
            LogError::Engine { line, source } => LogFailure::Engine { line: line as int, source },
        }
    }
}

impl LogFailure {
    /// What the error says.
    pub open spec fn message(self) -> Seq<char> {
        match self {
            LogFailure::Io(source) => "log IO error: "@ + source,
            LogFailure::MalformedLine { line, reason, .. } => "malformed log line "@
                + decimal::decimal(line) + ": "@ + reason,
            LogFailure::Engine { line, source } => "engine rejected event on log line "@
                + decimal::decimal(line) + ": "@ + source.message(),
        }
    }
}

impl LogError {
    /// What the error says.
    pub fn to_string(&self) -> (message: String)
        ensures
            message@ == self@.message(),
    {
        match self {
            LogError::Io(source) => {
                let mut message = "log IO error: ".to_owned();
                message.append(source);
                message
            },
            LogError::MalformedLine { line, reason, .. } => {
                let mut message = "malformed log line ".to_owned();
                decimal::write_u64(&mut message, *line as u64);
                message.append(": ");
                message.append(reason);
                message
            },
            LogError::Engine { line, source } => {
                let mut message = "engine rejected event on log line ".to_owned();
                decimal::write_u64(&mut message, *line as u64);
                message.append(": ");
                message.append(&source.to_string());
                message
            },
        }
    }
}

/// The letter of a side.
pub open spec fn side_letter(side: Side) -> char {
    match side {
        Side::Bid => 'B',
        Side::Ask => 'A',
    }
}

/// The line of an event, without the end of the line.
pub open spec fn event_line(event: Event) -> Seq<char> {
    match event.command {
        Command::Limit { id, side, price, qty } => decimal::decimal(event.seq as int) + seq![
            '|',
            'L',
            '|',
            side_letter(side),
            '|',
        ] + decimal::decimal(id as int) + seq!['|'] + decimal::decimal(price as int) + seq!['|']
            + decimal::decimal(qty as int),
        Command::Cancel { id } => decimal::decimal(event.seq as int) + seq!['|', 'C', '|']
            + decimal::decimal(id as int),
    }
}

/// A line that does not hold an event.
pub open spec fn malformed<T>(line: int, text: Seq<char>, reason: Seq<char>) -> Result<
    T,
    LogFailure,
> {
    Err(LogFailure::MalformedLine { line, text, reason })
}

/// The side that a field stands for.
pub open spec fn side_read(line: int, text: Seq<char>, field: Seq<char>) -> Result<
    Side,
    LogFailure,
> {
    if field == seq!['B'] {
        Ok(Side::Bid)
    } else if field == seq!['A'] {
        Ok(Side::Ask)
    } else {
        malformed(line, text, "side must be `B` or `A`"@)
    }
}

/// The number that a field stands for.
pub open spec fn number_read<T>(
    line: int,
    text: Seq<char>,
    number: Option<T>,
    reason: Seq<char>,
) -> Result<T, LogFailure> {
    match number {
        Some(n) => Ok(n),
        None => malformed(line, text, reason),
    }
}

/// The limit order that the fields after the kind stand for.
pub open spec fn limit_read(line: int, text: Seq<char>, fields: Seq<Seq<char>>) -> Result<
    Command,
    LogFailure,
> {
    match side_read(line, text, fields[2]) {
        Err(e) => Err(e),
        Ok(side) => match number_read(line, text, decimal::u64_read(fields[3]), "order id"@) {
            Err(e) => Err(e),
            Ok(id) => match number_read(line, text, decimal::i64_read(fields[4]), "price"@) {
                Err(e) => Err(e),
                Ok(price) => match number_read(
                    line,
                    text,
                    decimal::i64_read(fields[5]),
                    "quantity"@,
                ) {
                    Err(e) => Err(e),
                    Ok(qty) => Ok(Command::Limit { id, side, price, qty }),
                },
            },
        },
    }
}

/// The event that a line stands for. Fields are checked from the left, the kind of the line and
/// the number of fields right after the sequence number.
pub open spec fn event_read(line: int, text: Seq<char>) -> Result<Event, LogFailure> {
    let fields = text::fields(text, '|');
    match number_read(line, text, decimal::u64_read(fields[0]), "sequence"@) {
        Err(e) => Err(e),
        Ok(seq) => if fields.len() == 6 && fields[1] == seq!['L'] {
            match limit_read(line, text, fields) {
                Err(e) => Err(e),
                Ok(command) => Ok(Event { seq, command }),
            }
        } else if fields.len() == 3 && fields[1] == seq!['C'] {
            match number_read(line, text, decimal::u64_read(fields[2]), "order id"@) {
                Err(e) => Err(e),
                Ok(id) => Ok(Event { seq, command: Command::Cancel { id } }),
            }
        } else {
            malformed(
                line,
                text,
                "expected limit line `seq|L|side|id|price|qty` or cancel line `seq|C|id`"@,
            )
        },
    }
}

/// Writes the line of an event.
pub fn encode_event(event: &Event) -> (line: String)
    ensures
        line@ == event_line(*event),
{
    let mut line = String::new();
    decimal::write_u64(&mut line, event.seq);
    line.push('|');
    match event.command {
        Command::Limit { id, side, price, qty } => {
            line.push('L');
            line.push('|');
            line.push(encode_side(side));
            line.push('|');
            decimal::write_u64(&mut line, id);
            line.push('|');
            decimal::write_i64(&mut line, price);
            line.push('|');
            decimal::write_i64(&mut line, qty);
        },
        Command::Cancel { id } => {
            line.push('C');
            line.push('|');
            decimal::write_u64(&mut line, id);
        },
    }
    assert(line@ =~= event_line(*event));
    line
}

/// The letter of a side.
fn encode_side(side: Side) -> (letter: char)
    ensures
        letter == side_letter(side),
{
    match side {
        Side::Bid => 'B',
        Side::Ask => 'A',
    }
}

/// The error for a line that does not hold an event.
fn malformed_line(line: usize, text: &str, reason: &'static str) -> (e: LogError)
    ensures
        e@ == (LogFailure::MalformedLine { line: line as int, text: text@, reason: reason@ }),
{
    LogError::MalformedLine { line, text: text.to_owned(), reason }
}

/// Reads the letter of a side.
fn decode_side(line: usize, text: &str, value: &str) -> (side: Result<Side, LogError>)
    ensures
        match side {
            Ok(s) => side_read(line as int, text@, value@) == Ok::<Side, LogFailure>(s),
            Err(e) => side_read(line as int, text@, value@) == Err::<Side, LogFailure>(e@),
        },
{
    proof {
        reveal_strlit("B");
        reveal_strlit("A");
        assert("B"@ =~= seq!['B']);
        assert("A"@ =~= seq!['A']);
    }
    if text::same(value, "B") {
        Ok(Side::Bid)
    } else if text::same(value, "A") {
        Ok(Side::Ask)
    } else {
        Err(malformed_line(line, text, "side must be `B` or `A`"))
    }
}

/// Takes a number that was read, or gives the error for the field.
fn parse_field<T>(line: usize, text: &str, number: Option<T>, reason: &'static str) -> (result:
    Result<T, LogError>)
    ensures
        match result {
            Ok(n) => number_read(line as int, text@, number, reason@) == Ok::<T, LogFailure>(n),
            Err(e) => number_read(line as int, text@, number, reason@) == Err::<T, LogFailure>(e@),
        },
{
    match number {
        Some(n) => Ok(n),
        None => Err(malformed_line(line, text, reason)),
    }
}

/// Reads the fields of a limit order.
fn decode_limit(line: usize, text: &str, fields: &Vec<String>) -> (result: Result<
    Command,
    LogError,
>)
    requires
        fields@.len() == 6,
    ensures
        match result {
            Ok(c) => limit_read(line as int, text@, text::contents(fields@)) == Ok::<
                Command,
                LogFailure,
            >(c),
            Err(e) => limit_read(line as int, text@, text::contents(fields@)) == Err::<
                Command,
                LogFailure,
            >(e@),
        },
{
    let side = match decode_side(line, text, &fields[2]) {
        Ok(side) => side,
        Err(e) => return Err(e),
    };
    let id = match parse_field(line, text, decimal::read_u64(&fields[3]), "order id") {
        Ok(id) => id,
        Err(e) => return Err(e),
    };
    let price = match parse_field(line, text, decimal::read_i64(&fields[4]), "price") {
        Ok(price) => price,
        Err(e) => return Err(e),
    };
    let qty = match parse_field(line, text, decimal::read_i64(&fields[5]), "quantity") {
        Ok(qty) => qty,
        Err(e) => return Err(e),
    };
    Ok(Command::Limit { id, side, price, qty })
}

/// Reads the line of an event; `line` is its number, for the error.
pub fn decode_event(line: usize, text: &str) -> (result: Result<Event, LogError>)
    ensures
        match result {
            Ok(event) => event_read(line as int, text@) == Ok::<Event, LogFailure>(event),
            Err(e) => event_read(line as int, text@) == Err::<Event, LogFailure>(e@),
        },
{
    let fields = text::split_fields(text, '|');
    proof {
        text::lemma_parts_len(text@, text::only('|'));
        reveal_strlit("L");
        reveal_strlit("C");
        assert("L"@ =~= seq!['L']);
        assert("C"@ =~= seq!['C']);
    }
    let seq = match parse_field(line, text, decimal::read_u64(&fields[0]), "sequence") {
        Ok(seq) => seq,
        Err(e) => return Err(e),
    };
    if fields.len() == 6 && text::same(&fields[1], "L") {
        match decode_limit(line, text, &fields) {
            Ok(command) => Ok(Event { seq, command }),
            Err(e) => Err(e),
        }
    } else if fields.len() == 3 && text::same(&fields[1], "C") {
        match parse_field(line, text, decimal::read_u64(&fields[2]), "order id") {
            Ok(id) => Ok(Event { seq, command: Command::Cancel { id } }),
            Err(e) => Err(e),
        }
    } else {
        Err(
            malformed_line(
                line,
                text,
                "expected limit line `seq|L|side|id|price|qty` or cancel line `seq|C|id`",
            ),
        )
    }
}

/// Whether a line holds nothing but white space.
pub open spec fn is_blank(line: Seq<char>) -> bool {
    text::trimmed(line).len() == 0
}

/// The events that lines stand for, blank lines left out, or what is wrong with the first line
/// that does not stand for an event. Lines count from 1, blank ones too.
pub open spec fn events_read(lines: Seq<Seq<char>>) -> Result<Seq<Event>, LogFailure>
    decreases lines.len(),
{
    if lines.len() == 0 {
        Ok(Seq::empty())
    } else {
        match events_read(lines.drop_last()) {
            Err(e) => Err(e),
            Ok(events) => if is_blank(lines.last()) {
                Ok(events)
            } else {
                match event_read(lines.len() as int, lines.last()) {
                    Err(e) => Err(e),
                    Ok(event) => Ok(events.push(event)),
                }
            },
        }
    }
}

/// The events that the text of a log stands for.
pub open spec fn log_read(log: Seq<char>) -> Result<Seq<Event>, LogFailure> {
    events_read(text::lines(log))
}

/// What carrying out the events of a log gives. Events count from 1, blank lines do not count.
pub open spec fn log_replayed(log: Seq<char>) -> Result<(EngineState, Seq<Fill>), LogFailure> {
    match log_read(log) {
        Err(e) => Err(e),
        Ok(events) => match book::replayed(events) {
            Ok(done) => Ok(done),
            Err((at, source)) => Err(LogFailure::Engine { line: at + 1, source }),
        },
    }
}

/// Whether an engine can be recovered from a log: each event that is reached leaves a number for
/// the next.
pub open spec fn can_recover(log: Seq<char>) -> bool {
    log_read(log) matches Ok(events) ==> book::can_replay(events)
}

/// The text of a log with one more event.
pub open spec fn log_appended(log: Seq<char>, event: Event) -> Seq<char> {
    log + event_line(event) + seq!['\n']
}

/// A line that does not stand for an event makes the log unreadable, whatever comes after it.
proof fn lemma_reading_stops(lines: Seq<Seq<char>>, n: int)
    requires
        0 <= n <= lines.len(),
        events_read(lines.take(n)) is Err,
    ensures
        events_read(lines) == events_read(lines.take(n)),
    decreases lines.len(),
{
    if n < lines.len() {
        let front = lines.drop_last();
        assert(front.take(n) =~= lines.take(n));
        lemma_reading_stops(front, n);
    } else {
        assert(lines.take(n) =~= lines);
    }
}

/// The append-only log of accepted events, as text.
pub struct EventLog;

impl EventLog {
    /// Writes an event at the end of a log.
    pub fn append(log: &mut String, event: &Event)
        ensures
            final(log)@ == log_appended(old(log)@, *event),
    {
        log.append(&encode_event(event));
        log.push('\n');
        assert(log@ =~= log_appended(old(log)@, *event));
    }

    /// Reads the events of a log.
    pub fn read(log: &str) -> (result: Result<Vec<Event>, LogError>)
        ensures
            match result {
                Ok(events) => log_read(log@) == Ok::<Seq<Event>, LogFailure>(events@),
                Err(e) => log_read(log@) == Err::<Seq<Event>, LogFailure>(e@),
            },
    {
        let lines = text::split_lines(log);
        let ghost all = text::lines(log@);
        let mut events: Vec<Event> = Vec::new();
        let mut i: usize = 0;
        assert(events@ =~= Seq::empty());
        assert(all.take(0) =~= Seq::empty());
        while i < lines.len()
            invariant
                i <= lines@.len(),
                all == text::lines(log@),
                text::contents(lines@) == all,
                events_read(all.take(i as int)) == Ok::<Seq<Event>, LogFailure>(events@),
            decreases lines@.len() - i,
        {
            let line = &lines[i];
            let ghost more = all.take(i + 1);
            assert(more.drop_last() =~= all.take(i as int));
            assert(more.last() == line@);
            i = i + 1;
            if !text::trim(line).as_str().is_empty() {
                match decode_event(i, line) {
                    Ok(event) => events.push(event),
                    Err(e) => {
                        proof {
                            lemma_reading_stops(all, i as int);
                        }
                        return Err(e);
                    },
                }
            }
        }
        assert(all.take(i as int) =~= all);
        Ok(events)
    }

    /// Whether an engine can be recovered from a log.
    pub fn accepts(log: &str) -> (yes: bool)
        ensures
            yes == can_recover(log@),
    {
        match EventLog::read(log) {
            Ok(events) => Engine::accepts(&events),
            Err(_) => true,
        }
    }

    /// Carries out the events of a log. Gives the engine and all trades in order.
    pub fn recover(log: &str) -> (result: Result<(Engine, Vec<Fill>), LogError>)
        requires
            can_recover(log@),
        ensures
            match result {
                Ok((engine, fills)) => engine.wf() && log_replayed(log@) == Ok::<
                    (EngineState, Seq<Fill>),
                    LogFailure,
                >((engine@, fills@)),
                Err(e) => log_replayed(log@) == Err::<(EngineState, Seq<Fill>), LogFailure>(e@),
            },
    {
        let events = match EventLog::read(log) {
            Ok(events) => events,
            Err(e) => return Err(e),
        };
        match Engine::replay_located(&events) {
            Ok(done) => Ok(done),
            Err((at, source)) => {
                assert(at < events.len());
                Err(LogError::Engine { line: at + 1, source })
            },
        }
    }
}

} // verus!
