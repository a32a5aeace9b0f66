//! What holds of the lines of a log, said of their fields, and of reading them in order.
use vstd::prelude::*;

use crate::book;
use crate::book::EngineState;
use crate::decimal;
use crate::log;
use crate::log::{LogError, LogFailure};
use crate::notation;
use crate::recovery;
use crate::text;
use crate::types::{Command, EngineError, Event, Fill, Side};

verus! {

/// An event is written in fields between bars: its number; `L`, `B` for a bid or `A` for an ask,
/// and the order's identifier, price and units; or its number, `C` and the identifier.
pub proof fn events_are_written_in_fields(event: Event)
    ensures
        ({
            let fields = text::fields(log::event_line(event), '|');
            &&& fields.len() > 0
            &&& fields[0] == decimal::decimal(event.seq as int)
            &&& match event.command {
                Command::Limit { id, side, price, qty } => {
                    &&& fields.len() == 6
                    &&& fields[1] == seq!['L']
                    &&& fields[2] == match side {
                        Side::Bid => seq!['B'],
                        Side::Ask => seq!['A'],
                    }
                    &&& fields[3] == decimal::decimal(id as int)
                    &&& fields[4] == decimal::decimal(price as int)
                    &&& fields[5] == decimal::decimal(qty as int)
                },
                Command::Cancel { id } => {
                    &&& fields.len() == 3
                    &&& fields[1] == seq!['C']
                    &&& fields[2] == decimal::decimal(id as int)
                },
            }
        }),
{
    recovery::lemma_event_fields(event);
}

/// A line stands for an event if and only if its fields are those of the event: the number and the
/// kind, with all six fields of a limit order or all three of a cancellation, each readable.
pub proof fn lines_stand_for_what_their_fields_say(line: int, s: Seq<char>, event: Event)
    ensures
        ({
            let fields = text::fields(s, '|');
            log::event_read(line, s) == Ok::<Event, LogFailure>(event) <==> {
                &&& decimal::u64_read(fields[0]) == Some(event.seq)
                &&& match event.command {
                    Command::Limit { id, side, price, qty } => {
                        &&& fields.len() == 6
                        &&& fields[1] == seq!['L']
                        &&& fields[2] == match side {
                            Side::Bid => seq!['B'],
                            Side::Ask => seq!['A'],
                        }
                        &&& decimal::u64_read(fields[3]) == Some(id)
                        &&& decimal::i64_read(fields[4]) == Some(price)
                        &&& decimal::i64_read(fields[5]) == Some(qty)
                    },
                    Command::Cancel { id } => {
                        &&& fields.len() == 3
                        &&& fields[1] == seq!['C']
                        &&& decimal::u64_read(fields[2]) == Some(id)
                    },
                }
            }
        }),
{
    assert(seq!['A'][0] != seq!['B'][0]);
}

/// What is wrong with a line that stands for no event: the first thing from the left, with the
/// number and the text of the line.
pub proof fn malformed_lines_are_told_from_the_left(line: int, s: Seq<char>)
    ensures
        ({
            let fields = text::fields(s, '|');
            let limit = fields.len() == 6 && fields[1] == seq!['L'];
            let cancel = fields.len() == 3 && fields[1] == seq!['C'];
            let sided = fields[2] == seq!['B'] || fields[2] == seq!['A'];
            let wrong = |reason: Seq<char>|
                Err::<Event, LogFailure>(LogFailure::MalformedLine { line, text: s, reason });
            let result = log::event_read(line, s);
            if decimal::u64_read(fields[0]) is None {
                result == wrong("sequence"@)
            } else if !limit && !cancel {
                result == wrong(
                    "expected limit line `seq|L|side|id|price|qty` or cancel line `seq|C|id`"@,
                )
            } else if limit && !sided {
                result == wrong("side must be `B` or `A`"@)
            } else if limit && decimal::u64_read(fields[3]) is None {
                result == wrong("order id"@)
            } else if limit && decimal::i64_read(fields[4]) is None {
                result == wrong("price"@)
            } else if limit && decimal::i64_read(fields[5]) is None {
                result == wrong("quantity"@)
            } else if cancel && decimal::u64_read(fields[2]) is None {
                result == wrong("order id"@)
            } else {
                result is Ok
            }
        }),
{
}

/// Whether a line has anything but white space on it.
pub open spec fn written_on(line: Seq<char>) -> bool {
    exists|i: int| 0 <= i < line.len() && !text::is_space(#[trigger] line[i])
}

/// A line is blank if nothing is written on it.
proof fn lemma_written_on(line: Seq<char>)
    ensures
        log::is_blank(line) == !written_on(line),
{
    let (from, to) = notation::trimming_takes_white_space_away(line);
    let kept = text::trimmed(line);
    if kept.len() > 0 {
        assert(!text::is_space(line[from]));
    } else {
        assert forall|i: int| 0 <= i < line.len() implies text::is_space(#[trigger] line[i]) by {}
    }
}

/// Reading a log gives one event for each line with anything on it, in order, each the event that
/// its line stands for; or, if one of these lines stands for no event, what is wrong with the
/// first such line. No line with anything on it is passed over.
pub proof fn logs_are_read_line_by_line(log: Seq<char>)
    ensures
        ({
            let lines = text::lines(log);
            let written = lines.filter(|line: Seq<char>| written_on(line));
            match log::log_read(log) {
                Ok(events) => {
                    &&& events.len() == written.len()
                    &&& forall|i: int|
                        0 <= i < events.len() ==> log::event_read(1, written[i]) == Ok::<
                            Event,
                            LogFailure,
                        >(#[trigger] events[i])
                },
                Err(e) => exists|k: int|
                    {
                        &&& 0 <= k < lines.len()
                        &&& written_on(#[trigger] lines[k])
                        &&& log::event_read(k + 1, lines[k]) == Err::<Event, LogFailure>(e)
                        &&& forall|j: int|
                            0 <= j < k && written_on(#[trigger] lines[j]) ==> log::event_read(
                                j + 1,
                                lines[j],
                            ) is Ok
                    },
            }
        }),
{
    lemma_events_read(text::lines(log));
}

/// As for the lines of a log, for any lines.
proof fn lemma_events_read(lines: Seq<Seq<char>>)
    ensures
        ({
            let written = lines.filter(|line: Seq<char>| written_on(line));
            match log::events_read(lines) {
                Ok(events) => {
                    &&& events.len() == written.len()
                    &&& forall|i: int|
                        0 <= i < events.len() ==> log::event_read(1, written[i]) == Ok::<
                            Event,
                            LogFailure,
                        >(#[trigger] events[i])
                    &&& forall|j: int|
                        0 <= j < lines.len() && written_on(#[trigger] lines[j]) ==> log::event_read(
                            j + 1,
                            lines[j],
                        ) is Ok
                },
                Err(e) => exists|k: int|
                    {
                        &&& 0 <= k < lines.len()
                        &&& written_on(#[trigger] lines[k])
                        &&& log::event_read(k + 1, lines[k]) == Err::<Event, LogFailure>(e)
                        &&& forall|j: int|
                            0 <= j < k && written_on(#[trigger] lines[j]) ==> log::event_read(
                                j + 1,
                                lines[j],
                            ) is Ok
                    },
            }
        }),
    decreases lines.len(),
{
    let keep = |line: Seq<char>| written_on(line);
    let written = lines.filter(keep);
    if lines.len() == 0 {
        reveal(Seq::filter);
    } else {
        let front = lines.drop_last();
        let last = lines.last();
        let n = front.len() as int;
        lemma_events_read(front);
        lemma_written_on(last);
        text::lemma_filter_push(front, last, keep);
        assert(front.push(last) =~= lines);
        assert forall|j: int| 0 <= j < n implies #[trigger] lines[j] == front[j] by {}
        match log::events_read(front) {
            Err(e) => {
                let k = choose|k: int|
                    {
                        &&& 0 <= k < front.len()
                        &&& written_on(#[trigger] front[k])
                        &&& log::event_read(k + 1, front[k]) == Err::<Event, LogFailure>(e)
                        &&& forall|j: int|
                            0 <= j < k && written_on(#[trigger] front[j]) ==> log::event_read(
                                j + 1,
                                front[j],
                            ) is Ok
                    };
                assert(written_on(lines[k]));
                assert forall|j: int| 0 <= j < k && written_on(#[trigger] lines[j]) implies
                    log::event_read(j + 1, lines[j]) is Ok by {
                    assert(written_on(front[j]));
                }
            },
            Ok(events) => {
                assert forall|j: int| 0 <= j < n && written_on(#[trigger] lines[j]) implies
                    log::event_read(j + 1, lines[j]) is Ok by {
                    assert(written_on(front[j]));
                }
                assert(lines[n] == last);
                if written_on(last) {
                    match log::event_read(n + 1, last) {
                        Ok(event) => {
                            lines_stand_for_what_their_fields_say(n + 1, last, event);
                            lines_stand_for_what_their_fields_say(1, last, event);
                            let after = events.push(event);
                            let before = front.filter(keep);
                            assert(written == before.push(last));
                            assert forall|i: int| 0 <= i < after.len() implies log::event_read(
                                1,
                                written[i],
                            ) == Ok::<Event, LogFailure>(#[trigger] after[i]) by {
                                if i < events.len() {
                                    assert(after[i] == events[i]);
                                    assert(written[i] == before[i]);
                                }
                            }
                        },
                        Err(e) => {
                            assert(written_on(lines[n]));
                        },
                    }
                }
            },
        }
    }
}

/// Appending leaves the log as it was and puts the line of the event behind it, ended.
pub proof fn appending_adds_one_ended_line(log: Seq<char>, event: Event)
    ensures
        log.is_prefix_of(log::log_appended(log, event)),
        log::log_appended(log, event).skip(log.len() as int) == log::event_line(event).push('\n'),
        text::lacks(log::event_line(event), '\n'),
{
    recovery::lemma_event_line(event);
    assert(log::log_appended(log, event).skip(log.len() as int) =~= log::event_line(event).push(
        '\n',
    ));
}

/// Recovering from a log is replaying the events that are read from it: a log that cannot be read
/// gives what is wrong with it, and a replay that ends early gives the place of the event among
/// the events, counted from 1, and the reason.
pub proof fn recovery_replays_what_is_read(log: Seq<char>)
    ensures
        match log::log_read(log) {
            Err(e) => log::can_recover(log) && log::log_replayed(log) == Err::<
                (EngineState, Seq<Fill>),
                LogFailure,
            >(e),
            Ok(events) => log::can_recover(log) == book::can_replay(events)
                && match book::replayed(events) {
                Ok(done) => log::log_replayed(log) == Ok::<(EngineState, Seq<Fill>), LogFailure>(
                    done,
                ),
                Err((at, source)) => log::log_replayed(log) == Err::<
                    (EngineState, Seq<Fill>),
                    LogFailure,
                >(LogFailure::Engine { line: at + 1, source }),
            },
        },
{
}

/// An error of the log holds what its fields hold, and says it in words.
pub proof fn log_errors_hold_and_say_their_fields(e: LogError)
    ensures
        match e {
            LogError::Io(message) => {
                &&& e@ == LogFailure::Io(message@)
                &&& e@.message() == "log IO error: "@ + message@
            },
            LogError::MalformedLine { line, text, reason } => {
                &&& e@ == (LogFailure::MalformedLine {
                    line: line as int,
                    text: text@,
                    reason: reason@,
                })
                &&& e@.message() == "malformed log line "@ + decimal::decimal(line as int) + ": "@
                    + reason@
            },
            LogError::Engine { line, source } => {
                &&& e@ == (LogFailure::Engine { line: line as int, source })
                &&& e@.message() == "engine rejected event on log line "@ + decimal::decimal(
                    line as int,
                ) + ": "@ + match source {
                    EngineError::DuplicateOrder(id) => "duplicate order id "@ + decimal::decimal(
                        id as int,
                    ),
                    EngineError::NonPositiveQuantity(qty) => "quantity must be positive, got "@
                        + decimal::decimal(qty as int),
                }
            },
        },
{
}

} // verus!
