//! The event log: writing, reading and recovering.
use slipstream::log::{decode_event, encode_event};
use slipstream::{Command, Engine, EngineError, Event, EventLog, LogError, Side};

#[test]
fn event_log_recovers_exact_book_and_fills_after_restart() {
    // Catches persistence formats that cannot rebuild the precise pre-crash state.
    let mut log = String::new();
    let mut live = Engine::new();
    let mut live_fills = Vec::new();

    for command in [
        Command::Limit {
            id: 1,
            side: Side::Bid,
            price: 99,
            qty: 8,
        },
        Command::Limit {
            id: 2,
            side: Side::Ask,
            price: 101,
            qty: 6,
        },
        Command::Limit {
            id: 3,
            side: Side::Bid,
            price: 101,
            qty: 4,
        },
        Command::Cancel { id: 1 },
    ] {
        let accepted = live.submit(command).expect("command accepted");
        EventLog::append(&mut log, &accepted.event);
        live_fills.extend(accepted.fills);
    }

    let (recovered, recovered_fills) = EventLog::recover(&log).expect("log recovered");
    assert_eq!(
        live.snapshot(),
        recovered.snapshot(),
        "recovered book should match live book"
    );
    assert_eq!(
        live_fills, recovered_fills,
        "recovered fills should match live fills"
    );
}

#[test]
fn event_log_rejects_malformed_lines() {
    // Catches silent log corruption that would otherwise make recovery untrustworthy.
    let log = "1|L|B|42|100\n";

    let err = EventLog::read(log).expect_err("malformed line should fail");
    assert!(
        matches!(err, LogError::MalformedLine { line: 1, .. }),
        "unexpected error: {err:?}"
    );
}

fn limit(id: u64, side: Side, price: i64, qty: i64) -> Command {
    Command::Limit { id, side, price, qty }
}

fn reason(text: &str) -> &'static str {
    match decode_event(3, text) {
        Err(LogError::MalformedLine { line, text: shown, reason }) => {
            assert_eq!(line, 3);
            assert_eq!(shown, text);
            reason
        }
        other => panic!("{text}: {other:?}"),
    }
}

#[test]
fn events_have_one_line_each() {
    assert_eq!(
        encode_event(&Event { seq: 7, command: limit(42, Side::Bid, -100, 5) }),
        "7|L|B|42|-100|5"
    );
    assert_eq!(
        encode_event(&Event { seq: 10, command: limit(0, Side::Ask, 0, 90) }),
        "10|L|A|0|0|90"
    );
    assert_eq!(
        encode_event(&Event { seq: u64::MAX, command: Command::Cancel { id: u64::MAX } }),
        "18446744073709551615|C|18446744073709551615"
    );
}

#[test]
fn written_events_are_read_back() {
    for number in [0, 1, 9, 10, 99, 100, 1234567890, u64::MAX - 1, u64::MAX] {
        for signed in [i64::MIN, i64::MIN + 1, -10, -1, 0, 1, 10, i64::MAX] {
            for side in [Side::Bid, Side::Ask] {
                let event = Event { seq: number, command: limit(number, side, signed, signed) };
                let line = encode_event(&event);
                let letter = if side == Side::Bid { "B" } else { "A" };
                assert_eq!(line, format!("{number}|L|{letter}|{number}|{signed}|{signed}"));
                assert_eq!(decode_event(1, &line).unwrap(), event);
            }
        }
        let event = Event { seq: number, command: Command::Cancel { id: number } };
        assert_eq!(encode_event(&event), format!("{number}|C|{number}"));
        assert_eq!(decode_event(1, &encode_event(&event)).unwrap(), event);
    }
}

#[test]
fn fields_are_checked_from_the_left() {
    let shape = "expected limit line `seq|L|side|id|price|qty` or cancel line `seq|C|id`";
    assert_eq!(reason("x|L|Z|x|x|x"), "sequence");
    assert_eq!(reason("|C|1"), "sequence");
    assert_eq!(reason("-1|C|1"), "sequence");
    assert_eq!(reason("x"), "sequence");
    assert_eq!(reason("1"), shape);
    assert_eq!(reason("1|"), shape);
    assert_eq!(reason("1|L|Z|x|x"), shape);
    assert_eq!(reason("1|L|B|1|1|1|1"), shape);
    assert_eq!(reason("1|C|1|"), shape);
    assert_eq!(reason("1|l|B|1|1|1"), shape);
    assert_eq!(reason("1|C"), shape);
    assert_eq!(reason("1|L|Z|x|x|x"), "side must be `B` or `A`");
    assert_eq!(reason("1|L|b|1|1|1"), "side must be `B` or `A`");
    assert_eq!(reason("1|L||1|1|1"), "side must be `B` or `A`");
    assert_eq!(reason("1|L|B|-1|x|x"), "order id");
    assert_eq!(reason("1|L|A|1|x|x"), "price");
    assert_eq!(reason("1|L|A|1|9223372036854775808|x"), "price");
    assert_eq!(reason("1|L|A|1|1|"), "quantity");
    assert_eq!(reason("1|L|A|1|1| 1"), "quantity");
    assert_eq!(reason("1|C|18446744073709551616"), "order id");
}

#[test]
fn numbers_may_have_a_plus_sign_and_zeros() {
    assert_eq!(
        decode_event(1, "+01|L|B|+2|-003|+0").unwrap(),
        Event { seq: 1, command: limit(2, Side::Bid, -3, 0) }
    );
}

#[test]
fn numbers_are_read_as_the_standard_library_reads_them() {
    for text in [
        "", "+", "-", "0", "-0", "+0", "00", "+-1", "-+1", "--1", "++1", "1+", "1 ", " 1", "1_0",
        "0x1", "a", "١", "18446744073709551615", "18446744073709551616", "+18446744073709551615",
        "018446744073709551615", "99999999999999999999", "9223372036854775807",
        "9223372036854775808", "-9223372036854775808", "-9223372036854775809",
        "-18446744073709551616", "100000000000000000000000000000000000000000",
    ] {
        let cancel = format!("1|C|{text}");
        match (text.parse::<u64>(), decode_event(1, &cancel)) {
            (Ok(id), Ok(event)) => {
                assert_eq!(event, Event { seq: 1, command: Command::Cancel { id } })
            }
            (Err(_), Err(LogError::MalformedLine { reason, .. })) => assert_eq!(reason, "order id"),
            (expected, got) => panic!("{text}: {expected:?} {got:?}"),
        }
        let order = format!("1|L|A|1|{text}|1");
        match (text.parse::<i64>(), decode_event(1, &order)) {
            (Ok(price), Ok(event)) => {
                assert_eq!(event, Event { seq: 1, command: limit(1, Side::Ask, price, 1) })
            }
            (Err(_), Err(LogError::MalformedLine { reason, .. })) => assert_eq!(reason, "price"),
            (expected, got) => panic!("{text}: {expected:?} {got:?}"),
        }
    }
}

#[test]
fn appending_adds_a_line() {
    let mut log = "1|C|1\n".to_owned();
    EventLog::append(&mut log, &Event { seq: 2, command: limit(3, Side::Bid, 4, 5) });
    assert_eq!(log, "1|C|1\n2|L|B|3|4|5\n");
    assert_eq!(
        EventLog::read(&log).unwrap(),
        vec![
            Event { seq: 1, command: Command::Cancel { id: 1 } },
            Event { seq: 2, command: limit(3, Side::Bid, 4, 5) },
        ]
    );
}

#[test]
fn what_is_appended_to_a_cut_off_line_is_lost() {
    let mut log = "1|C|1".to_owned();
    EventLog::append(&mut log, &Event { seq: 2, command: Command::Cancel { id: 3 } });
    assert_eq!(log, "1|C|12|C|3\n");
    assert!(EventLog::read(&log).is_err());
}

#[test]
fn blank_lines_are_left_out_but_counted() {
    let log = "\n1|C|1\r\n \t\u{a0}\n\r\n2|C|2";
    assert_eq!(
        EventLog::read(log).unwrap(),
        vec![
            Event { seq: 1, command: Command::Cancel { id: 1 } },
            Event { seq: 2, command: Command::Cancel { id: 2 } },
        ]
    );
    match EventLog::read("\n\n1|C|1\n\n1|C|x\n1|Q\n") {
        Err(LogError::MalformedLine { line, text, reason }) => {
            assert_eq!((line, text.as_str(), reason), (5, "1|C|x", "order id"));
        }
        other => panic!("{other:?}"),
    }
    assert!(EventLog::read("").unwrap().is_empty());
    assert!(EventLog::read("\n\n").unwrap().is_empty());
}

#[test]
fn lines_end_as_the_standard_library_ends_them() {
    for log in ["1|C|1\r", "1|C|1\r\r\n", "1|C|1\r\n", "\r", "1|C|1\n\n", "1|C|1\n2|C|2"] {
        let lines: Vec<String> = std::io::BufRead::lines(log.as_bytes())
            .map(|line| line.unwrap())
            .collect();
        let mut expected = Vec::new();
        let mut bad = false;
        for (i, line) in lines.iter().enumerate() {
            if !line.trim().is_empty() {
                match decode_event(i + 1, line) {
                    Ok(event) => expected.push(event),
                    Err(_) => bad = true,
                }
            }
        }
        match EventLog::read(log) {
            Ok(events) => assert!(!bad && events == expected, "{log:?}"),
            Err(_) => assert!(bad, "{log:?}"),
        }
    }
}

#[test]
fn recovery_stops_at_the_first_refused_event() {
    match EventLog::recover("\n1|L|B|1|100|5\n\n2|L|B|1|100|5\n") {
        Err(LogError::Engine { line, source }) => {
            assert_eq!((line, source), (2, EngineError::DuplicateOrder(1)));
        }
        other => panic!("{other:?}"),
    }
    match EventLog::recover("1|L|B|1|100|0\n1|C|x\n") {
        Err(LogError::MalformedLine { line, .. }) => assert_eq!(line, 2),
        other => panic!("{other:?}"),
    }
}

#[test]
fn recovery_goes_on_numbering_after_the_last_event() {
    let mut live = Engine::new();
    let mut log = String::new();
    for command in [
        limit(1, Side::Ask, 101, 10),
        limit(1, Side::Ask, 101, 10),
        limit(2, Side::Bid, 101, 4),
        limit(3, Side::Bid, 101, -4),
    ] {
        if let Ok(accepted) = live.submit(command) {
            EventLog::append(&mut log, &accepted.event);
        }
    }
    assert_eq!(log, "1|L|A|1|101|10\n3|L|B|2|101|4\n");
    let (recovered, fills) = EventLog::recover(&log).unwrap();
    assert_eq!(recovered.snapshot(), live.snapshot());
    assert_eq!(fills.len(), 1);
    assert_eq!(live.next_seq(), 5);
    assert_eq!(recovered.next_seq(), 4);
}

#[test]
fn log_errors_say_what_is_wrong() {
    assert_eq!(
        LogError::Io("no such file".to_owned()).to_string(),
        "log IO error: no such file"
    );
    assert_eq!(
        decode_event(12, "1|L|Z|1|1|1").unwrap_err().to_string(),
        "malformed log line 12: side must be `B` or `A`"
    );
    assert_eq!(
        LogError::Engine { line: 3, source: EngineError::DuplicateOrder(4) }.to_string(),
        "engine rejected event on log line 3: duplicate order id 4"
    );
}

#[test]
fn numbers_behind_a_refused_event_do_not_matter() {
    let log = "1|L|B|1|100|0\n18446744073709551615|C|1\n";
    assert!(EventLog::accepts(log));
    match EventLog::recover(log) {
        Err(LogError::Engine { line, source }) => {
            assert_eq!((line, source), (1, EngineError::NonPositiveQuantity(0)));
        }
        other => panic!("{other:?}"),
    }
    let events = EventLog::read(log).unwrap();
    assert!(Engine::accepts(&events));
    assert_eq!(
        Engine::replay(&events).map(|_| ()),
        Err(EngineError::NonPositiveQuantity(0))
    );
}

#[test]
fn logs_without_a_next_number_are_found() {
    assert!(EventLog::accepts(""));
    assert!(EventLog::accepts("18446744073709551614|C|1\n"));
    assert!(EventLog::accepts("18446744073709551615|C|1\nnonsense\n"));
    assert!(!EventLog::accepts("18446744073709551615|C|1\n"));
    assert!(!EventLog::accepts("1|C|1\n18446744073709551615|C|1\n2|L|B|1|1|0\n"));
}
