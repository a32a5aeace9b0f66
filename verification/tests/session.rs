//! Conversations with clients.
use slipstream::session::{
    accepts, answer, answer_at_once, confirmation, greeting, read_request, Action, Request,
};
use slipstream::{Command, Engine, Event, EventLog, Side};

/// Takes a line as a server does, with a log in memory.
fn say(engine: &mut Engine, log: &mut String, line: &str) -> String {
    let request = read_request(line);
    assert!(accepts(engine, &request));
    match answer(engine, &request) {
        Action::Nothing => String::new(),
        Action::Reply(reply) => reply,
        Action::Close(reply) => format!("{reply}, closed"),
        Action::Persist(accepted) => {
            EventLog::append(log, &accepted.event);
            confirmation(&accepted)
        }
    }
}

#[test]
fn a_conversation() {
    let mut engine = Engine::new();
    let mut log = String::new();
    assert_eq!(
        greeting(),
        "OK slipstream ready; send LIMIT, CANCEL, SNAPSHOT, or QUIT"
    );
    assert_eq!(say(&mut engine, &mut log, "LIMIT ASK 1 101 10\n"), "OK seq=1 fills=[]");
    assert_eq!(
        say(&mut engine, &mut log, "LIMIT BID 2 101 4\r\n"),
        "OK seq=2 fills=[{seq=2,maker=1,taker=2,price=101,qty=4}]"
    );
    assert_eq!(say(&mut engine, &mut log, "\n"), "");
    assert_eq!(say(&mut engine, &mut log, " snapshot \n"), "OK BIDS [] ASKS [101@6]");
    assert_eq!(
        say(&mut engine, &mut log, "limit ask 1 5 5\n"),
        "ERR duplicate order id 1"
    );
    assert_eq!(
        say(&mut engine, &mut log, "limit ask 5 5 0\n"),
        "ERR quantity must be positive, got 0"
    );
    assert_eq!(say(&mut engine, &mut log, "hello\n"), "ERR unknown command `HELLO`");
    assert_eq!(
        say(&mut engine, &mut log, "snapshot now\n"),
        "ERR `SNAPSHOT` expects SNAPSHOT"
    );
    assert_eq!(say(&mut engine, &mut log, "cancel 1\n"), "OK seq=5 fills=[]");
    assert_eq!(say(&mut engine, &mut log, "Quit\n"), "OK bye, closed");
    assert_eq!(log, "1|L|A|1|101|10\n2|L|B|2|101|4\n5|C|1\n");

    let (restarted, fills) = EventLog::recover(&log).unwrap();
    assert_eq!(restarted.snapshot(), engine.snapshot());
    assert_eq!(fills.len(), 1);
}

#[test]
fn requests_are_told_apart() {
    assert_eq!(read_request(" \t\r\n"), Request::Blank);
    assert_eq!(read_request(" quit"), Request::Quit);
    assert_eq!(read_request("sNaPsHoT\n"), Request::Snapshot);
    assert_eq!(read_request("CANCEL 3"), Request::Submit(Command::Cancel { id: 3 }));
    assert!(matches!(read_request("quit now"), Request::Invalid(_)));
}

#[test]
fn replies_are_single_lines() {
    let mut engine = Engine::new();
    let mut log = String::new();
    for line in ["a\u{2028}b\rc\n", "limit x\ny 1 2 3", "cancel \n", "snapshot\n1", "SNAPSHOT"] {
        assert!(!say(&mut engine, &mut log, line).contains('\n'));
    }
}

#[test]
fn an_engine_without_numbers_takes_no_commands() {
    let mut engine = Engine::new();
    let event = Event { seq: u64::MAX - 1, command: Command::Cancel { id: 1 } };
    engine.apply(event).unwrap();
    assert!(!accepts(&engine, &read_request("cancel 1")));
    assert!(accepts(&engine, &read_request("snapshot")));
    assert!(accepts(&engine, &read_request("nonsense")));
}

#[test]
fn a_level_that_cannot_be_added_up_is_not_shown() {
    let mut engine = Engine::new();
    for id in 1..=2 {
        engine
            .submit(Command::Limit { id, side: Side::Bid, price: 1, qty: i64::MAX })
            .unwrap();
    }
    assert!(!accepts(&engine, &Request::Snapshot));
    assert!(accepts(&engine, &Request::Quit));
}

#[test]
fn only_snapshots_and_commands_need_the_engine() {
    assert_eq!(answer_at_once(&Request::Blank), Some(Action::Nothing));
    assert_eq!(
        answer_at_once(&Request::Quit),
        Some(Action::Close("OK bye".to_owned()))
    );
    assert_eq!(
        answer_at_once(&read_request("hello")),
        Some(Action::Reply("ERR unknown command `HELLO`".to_owned()))
    );
    assert_eq!(answer_at_once(&Request::Snapshot), None);
    assert_eq!(answer_at_once(&read_request("cancel 1")), None);
}
