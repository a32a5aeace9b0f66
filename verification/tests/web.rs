//! Requests and responses of HTTP.
use slipstream::web::{
    accepts, answer, answer_at_once, finish_web_command, http_response, json_escape, next_length,
    read_header, read_route, respond,
    snapshot_json, submit_web_command, Header, Route, WebResponse, WebStep,
};
use slipstream::session::{self, Action};
use slipstream::{Accepted, Command, Engine, Event, EventLog, LogError, Side};

fn ordered(engine: &mut Engine, body: &str) -> Accepted {
    assert!(accepts(engine, Route::Order, body));
    match answer(engine, Route::Order, body) {
        WebStep::Persist(accepted) => accepted,
        other => panic!("{other:?}"),
    }
}

fn replied(engine: &mut Engine, route: Route, body: &str) -> WebResponse {
    assert!(accepts(engine, route, body));
    match answer(engine, route, body) {
        WebStep::Reply(response) => response,
        other => panic!("{other:?}"),
    }
}

#[test]
fn texts_are_escaped() {
    assert_eq!(json_escape("plain"), "plain");
    assert_eq!(json_escape("a\"b\\c\nd"), "a\\\"b\\\\c\\nd");
    for text in ["", "\\\"\n", "\\n\n", "tab\t", "né\"\"\\"] {
        let expected = text
            .replace('\\', "\\\\")
            .replace('"', "\\\"")
            .replace('\n', "\\n");
        assert_eq!(json_escape(text), expected);
    }
}

#[test]
fn books_are_written_in_json() {
    let mut engine = Engine::new();
    assert_eq!(snapshot_json(&engine.snapshot()), r#"{"bids":[],"asks":[]}"#);
    ordered(&mut engine, "LIMIT BID 1 100 5");
    ordered(&mut engine, "LIMIT BID 2 100 6");
    ordered(&mut engine, "LIMIT BID 3 99 1");
    ordered(&mut engine, "LIMIT ASK 4 101 2");
    let expected = concat_lines(&[
        r#"{"bids":[{"price":100,"qty":11,"orders":2},{"price":99,"qty":1,"orders":1}],"#,
        r#""asks":[{"price":101,"qty":2,"orders":1}]}"#,
    ]);
    assert_eq!(snapshot_json(&engine.snapshot()), expected);
    let response = replied(&mut engine, Route::Snapshot, "");
    assert_eq!(response, WebResponse { status: "200 OK", body: expected });
}

fn concat_lines(lines: &[&str]) -> String {
    lines.concat()
}

#[test]
fn accepted_orders_are_confirmed_once_logged() {
    let mut engine = Engine::new();
    ordered(&mut engine, "LIMIT ASK 1 101 10");
    let accepted = ordered(&mut engine, " LIMIT BID 2 101 4\r\n");
    let expected = concat_lines(&[
        r#"{"ok":true,"message":"accepted seq 2","#,
        r#""fills":"fills=[{seq=2,maker=1,taker=2,price=101,qty=4}]","#,
        r#""snapshot":{"bids":[],"asks":[{"price":101,"qty":6,"orders":1}]}}"#,
    ]);
    assert_eq!(
        finish_web_command(&engine, &accepted, Ok(())),
        WebResponse { status: "200 OK", body: expected }
    );
    assert_eq!(
        finish_web_command(&engine, &accepted, Err(LogError::Io("disk \"full\"".to_owned()))),
        WebResponse {
            status: "500 Internal Server Error",
            body: r#"{"ok":false,"message":"log IO error: disk \"full\""}"#.to_owned(),
        }
    );
}

#[test]
fn bad_orders_are_refused() {
    let mut engine = Engine::new();
    ordered(&mut engine, "LIMIT ASK 1 101 10");
    assert_eq!(
        replied(&mut engine, Route::Order, "LIMIT ASK 1 101 10"),
        WebResponse {
            status: "400 Bad Request",
            body: r#"{"ok":false,"message":"duplicate order id 1"}"#.to_owned(),
        }
    );
    assert_eq!(
        replied(&mut engine, Route::Order, r#"say"\"#),
        WebResponse {
            status: "400 Bad Request",
            body: r#"{"ok":false,"message":"unknown command `SAY\"\\`"}"#.to_owned(),
        }
    );
    match submit_web_command(&mut engine, "") {
        WebStep::Reply(response) => {
            assert_eq!(response.body, r#"{"ok":false,"message":"empty command"}"#)
        }
        other => panic!("{other:?}"),
    }
}

#[test]
fn the_first_line_says_what_a_request_is_for() {
    assert_eq!(read_route("GET / HTTP/1.1\r\n"), Route::Page);
    assert_eq!(read_route("GET /api/snapshot HTTP/1.1\r\n"), Route::Snapshot);
    assert_eq!(read_route("POST /api/order HTTP/1.1\r\n"), Route::Order);
    assert_eq!(read_route("POST / HTTP/1.1\r\n"), Route::NotFound);
    assert_eq!(read_route("GET /api/order HTTP/1.1\r\n"), Route::NotFound);
    assert_eq!(read_route("get / HTTP/1.1\r\n"), Route::NotFound);
    assert_eq!(read_route("GET\r\n"), Route::NotFound);
    assert_eq!(read_route("\r\n"), Route::NotFound);
}

#[test]
fn other_requests_leave_the_engine_alone() {
    let mut engine = Engine::new();
    assert_eq!(answer(&mut engine, Route::Page, "LIMIT ASK 1 1 1"), WebStep::Page);
    assert_eq!(
        replied(&mut engine, Route::NotFound, "LIMIT ASK 1 1 1"),
        WebResponse {
            status: "404 Not Found",
            body: r#"{"ok":false,"message":"not found"}"#.to_owned(),
        }
    );
    assert_eq!(engine.next_seq(), 1);
}

#[test]
fn headers_give_the_length() {
    assert_eq!(read_header("\r\n"), Header::End);
    assert_eq!(read_header(""), Header::End);
    assert_eq!(read_header("Content-Length: 12\r\n"), Header::ContentLength(12));
    assert_eq!(read_header("Content-Length:7"), Header::ContentLength(7));
    assert_eq!(read_header("Content-Length: many\r\n"), Header::ContentLength(0));
    assert_eq!(read_header("Content-Length:\r\n"), Header::ContentLength(0));
    assert_eq!(read_header("Content-Length: -1\r\n"), Header::ContentLength(0));
    assert_eq!(
        read_header("Content-Length: 18446744073709551616\r\n"),
        Header::ContentLength(0)
    );
    assert_eq!(read_header("content-length: 12\r\n"), Header::Other);
    assert_eq!(read_header(" Content-Length: 12\r\n"), Header::Other);
    assert_eq!(read_header("Content-Len"), Header::Other);
    assert_eq!(read_header("Host: localhost\r\n"), Header::Other);
}

#[test]
fn responses_count_bytes() {
    assert_eq!(
        http_response("200 OK", "text/plain", "héllo"),
        "HTTP/1.1 200 OK\r\nContent-Type: text/plain\r\nContent-Length: 6\r\nConnection: close\r\n\r\nhéllo"
    );
    assert_eq!(
        http_response("404 Not Found", "application/json", ""),
        "HTTP/1.1 404 Not Found\r\nContent-Type: application/json\r\nContent-Length: 0\r\nConnection: close\r\n\r\n"
    );
}

#[test]
fn what_cannot_be_answered_is_found() {
    let mut engine = Engine::new();
    for id in 1..=2 {
        engine
            .submit(Command::Limit { id, side: Side::Ask, price: 1, qty: i64::MAX })
            .unwrap();
    }
    assert!(!accepts(&engine, Route::Snapshot, ""));
    assert!(accepts(&engine, Route::Order, "cancel 1"));
    let event = Event { seq: u64::MAX - 1, command: Command::Cancel { id: 1 } };
    engine.apply(event).unwrap();
    assert!(accepts(&engine, Route::Snapshot, ""));
    assert!(!accepts(&engine, Route::Order, "cancel 1"));
    assert!(accepts(&engine, Route::Order, "nonsense"));
}

#[test]
fn orders_do_what_submitted_commands_do() {
    let mut by_web = Engine::new();
    let mut by_line = Engine::new();
    for line in ["LIMIT ASK 1 5 3", "LIMIT ASK 1 5 3", "LIMIT BID 2 6 9", "CANCEL 2", "CANCEL 2"] {
        let step = answer(&mut by_web, Route::Order, line);
        let action = session::answer(&mut by_line, &session::read_request(line));
        match (step, action) {
            (WebStep::Persist(a), Action::Persist(b)) => assert_eq!(a, b),
            (WebStep::Reply(response), Action::Reply(reply)) => {
                assert_eq!(response.status, "400 Bad Request");
                assert_eq!(reply, "ERR duplicate order id 1");
            }
            (step, action) => panic!("{line}: {step:?} {action:?}"),
        }
        assert_eq!(by_web.snapshot(), by_line.snapshot());
        assert_eq!(by_web.next_seq(), by_line.next_seq());
    }
}

#[test]
fn a_restart_brings_back_what_browsers_ordered() {
    let mut engine = Engine::new();
    let mut log = String::new();
    for body in ["LIMIT ASK 1 5 3", "nonsense", "LIMIT ASK 1 5 3", "LIMIT BID 2 6 9"] {
        if let WebStep::Persist(accepted) = answer(&mut engine, Route::Order, body) {
            EventLog::append(&mut log, &accepted.event);
        }
    }
    let (restarted, fills) = EventLog::recover(&log).unwrap();
    assert_eq!(restarted.snapshot(), engine.snapshot());
    assert_eq!(fills.len(), 1);
    assert_eq!(restarted.next_seq(), 4);
}

#[test]
fn the_last_length_counts() {
    let mut length = 0;
    let lines = ["Content-Length: 5\r\n", "Host: x\r\n", "Content-Length: 7\r\n", "X: y\r\n", "\r\n"];
    let mut seen = Vec::new();
    for line in lines {
        match next_length(length, read_header(line)) {
            Some(next) => length = next,
            None => break,
        }
        seen.push(length);
    }
    assert_eq!(seen, vec![5, 5, 7, 7]);
}

#[test]
fn only_snapshots_and_orders_need_the_engine() {
    assert_eq!(answer_at_once(Route::Page, "cancel 1"), Some(WebStep::Page));
    assert!(matches!(
        answer_at_once(Route::NotFound, ""),
        Some(WebStep::Reply(WebResponse { status: "404 Not Found", .. }))
    ));
    assert!(matches!(
        answer_at_once(Route::Order, "nonsense"),
        Some(WebStep::Reply(WebResponse { status: "400 Bad Request", .. }))
    ));
    assert_eq!(answer_at_once(Route::Order, " cancel 1 "), None);
    assert_eq!(answer_at_once(Route::Snapshot, ""), None);
}

#[test]
fn steps_become_responses() {
    assert_eq!(
        respond(&WebStep::Page, "<p>"),
        "HTTP/1.1 200 OK\r\nContent-Type: text/html; charset=utf-8\r\nContent-Length: 3\r\nConnection: close\r\n\r\n<p>"
    );
    let reply = WebStep::Reply(WebResponse { status: "404 Not Found", body: "{}".to_owned() });
    assert_eq!(
        respond(&reply, "<p>"),
        "HTTP/1.1 404 Not Found\r\nContent-Type: application/json\r\nContent-Length: 2\r\nConnection: close\r\n\r\n{}"
    );
}
