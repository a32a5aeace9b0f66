//! The text protocol.
use slipstream::protocol::ProtocolError;
use slipstream::{protocol, text};
use slipstream::{BookSnapshot, Command, Engine, Fill, OrderView, Side};

#[test]
fn protocol_parses_limit_and_cancel_commands() {
    assert_eq!(
        protocol::parse_command("LIMIT BID 10 101 7").unwrap(),
        Command::Limit {
            id: 10,
            side: Side::Bid,
            price: 101,
            qty: 7,
        }
    );
    assert_eq!(
        protocol::parse_command("cancel 10").unwrap(),
        Command::Cancel { id: 10 }
    );
}

#[test]
fn protocol_formats_snapshots_as_price_depth_levels() {
    let mut engine = Engine::new();
    engine
        .submit(Command::Limit {
            id: 1,
            side: Side::Bid,
            price: 100,
            qty: 5,
        })
        .unwrap();
    engine
        .submit(Command::Limit {
            id: 2,
            side: Side::Ask,
            price: 102,
            qty: 3,
        })
        .unwrap();

    assert_eq!(
        protocol::format_snapshot(&engine.snapshot()),
        "BIDS [100@5]\nASKS [102@3]"
    );
}

fn refused(line: &str) -> ProtocolError {
    protocol::parse_command(line).expect_err(line)
}

#[test]
fn white_space_is_what_unicode_says() {
    for c in '\0'..=char::MAX {
        assert_eq!(text::is_whitespace(c), c.is_whitespace(), "{c:?}");
    }
}

#[test]
fn words_are_parted_by_any_white_space() {
    assert_eq!(
        protocol::parse_command("\t LIMIT\u{3000}ask  +10\r-101 \n 7 \u{85}").unwrap(),
        Command::Limit { id: 10, side: Side::Ask, price: -101, qty: 7 }
    );
}

#[test]
fn small_letters_stand_for_capitals() {
    for line in ["LIMIT BID 1 2 3", "limit bid 1 2 3", "LiMiT b 1 2 3", "limit B 1 2 3"] {
        assert_eq!(
            protocol::parse_command(line).unwrap(),
            Command::Limit { id: 1, side: Side::Bid, price: 2, qty: 3 }
        );
    }
    for line in ["LIMIT ASK 1 2 3", "limit aSk 1 2 3", "LiMiT a 1 2 3", "limit A 1 2 3"] {
        assert_eq!(
            protocol::parse_command(line).unwrap(),
            Command::Limit { id: 1, side: Side::Ask, price: 2, qty: 3 }
        );
    }
    assert_eq!(refused("lımıt BID 1 2 3"), ProtocolError::UnknownCommand("LıMıT".to_owned()));
}

#[test]
fn written_commands_are_read_back() {
    for (id, price, qty) in [(0, 0, 0), (u64::MAX, i64::MIN, i64::MAX), (12, -5, 10)] {
        assert_eq!(
            protocol::parse_command(&format!("LIMIT ASK {id} {price} {qty}")).unwrap(),
            Command::Limit { id, side: Side::Ask, price, qty }
        );
        assert_eq!(
            protocol::parse_command(&format!("CANCEL {id}")).unwrap(),
            Command::Cancel { id }
        );
    }
}

#[test]
fn lines_that_are_no_commands_are_refused() {
    let limit = "LIMIT <BID|ASK> <id> <price> <qty>";
    assert_eq!(refused(""), ProtocolError::Empty);
    assert_eq!(refused(" \t\n"), ProtocolError::Empty);
    assert_eq!(refused("buy 1"), ProtocolError::UnknownCommand("BUY".to_owned()));
    assert_eq!(refused("snapshot"), ProtocolError::UnknownCommand("SNAPSHOT".to_owned()));
    assert_eq!(
        refused("snapshot now"),
        ProtocolError::InvalidArity { command: "SNAPSHOT".to_owned(), expected: "SNAPSHOT" }
    );
    assert_eq!(
        refused("limit bid 1 2"),
        ProtocolError::InvalidArity { command: "LIMIT".to_owned(), expected: limit }
    );
    assert_eq!(
        refused("limit bid 1 2 3 4"),
        ProtocolError::InvalidArity { command: "LIMIT".to_owned(), expected: limit }
    );
    assert_eq!(
        refused("cancel"),
        ProtocolError::InvalidArity { command: "CANCEL".to_owned(), expected: "CANCEL <id>" }
    );
    assert_eq!(
        refused("cancel 1 2"),
        ProtocolError::InvalidArity { command: "CANCEL".to_owned(), expected: "CANCEL <id>" }
    );
    assert_eq!(refused("limit buy x x x"), ProtocolError::InvalidSide("buy".to_owned()));
    assert_eq!(
        refused("limit bid -1 x x"),
        ProtocolError::InvalidNumber { field: "id", value: "-1".to_owned() }
    );
    assert_eq!(
        refused("limit bid 1 1.5 x"),
        ProtocolError::InvalidNumber { field: "price", value: "1.5".to_owned() }
    );
    assert_eq!(
        refused("limit bid 1 1 many"),
        ProtocolError::InvalidNumber { field: "qty", value: "many".to_owned() }
    );
    assert_eq!(
        refused("cancel one"),
        ProtocolError::InvalidNumber { field: "id", value: "one".to_owned() }
    );
}

#[test]
fn protocol_errors_say_what_is_wrong() {
    assert_eq!(refused("").to_string(), "empty command");
    assert_eq!(refused("buy 1").to_string(), "unknown command `BUY`");
    assert_eq!(refused("cancel").to_string(), "`CANCEL` expects CANCEL <id>");
    assert_eq!(
        refused("limit buy 1 1 1").to_string(),
        "side must be BID or ASK, got `buy`"
    );
    assert_eq!(
        refused("limit bid 1 1 many").to_string(),
        "qty must be a number, got `many`"
    );
}

#[test]
fn fills_are_listed() {
    assert_eq!(protocol::format_fills(&[]), "fills=[]");
    let fill = Fill { seq: 3, maker: 1, taker: 2, price: -101, qty: 10 };
    assert_eq!(
        protocol::format_fills(&[fill]),
        "fills=[{seq=3,maker=1,taker=2,price=-101,qty=10}]"
    );
    assert_eq!(
        protocol::format_fills(&[fill, Fill { maker: 5, qty: 7, ..fill }]),
        "fills=[{seq=3,maker=1,taker=2,price=-101,qty=10},{seq=3,maker=5,taker=2,price=-101,qty=7}]"
    );
}

#[test]
fn levels_show_the_sum_of_their_orders() {
    let mut engine = Engine::new();
    assert_eq!(protocol::format_snapshot(&engine.snapshot()), "BIDS []\nASKS []");
    for (id, price, qty) in [(1, 100, 5), (2, 100, 6), (3, -7, 1)] {
        engine.submit(Command::Limit { id, side: Side::Bid, price, qty }).unwrap();
    }
    assert_eq!(
        protocol::format_snapshot(&engine.snapshot()),
        "BIDS [100@11,-7@1]\nASKS []"
    );
}

fn snapshot(quantities: &[i64]) -> BookSnapshot {
    let orders: Vec<OrderView> =
        quantities.iter().map(|&qty| OrderView { id: 1, qty, seq: 1 }).collect();
    BookSnapshot { bids: Vec::new(), asks: vec![(1, orders)] }
}

#[test]
fn depths_that_do_not_fit_are_found() {
    assert!(protocol::depths_fit(&snapshot(&[])));
    assert!(protocol::depths_fit(&snapshot(&[i64::MAX])));
    assert!(!protocol::depths_fit(&snapshot(&[i64::MAX, 1])));
    assert!(!protocol::depths_fit(&snapshot(&[i64::MAX, 1, -1])));
    assert!(protocol::depths_fit(&snapshot(&[i64::MAX, -1, 1])));
}
