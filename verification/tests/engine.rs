//! The engine: matching, cancelling and replaying.
use slipstream::{
    BookSnapshot, Command, Engine, EngineError, Event, Fill, OrderView, Side,
};

fn limit(id: u64, side: Side, price: i64, qty: i64) -> Command {
    Command::Limit { id, side, price, qty }
}

fn order(id: u64, qty: i64, seq: u64) -> OrderView {
    OrderView { id, qty, seq }
}

#[test]
fn replay_rebuilds_identical_book_and_fills() {
    // Catches nondeterminism in matching order, sequence assignment, or book rebuild.
    let commands = vec![
        Command::Limit {
            id: 1,
            side: Side::Ask,
            price: 101,
            qty: 10,
        },
        Command::Limit {
            id: 2,
            side: Side::Ask,
            price: 101,
            qty: 5,
        },
        Command::Limit {
            id: 3,
            side: Side::Bid,
            price: 102,
            qty: 12,
        },
        Command::Limit {
            id: 4,
            side: Side::Bid,
            price: 100,
            qty: 7,
        },
    ];

    let mut live = Engine::new();
    let mut events = Vec::new();
    let mut live_fills = Vec::new();

    for command in commands {
        let accepted = live.submit(command).expect("command should be accepted");
        events.push(accepted.event);
        live_fills.extend(accepted.fills);
    }

    let (replayed, replayed_fills) = Engine::replay(&events).expect("replay should succeed");
    assert_eq!(
        live.snapshot(),
        replayed.snapshot(),
        "replayed book differs"
    );
    assert_eq!(live_fills, replayed_fills, "replayed fills differ");
}

#[test]
fn price_time_priority_fills_fifo_at_same_price() {
    // Catches engines that prioritize by size, id, or timestamp instead of arrival sequence.
    let mut engine = Engine::new();
    engine
        .submit(Command::Limit {
            id: 10,
            side: Side::Ask,
            price: 100,
            qty: 5,
        })
        .unwrap();
    engine
        .submit(Command::Limit {
            id: 11,
            side: Side::Ask,
            price: 100,
            qty: 5,
        })
        .unwrap();

    let accepted = engine
        .submit(Command::Limit {
            id: 12,
            side: Side::Bid,
            price: 100,
            qty: 6,
        })
        .unwrap();

    assert_eq!(
        accepted.fills,
        vec![
            Fill {
                seq: 3,
                maker: 10,
                taker: 12,
                price: 100,
                qty: 5,
            },
            Fill {
                seq: 3,
                maker: 11,
                taker: 12,
                price: 100,
                qty: 1,
            },
        ],
        "same-price orders must fill FIFO"
    );
}

#[test]
fn partial_fill_sweeps_best_prices_and_rests_remainder() {
    // Catches wrong price ordering and incorrect remaining quantity after a sweep.
    let mut engine = Engine::new();
    engine
        .submit(Command::Limit {
            id: 1,
            side: Side::Ask,
            price: 100,
            qty: 3,
        })
        .unwrap();
    engine
        .submit(Command::Limit {
            id: 2,
            side: Side::Ask,
            price: 101,
            qty: 4,
        })
        .unwrap();

    let accepted = engine
        .submit(Command::Limit {
            id: 3,
            side: Side::Bid,
            price: 102,
            qty: 10,
        })
        .unwrap();

    assert_eq!(
        accepted.fills,
        vec![
            Fill {
                seq: 3,
                maker: 1,
                taker: 3,
                price: 100,
                qty: 3,
            },
            Fill {
                seq: 3,
                maker: 2,
                taker: 3,
                price: 101,
                qty: 4,
            },
        ],
        "aggressor should sweep asks from best to worse"
    );
    assert_eq!(
        engine.snapshot().bids,
        vec![(
            102,
            vec![OrderView {
                id: 3,
                qty: 3,
                seq: 3,
            }],
        )],
        "unfilled remainder should rest at its limit price"
    );
}

#[test]
fn cancel_removes_only_the_target_order() {
    // Catches cancel logic that disturbs FIFO neighbors at the same level.
    let mut engine = Engine::new();
    for id in 1..=3 {
        engine
            .submit(Command::Limit {
                id,
                side: Side::Bid,
                price: 100,
                qty: 10,
            })
            .unwrap();
    }

    engine.submit(Command::Cancel { id: 2 }).unwrap();

    assert_eq!(
        engine.snapshot().bids,
        vec![(
            100,
            vec![
                OrderView {
                    id: 1,
                    qty: 10,
                    seq: 1,
                },
                OrderView {
                    id: 3,
                    qty: 10,
                    seq: 3,
                },
            ],
        )],
        "cancel should remove only the requested order"
    );
}

#[test]
fn marketable_limit_never_leaves_crossed_book() {
    // Catches implementations that rest a crossing limit instead of matching it first.
    let mut engine = Engine::new();
    engine
        .submit(Command::Limit {
            id: 1,
            side: Side::Ask,
            price: 100,
            qty: 5,
        })
        .unwrap();
    engine
        .submit(Command::Limit {
            id: 2,
            side: Side::Bid,
            price: 101,
            qty: 5,
        })
        .unwrap();

    let snapshot = engine.snapshot();
    assert!(snapshot.bids.is_empty(), "crossing bid should not rest");
    assert!(snapshot.asks.is_empty(), "matched ask should be gone");
}

/// A small generator of numbers, the same in every run.
struct Numbers {
    state: u64,
}

impl Numbers {
    fn below(&mut self, bound: u64) -> u64 {
        self.state = self
            .state
            .wrapping_mul(6364136223846793005)
            .wrapping_add(1442695040888963407);
        (self.state >> 33) % bound
    }

    fn commands(&mut self) -> Vec<Command> {
        let mut commands = Vec::new();
        for _ in 0..self.below(80) {
            let id = 1 + self.below(39);
            let side = if self.below(2) == 0 { Side::Bid } else { Side::Ask };
            let price = 95 + self.below(11) as i64;
            let qty = 1 + self.below(19) as i64;
            if self.below(2) == 0 {
                commands.push(Command::Cancel { id });
            } else {
                commands.push(limit(id, side, price, qty));
            }
        }
        commands
    }
}

fn is_crossed(snapshot: &BookSnapshot) -> bool {
    match (snapshot.bids.first(), snapshot.asks.first()) {
        (Some((bid, _)), Some((ask, _))) => bid >= ask,
        _ => false,
    }
}

#[test]
fn replay_is_identical_for_random_valid_sequences() {
    let mut numbers = Numbers { state: 1 };
    for _ in 0..256 {
        let mut live = Engine::new();
        let mut events = Vec::new();
        let mut live_fills = Vec::new();

        for command in numbers.commands() {
            if let Ok(accepted) = live.submit(command) {
                events.push(accepted.event);
                live_fills.extend(accepted.fills);
            }
        }

        let (replayed, replayed_fills) =
            Engine::replay(&events).expect("accepted events should replay");
        assert_eq!(live.snapshot(), replayed.snapshot());
        assert_eq!(live_fills, replayed_fills);
        assert!(!is_crossed(&live.snapshot()));
    }
}

#[test]
fn every_order_is_traded_waiting_or_cancelled() {
    let mut numbers = Numbers { state: 2 };
    for _ in 0..64 {
        let mut engine = Engine::new();
        let mut placed: i64 = 0;
        let mut gone: i64 = 0;
        for command in numbers.commands() {
            let before = waiting(&engine.snapshot());
            match engine.submit(command) {
                Ok(accepted) => {
                    let traded: i64 = accepted.fills.iter().map(|fill| fill.qty).sum();
                    gone += 2 * traded;
                    match command {
                        Command::Limit { qty, .. } => placed += qty,
                        Command::Cancel { .. } => gone += before - waiting(&engine.snapshot()),
                    }
                }
                Err(_) => assert_eq!(before, waiting(&engine.snapshot())),
            }
            assert_eq!(placed - gone, waiting(&engine.snapshot()));
        }
    }
}

fn waiting(snapshot: &BookSnapshot) -> i64 {
    snapshot
        .bids
        .iter()
        .chain(snapshot.asks.iter())
        .flat_map(|(_, orders)| orders.iter())
        .map(|order| order.qty)
        .sum()
}

#[test]
fn an_ask_sweeps_bids_from_the_highest_down() {
    let mut engine = Engine::new();
    engine.submit(limit(1, Side::Bid, 99, 3)).unwrap();
    engine.submit(limit(2, Side::Bid, 100, 4)).unwrap();
    engine.submit(limit(3, Side::Bid, 98, 5)).unwrap();
    let accepted = engine.submit(limit(4, Side::Ask, 99, 10)).unwrap();
    assert_eq!(
        accepted.fills,
        vec![
            Fill { seq: 4, maker: 2, taker: 4, price: 100, qty: 4 },
            Fill { seq: 4, maker: 1, taker: 4, price: 99, qty: 3 },
        ]
    );
    let snapshot = engine.snapshot();
    assert_eq!(snapshot.bids, vec![(98, vec![order(3, 5, 3)])]);
    assert_eq!(snapshot.asks, vec![(99, vec![order(4, 3, 4)])]);
}

#[test]
fn snapshots_go_from_the_best_price_to_the_worst() {
    let mut engine = Engine::new();
    for (id, price) in [(1, 97), (2, 99), (3, 98), (4, 99)] {
        engine.submit(limit(id, Side::Bid, price, 1)).unwrap();
    }
    for (id, price) in [(5, 103), (6, 101), (7, 102)] {
        engine.submit(limit(id, Side::Ask, price, 1)).unwrap();
    }
    let snapshot = engine.snapshot();
    assert_eq!(
        snapshot.bids,
        vec![
            (99, vec![order(2, 1, 2), order(4, 1, 4)]),
            (98, vec![order(3, 1, 3)]),
            (97, vec![order(1, 1, 1)]),
        ]
    );
    assert_eq!(
        snapshot.asks,
        vec![
            (101, vec![order(6, 1, 6)]),
            (102, vec![order(7, 1, 7)]),
            (103, vec![order(5, 1, 5)]),
        ]
    );
}

#[test]
fn a_partly_filled_order_keeps_its_place() {
    let mut engine = Engine::new();
    engine.submit(limit(1, Side::Ask, 100, 5)).unwrap();
    engine.submit(limit(2, Side::Ask, 100, 5)).unwrap();
    engine.submit(limit(3, Side::Bid, 100, 2)).unwrap();
    assert_eq!(
        engine.snapshot().asks,
        vec![(100, vec![order(1, 3, 1), order(2, 5, 2)])]
    );
}

#[test]
fn refused_commands_use_up_a_number_and_nothing_else() {
    let mut engine = Engine::new();
    engine.submit(limit(1, Side::Bid, 100, 5)).unwrap();
    let before = engine.snapshot();
    assert_eq!(
        engine.submit(limit(1, Side::Ask, 100, 5)),
        Err(EngineError::DuplicateOrder(1))
    );
    assert_eq!(
        engine.submit(limit(2, Side::Ask, 100, 0)),
        Err(EngineError::NonPositiveQuantity(0))
    );
    assert_eq!(
        engine.submit(limit(1, Side::Ask, 100, -7)),
        Err(EngineError::NonPositiveQuantity(-7))
    );
    assert_eq!(engine.snapshot(), before);
    assert_eq!(engine.next_seq(), 5);
}

#[test]
fn errors_say_what_is_wrong() {
    assert_eq!(
        EngineError::DuplicateOrder(18446744073709551615).to_string(),
        "duplicate order id 18446744073709551615"
    );
    assert_eq!(
        EngineError::NonPositiveQuantity(-9223372036854775808).to_string(),
        "quantity must be positive, got -9223372036854775808"
    );
}

#[test]
fn an_id_can_be_used_again_once_its_order_is_gone() {
    let mut engine = Engine::new();
    engine.submit(limit(1, Side::Ask, 100, 5)).unwrap();
    engine.submit(limit(2, Side::Bid, 100, 5)).unwrap();
    engine.submit(limit(1, Side::Ask, 101, 5)).unwrap();
    engine.submit(Command::Cancel { id: 1 }).unwrap();
    engine.submit(limit(1, Side::Ask, 102, 5)).unwrap();
    assert_eq!(engine.snapshot().asks, vec![(102, vec![order(1, 5, 5)])]);
}

#[test]
fn cancelling_an_unknown_order_is_accepted_and_does_nothing() {
    let mut engine = Engine::new();
    engine.submit(limit(1, Side::Bid, 100, 5)).unwrap();
    let before = engine.snapshot();
    let accepted = engine.submit(Command::Cancel { id: 9 }).unwrap();
    assert_eq!(accepted.event, Event { seq: 2, command: Command::Cancel { id: 9 } });
    assert!(accepted.fills.is_empty());
    assert_eq!(engine.snapshot(), before);
}

#[test]
fn cancelling_an_order_that_has_not_traded_undoes_it() {
    let mut engine = Engine::new();
    engine.submit(limit(1, Side::Bid, 100, 5)).unwrap();
    engine.submit(limit(2, Side::Ask, 105, 5)).unwrap();
    let before = engine.snapshot();
    engine.submit(limit(3, Side::Ask, 101, 5)).unwrap();
    engine.submit(Command::Cancel { id: 3 }).unwrap();
    assert_eq!(engine.snapshot(), before);
}

#[test]
fn numbering_goes_on_after_the_highest_event() {
    let mut engine = Engine::new();
    engine.apply(Event { seq: 10, command: limit(1, Side::Bid, 100, 5) }).unwrap();
    engine.apply(Event { seq: 4, command: limit(2, Side::Bid, 100, 5) }).unwrap();
    let accepted = engine.submit(limit(3, Side::Bid, 100, 5)).unwrap();
    assert_eq!(accepted.event.seq, 11);
    assert_eq!(
        engine.snapshot().bids,
        vec![(100, vec![order(1, 5, 10), order(2, 5, 4), order(3, 5, 11)])]
    );
}

#[test]
fn new_engines_number_from_one_and_default_ones_from_zero() {
    assert_eq!(Engine::new().next_seq(), 1);
    assert_eq!(Engine::default().next_seq(), 0);
    assert_eq!(Engine::default().snapshot(), Engine::new().snapshot());
}

#[test]
fn replay_stops_at_the_first_refused_event() {
    let events = [
        Event { seq: 1, command: limit(1, Side::Bid, 100, 5) },
        Event { seq: 2, command: limit(1, Side::Bid, 100, 5) },
        Event { seq: 3, command: limit(2, Side::Bid, 100, 0) },
    ];
    assert_eq!(
        Engine::replay(&events).map(|_| ()),
        Err(EngineError::DuplicateOrder(1))
    );
}

#[test]
fn a_clone_goes_its_own_way() {
    let mut engine = Engine::new();
    engine.submit(limit(1, Side::Bid, 100, 5)).unwrap();
    let kept = engine.clone();
    engine.submit(Command::Cancel { id: 1 }).unwrap();
    assert!(engine.snapshot().bids.is_empty());
    assert_eq!(kept.snapshot().bids, vec![(100, vec![order(1, 5, 1)])]);
    assert_eq!(kept.next_seq(), 2);
}

#[test]
fn prices_may_be_negative_and_extreme() {
    let mut engine = Engine::new();
    engine.submit(limit(1, Side::Bid, i64::MIN, i64::MAX)).unwrap();
    engine.submit(limit(2, Side::Ask, i64::MAX, i64::MAX)).unwrap();
    let accepted = engine.submit(limit(3, Side::Ask, i64::MIN, 1)).unwrap();
    assert_eq!(
        accepted.fills,
        vec![Fill { seq: 3, maker: 1, taker: 3, price: i64::MIN, qty: 1 }]
    );
}

#[test]
fn orders_of_one_price_stand_in_the_order_of_their_events() {
    let mut numbers = Numbers { state: 3 };
    for _ in 0..64 {
        let mut engine = Engine::new();
        for command in numbers.commands() {
            let _ = engine.submit(command);
        }
        let snapshot = engine.snapshot();
        for (_, orders) in snapshot.bids.iter().chain(snapshot.asks.iter()) {
            assert!(!orders.is_empty());
            assert!(orders.windows(2).all(|pair| pair[0].seq < pair[1].seq));
            assert!(orders.iter().all(|order| order.seq < engine.next_seq() && order.qty > 0));
        }
    }
}

#[test]
fn different_books_have_different_snapshots() {
    let mut a = Engine::new();
    let mut b = Engine::new();
    a.submit(limit(1, Side::Bid, 100, 5)).unwrap();
    b.submit(limit(1, Side::Bid, 100, 6)).unwrap();
    assert_ne!(a.snapshot(), b.snapshot());
    b.submit(limit(2, Side::Ask, 100, 1)).unwrap();
    assert_eq!(a.snapshot(), b.snapshot());
}

#[test]
fn cancelling_again_does_nothing_more() {
    let mut engine = Engine::new();
    engine.submit(limit(1, Side::Bid, 100, 5)).unwrap();
    let before = engine.snapshot();
    engine.submit(limit(2, Side::Bid, 99, 5)).unwrap();
    for _ in 0..3 {
        engine.submit(Command::Cancel { id: 2 }).unwrap();
        assert_eq!(engine.snapshot(), before);
    }
    engine.submit(limit(2, Side::Bid, 99, 5)).unwrap();
    assert_eq!(engine.snapshot().bids.len(), 2);
}

#[test]
fn cancelling_undoes_a_rest() {
    for (id, side, price) in [(7, Side::Bid, 100), (8, Side::Bid, 99), (9, Side::Ask, 90)] {
        for times in 1..=3 {
            let mut engine = Engine::new();
            engine.submit(limit(1, Side::Bid, 100, 5)).unwrap();
            engine.submit(limit(2, Side::Ask, 101, 5)).unwrap();
            let before = engine.snapshot();
            engine.rest(9, id, side, price, 4);
            assert_ne!(engine.snapshot(), before);
            for _ in 0..times {
                engine.cancel(id);
            }
            assert_eq!(engine.snapshot(), before);
            assert!(engine.submit(limit(id, side, price, 4)).is_ok());
        }
    }
}

#[test]
fn a_resting_order_is_last_at_its_price() {
    let mut engine = Engine::new();
    engine.submit(limit(1, Side::Bid, 100, 5)).unwrap();
    engine.rest(6, 2, Side::Bid, 100, 4);
    assert_eq!(
        engine.snapshot().bids,
        vec![(100, vec![order(1, 5, 1), order(2, 4, 6)])]
    );
    assert_eq!(engine.next_seq(), 2);
}
