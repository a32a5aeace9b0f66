//! What holds of the lines that clients send and get, said of their words and pieces.
use vstd::prelude::*;

use crate::book::EngineState;
use crate::decimal;
use crate::notation;
use crate::protocol;
use crate::protocol::{ProtocolError, ProtocolFailure};
use crate::records;
use crate::session;
use crate::session::{Action, ActionContents, Request, RequestContents};
use crate::text;
use crate::types::{Command, EngineError, Event, Fill, OrderView, Price, Quantity, Sequence};
use crate::types::{Side, SnapshotContents};

verus! {

/// Whether a word names a side, in capitals or small letters: in full or by its first letter.
pub open spec fn names_side(word: Seq<char>, side: Side) -> bool {
    match side {
        Side::Bid => text::capitals(word) == seq!['B', 'I', 'D'] || text::capitals(word) == seq![
            'B',
        ],
        Side::Ask => text::capitals(word) == seq!['A', 'S', 'K'] || text::capitals(word) == seq![
            'A',
        ],
    }
}

/// Whether a word is the name of limit orders, in capitals or small letters.
pub open spec fn names_limit(word: Seq<char>) -> bool {
    text::capitals(word) == seq!['L', 'I', 'M', 'I', 'T']
}

/// Whether a word is the name of cancellations, in capitals or small letters.
pub open spec fn names_cancel(word: Seq<char>) -> bool {
    text::capitals(word) == seq!['C', 'A', 'N', 'C', 'E', 'L']
}

/// The names as they are compared.
proof fn lemma_names()
    ensures
        "LIMIT"@ == seq!['L', 'I', 'M', 'I', 'T'],
        "CANCEL"@ == seq!['C', 'A', 'N', 'C', 'E', 'L'],
        "SNAPSHOT"@ == seq!['S', 'N', 'A', 'P', 'S', 'H', 'O', 'T'],
        "QUIT"@ == seq!['Q', 'U', 'I', 'T'],
        "BID"@ == seq!['B', 'I', 'D'],
        "ASK"@ == seq!['A', 'S', 'K'],
        "B"@ == seq!['B'],
        "A"@ == seq!['A'],
{
    reveal_strlit("LIMIT");
    reveal_strlit("CANCEL");
    reveal_strlit("SNAPSHOT");
    reveal_strlit("QUIT");
    reveal_strlit("BID");
    reveal_strlit("ASK");
    reveal_strlit("B");
    reveal_strlit("A");
    assert("LIMIT"@ =~= seq!['L', 'I', 'M', 'I', 'T']);
    assert("CANCEL"@ =~= seq!['C', 'A', 'N', 'C', 'E', 'L']);
    assert("SNAPSHOT"@ =~= seq!['S', 'N', 'A', 'P', 'S', 'H', 'O', 'T']);
    assert("QUIT"@ =~= seq!['Q', 'U', 'I', 'T']);
    assert("BID"@ =~= seq!['B', 'I', 'D']);
    assert("ASK"@ =~= seq!['A', 'S', 'K']);
    assert("B"@ =~= seq!['B']);
    assert("A"@ =~= seq!['A']);
}

/// No word names both sides.
proof fn lemma_one_side(word: Seq<char>)
    ensures
        !(names_side(word, Side::Bid) && names_side(word, Side::Ask)),
        !(names_limit(word) && names_cancel(word)),
{
    assert(seq!['B', 'I', 'D'][0] != seq!['A', 'S', 'K'][0]);
    assert(seq!['B'][0] != seq!['A'][0]);
    assert(seq!['B', 'I', 'D'].len() != seq!['A'].len());
    assert(seq!['A', 'S', 'K'].len() != seq!['B'].len());
    assert(seq!['L', 'I', 'M', 'I', 'T'].len() != seq!['C', 'A', 'N', 'C', 'E', 'L'].len());
}

/// A line is a command if and only if its words are those of the command: `LIMIT`, a side, an
/// identifier, a price and units, or `CANCEL` and an identifier, and no word more.
pub proof fn commands_are_what_their_words_say(line: Seq<char>, command: Command)
    ensures
        ({
            let words = text::words(line);
            protocol::command_read(line) == Ok::<Command, ProtocolFailure>(command) <==> match command {
                Command::Limit { id, side, price, qty } => {
                    &&& words.len() == 5
                    &&& names_limit(words[0])
                    &&& names_side(words[1], side)
                    &&& decimal::u64_read(words[2]) == Some(id)
                    &&& decimal::i64_read(words[3]) == Some(price)
                    &&& decimal::i64_read(words[4]) == Some(qty)
                },
                Command::Cancel { id } => {
                    &&& words.len() == 2
                    &&& names_cancel(words[0])
                    &&& decimal::u64_read(words[1]) == Some(id)
                },
            }
        }),
{
    lemma_names();
    let words = text::words(line);
    if words.len() > 0 {
        lemma_one_side(words[0]);
    }
    if words.len() > 1 {
        lemma_one_side(words[1]);
    }
}

/// What is wrong with a line that is no command: that it is empty, that its name is unknown, that
/// it has too few or too many words, or the first word from the left that cannot be read, as it
/// was written.
pub proof fn wrong_commands_are_told_from_the_left(line: Seq<char>)
    ensures
        ({
            let words = text::words(line);
            let name = text::capitals(words[0]);
            let result = protocol::command_read(line);
            let number = |field: Seq<char>, value: Seq<char>|
                Err::<Command, ProtocolFailure>(ProtocolFailure::InvalidNumber { field, value });
            let arity = |expected: Seq<char>|
                Err::<Command, ProtocolFailure>(
                    ProtocolFailure::InvalidArity { command: name, expected },
                );
            if words.len() == 0 {
                result == Err::<Command, ProtocolFailure>(ProtocolFailure::Empty)
            } else if names_limit(words[0]) {
                if words.len() != 5 {
                    result == arity("LIMIT <BID|ASK> <id> <price> <qty>"@)
                } else if !names_side(words[1], Side::Bid) && !names_side(words[1], Side::Ask) {
                    result == Err::<Command, ProtocolFailure>(
                        ProtocolFailure::InvalidSide(words[1]),
                    )
                } else if decimal::u64_read(words[2]) is None {
                    result == number("id"@, words[2])
                } else if decimal::i64_read(words[3]) is None {
                    result == number("price"@, words[3])
                } else if decimal::i64_read(words[4]) is None {
                    result == number("qty"@, words[4])
                } else {
                    result is Ok
                }
            } else if names_cancel(words[0]) {
                if words.len() != 2 {
                    result == arity("CANCEL <id>"@)
                } else if decimal::u64_read(words[1]) is None {
                    result == number("id"@, words[1])
                } else {
                    result is Ok
                }
            } else if name == seq!['S', 'N', 'A', 'P', 'S', 'H', 'O', 'T'] && words.len() > 1 {
                result == arity("SNAPSHOT"@)
            } else {
                result == Err::<Command, ProtocolFailure>(ProtocolFailure::UnknownCommand(name))
            }
        }),
{
    lemma_names();
    let words = text::words(line);
    if words.len() > 0 {
        lemma_one_side(words[0]);
    }
}

/// An error of the protocol holds what its fields hold, and says it in words.
pub proof fn protocol_errors_hold_and_say_their_fields(e: ProtocolError)
    ensures
        match e {
            ProtocolError::Empty => e@ == ProtocolFailure::Empty && e@.message()
                == "empty command"@,
            ProtocolError::UnknownCommand(command) => {
                &&& e@ == ProtocolFailure::UnknownCommand(command@)
                &&& e@.message() == "unknown command `"@ + command@ + seq!['`']
            },
            ProtocolError::InvalidArity { command, expected } => {
                &&& e@ == (ProtocolFailure::InvalidArity {
                    command: command@,
                    expected: expected@,
                })
                &&& e@.message() == seq!['`'] + command@ + "` expects "@ + expected@
            },
            ProtocolError::InvalidSide(side) => {
                &&& e@ == ProtocolFailure::InvalidSide(side@)
                &&& e@.message() == "side must be BID or ASK, got `"@ + side@ + seq!['`']
            },
            ProtocolError::InvalidNumber { field, value } => {
                &&& e@ == (ProtocolFailure::InvalidNumber { field: field@, value: value@ })
                &&& e@.message() == field@ + " must be a number, got `"@ + value@ + seq!['`']
            },
        },
{
}

/// White space before and behind a text does not matter to its words.
proof fn lemma_words_around(a: Seq<char>, s: Seq<char>, b: Seq<char>)
    requires
        forall|i: int| 0 <= i < a.len() ==> text::is_space(#[trigger] a[i]),
        forall|i: int| 0 <= i < b.len() ==> text::is_space(#[trigger] b[i]),
    ensures
        text::words(a + s + b) == text::words(s),
    decreases a.len() + b.len(),
{
    if a.len() > 0 {
        let rest = a.drop_first() + s + b;
        text::lemma_words_before(Seq::empty(), a[0], rest);
        assert(a + s + b =~= Seq::<char>::empty() + seq![a[0]] + rest);
        assert forall|i: int| 0 <= i < a.drop_first().len() implies text::is_space(
            #[trigger] a.drop_first()[i],
        ) by {
            assert(a.drop_first()[i] == a[i + 1]);
        }
        lemma_words_around(a.drop_first(), s, b);
    } else if b.len() > 0 {
        let front = a + s + b.drop_last();
        assert(text::is_space(b[b.len() - 1]));
        text::lemma_words_after(front, b.last());
        assert(a + s + b =~= front.push(b.last()));
        assert forall|i: int| 0 <= i < b.drop_last().len() implies text::is_space(
            #[trigger] b.drop_last()[i],
        ) by {
            assert(b.drop_last()[i] == b[i]);
        }
        lemma_words_around(a, s, b.drop_last());
    } else {
        assert(a + s + b =~= s);
    }
}

/// A text and what trimming leaves of it have the same words.
pub proof fn lemma_words_trimmed(s: Seq<char>)
    ensures
        text::words(text::trimmed(s)) == text::words(s),
{
    let (from, to) = notation::trimming_takes_white_space_away(s);
    let a = s.take(from);
    let b = s.skip(to);
    assert(a + text::trimmed(s) + b =~= s);
    assert forall|i: int| 0 <= i < b.len() implies text::is_space(#[trigger] b[i]) by {
        assert(b[i] == s[to + i]);
    }
    lemma_words_around(a, text::trimmed(s), b);
}

/// A text that is a name in capitals is one word.
proof fn lemma_name_is_word(s: Seq<char>)
    requires
        text::capitals(s) == "QUIT"@ || text::capitals(s) == "SNAPSHOT"@,
    ensures
        text::words(s) == seq![s],
{
    lemma_names();
    let up = text::capitals(s);
    assert(forall|i: int| 0 <= i < "QUIT"@.len() ==> 65 <= (#[trigger] "QUIT"@[i]) as int <= 90);
    assert(forall|i: int|
        0 <= i < "SNAPSHOT"@.len() ==> 65 <= (#[trigger] "SNAPSHOT"@[i]) as int <= 90);
    assert(up.len() == s.len());
    assert forall|i: int| 0 <= i < s.len() implies !text::is_space(#[trigger] s[i]) by {
        assert(up[i] == text::capital(s[i]));
        assert(65 <= up[i] as int <= 90);
    }
    assert(seq!['Q', 'U', 'I', 'T'].len() > 0);
    assert(seq!['S', 'N', 'A', 'P', 'S', 'H', 'O', 'T'].len() > 0);
    text::lemma_words_only(s);
}

/// A line is a request to submit a command if and only if it reads as that command: the command
/// that is submitted is the one on the line, unchanged. Nothing else on a line is submitted.
pub proof fn requests_submit_the_command_on_the_line(line: Seq<char>, command: Command)
    ensures
        session::request_read(line) == RequestContents::Submit(command) <==> protocol::command_read(
            line,
        ) == Ok::<Command, ProtocolFailure>(command),
{
    let request = text::trimmed(line);
    lemma_words_trimmed(line);
    assert(protocol::command_read(request) == protocol::command_read(line));
    if request.len() == 0 {
        text::lemma_words_before(request, ' ', Seq::empty());
    }
    if text::capitals(request) == "QUIT"@ || text::capitals(request) == "SNAPSHOT"@ {
        lemma_names();
        lemma_name_is_word(request);
    }
}

/// The line that writes a command, with any white space around it, is a request to submit that
/// very command.
pub proof fn written_commands_are_submitted(a: Seq<char>, command: Command, b: Seq<char>)
    requires
        forall|i: int| 0 <= i < a.len() ==> text::is_space(#[trigger] a[i]),
        forall|i: int| 0 <= i < b.len() ==> text::is_space(#[trigger] b[i]),
    ensures
        session::request_read(a + protocol::command_text(command) + b) == RequestContents::Submit(
            command,
        ),
{
    let line = a + protocol::command_text(command) + b;
    lemma_words_around(a, protocol::command_text(command), b);
    protocol::written_commands_are_read_back(command);
    requests_submit_the_command_on_the_line(line, command);
}

/// What a line asks for that is no command: nothing, if nothing is written on it; to quit or to
/// see the book, if it holds that one word in capitals or small letters; or else it is refused for
/// what is wrong with it as a command.
pub proof fn other_requests_are_told_apart(line: Seq<char>)
    ensures
        ({
            let name = text::capitals(text::trimmed(line));
            let request = session::request_read(line);
            &&& request is Blank <==> !records::written_on(line)
            &&& request is Quit <==> name == seq!['Q', 'U', 'I', 'T']
            &&& request is Snapshot <==> name == seq!['S', 'N', 'A', 'P', 'S', 'H', 'O', 'T']
            &&& request matches RequestContents::Invalid(e) ==> protocol::command_read(line)
                == Err::<Command, ProtocolFailure>(e)
        }),
{
    lemma_names();
    lemma_words_trimmed(line);
    let request = text::trimmed(line);
    let (from, to) = notation::trimming_takes_white_space_away(line);
    if request.len() > 0 {
        assert(!text::is_space(line[from]));
    }
    assert(text::capitals(request).len() == request.len());
    assert(seq!['Q', 'U', 'I', 'T'].len() != seq!['S', 'N', 'A', 'P', 'S', 'H', 'O', 'T'].len());
}

/// What each request does and gets. A command becomes the event with the next number; carried out,
/// it is to be logged with its trades, and turned down, the reply says why. All other requests
/// leave the engine as it is.
pub proof fn requests_are_answered(state: EngineState, request: RequestContents)
    ensures
        ({
            let (after, action) = session::answered(state, request);
            match request {
                RequestContents::Blank => after == state && action == ActionContents::Nothing,
                RequestContents::Quit => after == state && action == ActionContents::Close(
                    "OK bye"@,
                ),
                RequestContents::Snapshot => after == state && action == ActionContents::Reply(
                    "OK BIDS "@ + protocol::side_text(state.book.shown().bids) + " ASKS "@
                        + protocol::side_text(state.book.shown().asks),
                ),
                RequestContents::Invalid(e) => after == state && action == ActionContents::Reply(
                    "ERR "@ + e.message(),
                ),
                RequestContents::Submit(command) => {
                    let event = Event { seq: state.next_seq, command };
                    &&& after == state.after(event).0
                    &&& match state.after(event).1 {
                        Ok(fills) => action == ActionContents::Persist(event, fills),
                        Err(EngineError::DuplicateOrder(id)) => action == ActionContents::Reply(
                            "ERR "@ + ("duplicate order id "@ + decimal::decimal(id as int)),
                        ),
                        Err(EngineError::NonPositiveQuantity(qty)) => action
                            == ActionContents::Reply(
                            "ERR "@ + ("quantity must be positive, got "@ + decimal::decimal(
                                qty as int,
                            )),
                        ),
                    }
                },
            }
        }),
{
}

/// Which requests need the engine, and when it can take them: a command needs a number that is
/// left, and a snapshot levels that can be added up.
pub proof fn requests_can_be_answered(state: EngineState, request: RequestContents)
    ensures
        session::needs_engine(request) == (request is Snapshot || request is Submit),
        session::can_answer(state, request) == {
            &&& request is Submit ==> state.next_seq < Sequence::MAX
            &&& request is Snapshot ==> protocol::snapshot_fits(state.book.shown())
        },
{
}

/// What a client gets first, and what it gets for a command that was carried out and logged.
pub proof fn greetings_and_confirmations(seq: Sequence, fills: Seq<Fill>)
    ensures
        session::greeting_text() == "OK slipstream ready; send LIMIT, CANCEL, SNAPSHOT, or QUIT"@,
        session::confirmation_text(seq, fills) == "OK seq="@ + decimal::decimal(seq as int) + seq![
            ' ',
        ] + protocol::fills_text(fills),
{
}

/// A request holds what its fields hold.
pub proof fn requests_hold_their_fields(request: Request)
    ensures
        match request {
            Request::Blank => request@ == RequestContents::Blank,
            Request::Quit => request@ == RequestContents::Quit,
            Request::Snapshot => request@ == RequestContents::Snapshot,
            Request::Submit(command) => request@ == RequestContents::Submit(command),
            Request::Invalid(e) => request@ == RequestContents::Invalid(e@),
        },
{
}

/// An action holds what its fields hold.
pub proof fn actions_hold_their_fields(action: Action)
    ensures
        match action {
            Action::Nothing => action@ == ActionContents::Nothing,
            Action::Reply(line) => action@ == ActionContents::Reply(line@),
            Action::Close(line) => action@ == ActionContents::Close(line@),
            Action::Persist(accepted) => action@ == ActionContents::Persist(
                accepted.event,
                accepted.fills@,
            ),
        },
{
}

/// What is written of a trade, piece by piece between commas.
pub open spec fn trade_pieces(fill: Fill) -> Seq<Seq<char>> {
    seq![
        "{seq="@ + decimal::decimal(fill.seq as int),
        "maker="@ + decimal::decimal(fill.maker as int),
        "taker="@ + decimal::decimal(fill.taker as int),
        "price="@ + decimal::decimal(fill.price as int),
        "qty="@ + decimal::decimal(fill.qty as int) + seq!['}'],
    ]
}

/// A list of trades is written between `fills=[` and `]`, and split at its commas it is five
/// pieces for each trade, in order: the trade's own number, maker, taker, price and units, each
/// with its name.
pub proof fn trades_are_written_one_by_one(fills: Seq<Fill>)
    ensures
        ({
            let s = protocol::fills_text(fills);
            let inner = s.subrange(7, s.len() - 1);
            let pieces = text::fields(inner, ',');
            &&& s.len() >= 8
            &&& s.take(7) == "fills=["@
            &&& s[s.len() - 1] == ']'
            &&& fills.len() == 0 ==> inner == Seq::<char>::empty()
            &&& fills.len() > 0 ==> pieces.len() == 5 * fills.len()
            &&& forall|i: int|
                0 <= i < fills.len() ==> pieces.subrange(5 * i, 5 * i + 5) == trade_pieces(
                    #[trigger] fills[i],
                )
        }),
{
    let items = fills.map_values(|fill: Fill| protocol::fill_text(fill));
    let inner = text::joined(items, seq![',']);
    let s = protocol::fills_text(fills);
    reveal_strlit("fills=[");
    assert(s.subrange(7, s.len() - 1) =~= inner);
    assert(s.take(7) =~= "fills=["@);
    if fills.len() > 0 {
        lemma_trades(fills);
    } else {
        assert(inner =~= Seq::empty());
    }
}

/// The pieces of a written trade.
proof fn lemma_trade_pieces(fill: Fill)
    ensures
        text::fields(protocol::fill_text(fill), ',') == trade_pieces(fill),
{
    reveal_strlit("{seq=");
    reveal_strlit(",maker=");
    reveal_strlit(",taker=");
    reveal_strlit(",price=");
    reveal_strlit(",qty=");
    reveal_strlit("maker=");
    reveal_strlit("taker=");
    reveal_strlit("price=");
    reveal_strlit("qty=");
    decimal::lemma_decimal_chars(fill.seq as int);
    decimal::lemma_decimal_chars(fill.maker as int);
    decimal::lemma_decimal_chars(fill.taker as int);
    decimal::lemma_decimal_chars(fill.price as int);
    decimal::lemma_decimal_chars(fill.qty as int);
    let comma = seq![','];
    let pieces = trade_pieces(fill);
    let after_price = pieces[4];
    let after_taker = pieces[3] + comma + after_price;
    let after_maker = pieces[2] + comma + after_taker;
    let after_seq = pieces[1] + comma + after_maker;
    assert(protocol::fill_text(fill) =~= pieces[0] + comma + after_seq);
    text::lemma_fields_only(pieces[4], ',');
    text::lemma_fields_first(pieces[3], after_price, ',');
    text::lemma_fields_first(pieces[2], after_taker, ',');
    text::lemma_fields_first(pieces[1], after_maker, ',');
    text::lemma_fields_first(pieces[0], after_seq, ',');
    assert(text::fields(protocol::fill_text(fill), ',') =~= pieces);
}

/// The pieces of written trades.
proof fn lemma_trades(fills: Seq<Fill>)
    requires
        fills.len() > 0,
    ensures
        ({
            let items = fills.map_values(|fill: Fill| protocol::fill_text(fill));
            let pieces = text::fields(text::joined(items, seq![',']), ',');
            &&& pieces.len() == 5 * fills.len()
            &&& forall|i: int|
                0 <= i < fills.len() ==> pieces.subrange(5 * i, 5 * i + 5) == trade_pieces(
                    #[trigger] fills[i],
                )
        }),
    decreases fills.len(),
{
    let items = fills.map_values(|fill: Fill| protocol::fill_text(fill));
    let pieces = text::fields(text::joined(items, seq![',']), ',');
    let n = fills.len() - 1;
    lemma_trade_pieces(fills[n]);
    if fills.len() == 1 {
        assert(pieces.subrange(0, 5) =~= trade_pieces(fills[0]));
    } else {
        let front = fills.drop_last();
        let front_items = front.map_values(|fill: Fill| protocol::fill_text(fill));
        let before = text::fields(text::joined(front_items, seq![',']), ',');
        assert(items.drop_last() =~= front_items);
        lemma_trades(front);
        text::lemma_fields_concat(text::joined(front_items, seq![',']), items.last(), ',');
        assert(pieces == before + trade_pieces(fills[n]));
        assert forall|i: int| 0 <= i < fills.len() implies pieces.subrange(5 * i, 5 * i + 5)
            == trade_pieces(#[trigger] fills[i]) by {
            if i < n {
                assert(fills[i] == front[i]);
                assert(pieces.subrange(5 * i, 5 * i + 5) =~= before.subrange(5 * i, 5 * i + 5));
            } else {
                assert(pieces.subrange(5 * i, 5 * i + 5) =~= trade_pieces(fills[n]));
            }
        }
    }
}

/// Lists of trades that differ are written differently.
pub proof fn written_trades_tell_trades_apart(a: Seq<Fill>, b: Seq<Fill>)
    requires
        protocol::fills_text(a) == protocol::fills_text(b),
    ensures
        a == b,
{
    trades_are_written_one_by_one(a);
    trades_are_written_one_by_one(b);
    let s = protocol::fills_text(a);
    let inner = s.subrange(7, s.len() - 1);
    let pieces = text::fields(inner, ',');
    text::lemma_fields_only(Seq::empty(), ',');
    assert(a.len() == b.len());
    assert forall|i: int| 0 <= i < a.len() implies a[i] == b[i] by {
        lemma_pieces_tell_apart(a[i], b[i]);
    }
    assert(a =~= b);
}

/// Trades that differ have different pieces.
proof fn lemma_pieces_tell_apart(a: Fill, b: Fill)
    requires
        trade_pieces(a) == trade_pieces(b),
    ensures
        a == b,
{
    let p = trade_pieces(a);
    let q = trade_pieces(b);
    assert(p[0] == q[0] && p[1] == q[1] && p[2] == q[2] && p[3] == q[3] && p[4] == q[4]);
    lemma_behind(
        "{seq="@,
        decimal::decimal(a.seq as int),
        decimal::decimal(b.seq as int),
        Seq::empty(),
    );
    lemma_behind(
        "maker="@,
        decimal::decimal(a.maker as int),
        decimal::decimal(b.maker as int),
        Seq::empty(),
    );
    lemma_behind(
        "taker="@,
        decimal::decimal(a.taker as int),
        decimal::decimal(b.taker as int),
        Seq::empty(),
    );
    lemma_behind(
        "price="@,
        decimal::decimal(a.price as int),
        decimal::decimal(b.price as int),
        Seq::empty(),
    );
    lemma_behind(
        "qty="@,
        decimal::decimal(a.qty as int),
        decimal::decimal(b.qty as int),
        seq!['}'],
    );
    decimal::written_numbers_are_read_back(a.seq, a.price);
    decimal::written_numbers_are_read_back(b.seq, b.price);
    decimal::written_numbers_are_read_back(a.maker, a.qty);
    decimal::written_numbers_are_read_back(b.maker, b.qty);
    decimal::written_numbers_are_read_back(a.taker, 0);
    decimal::written_numbers_are_read_back(b.taker, 0);
}

/// Texts that are the same around something have the same inside.
proof fn lemma_behind(name: Seq<char>, a: Seq<char>, b: Seq<char>, end: Seq<char>)
    ensures
        name + a + end == name + b + end ==> a == b,
        name + a == name + b ==> a == b,
{
    if name + a + end == name + b + end {
        assert((name + a + end).len() == (name + b + end).len());
        assert forall|i: int| 0 <= i < a.len() implies a[i] == b[i] by {
            assert((name + a + end)[name.len() + i] == a[i]);
            assert((name + b + end)[name.len() + i] == b[i]);
        }
        assert(a =~= b);
    }
    if name + a == name + b {
        assert((name + a).len() == (name + b).len());
        assert forall|i: int| 0 <= i < a.len() implies a[i] == b[i] by {
            assert((name + a)[name.len() + i] == a[i]);
            assert((name + b)[name.len() + i] == b[i]);
        }
        assert(a =~= b);
    }
}

/// The units on offer in a list of orders are the sum of what each order has.
pub proof fn depths_are_sums(orders: Seq<OrderView>)
    ensures
        protocol::depth(orders) == orders.fold_left(
            0int,
            |sum: int, order: OrderView| sum + order.qty,
        ),
    decreases orders.len(),
{
    if orders.len() > 0 {
        depths_are_sums(orders.drop_last());
    }
}

/// A snapshot can be written if and only if, at each level of both sides, the units of the first
/// orders, however many, add up to a quantity.
pub proof fn snapshots_fit_where_sums_do(snapshot: SnapshotContents)
    ensures
        protocol::snapshot_fits(snapshot) <==> {
            &&& forall|i: int, n: int|
                0 <= i < snapshot.bids.len() && 0 <= n <= snapshot.bids[i].1.len() ==> Quantity::MIN
                    <= protocol::depth(#[trigger] snapshot.bids[i].1.take(n)) <= Quantity::MAX
            &&& forall|i: int, n: int|
                0 <= i < snapshot.asks.len() && 0 <= n <= snapshot.asks[i].1.len() ==> Quantity::MIN
                    <= protocol::depth(#[trigger] snapshot.asks[i].1.take(n)) <= Quantity::MAX
        },
{
    lemma_side_fits(snapshot.bids);
    lemma_side_fits(snapshot.asks);
}

/// A side can be written if and only if the first orders of each level add up.
proof fn lemma_side_fits(levels: Seq<(Price, Seq<OrderView>)>)
    ensures
        protocol::side_fits(levels) <==> forall|i: int, n: int|
            0 <= i < levels.len() && 0 <= n <= levels[i].1.len() ==> Quantity::MIN
                <= protocol::depth(#[trigger] levels[i].1.take(n)) <= Quantity::MAX,
{
    if protocol::side_fits(levels) {
        assert forall|i: int, n: int|
            0 <= i < levels.len() && 0 <= n <= levels[i].1.len() implies Quantity::MIN
            <= protocol::depth(#[trigger] levels[i].1.take(n)) <= Quantity::MAX by {
            assert(protocol::depth_fits(levels[i].1));
        }
    } else {
        let i = choose|i: int|
            0 <= i < levels.len() && !protocol::depth_fits((#[trigger] levels[i]).1);
        let orders = levels[i].1;
        let n = choose|n: int|
            0 <= n <= orders.len() && !(Quantity::MIN <= #[trigger] protocol::depth(orders.take(n))
                <= Quantity::MAX);
        assert(!(Quantity::MIN <= protocol::depth(levels[i].1.take(n)) <= Quantity::MAX));
    }
}

/// A side is written between square brackets, one piece for each level between commas, in order:
/// the level's own price, `@`, and the sum of the units of its orders.
pub proof fn levels_are_written_one_by_one(levels: Seq<(Price, Seq<OrderView>)>)
    ensures
        ({
            let s = protocol::side_text(levels);
            let inner = s.subrange(1, s.len() - 1);
            let pieces = text::fields(inner, ',');
            &&& s.len() >= 2
            &&& s[0] == '['
            &&& s[s.len() - 1] == ']'
            &&& levels.len() == 0 ==> inner == Seq::<char>::empty()
            &&& levels.len() > 0 ==> pieces.len() == levels.len()
            &&& forall|i: int|
                0 <= i < levels.len() ==> text::fields(#[trigger] pieces[i], '@') == seq![
                    decimal::decimal(levels[i].0 as int),
                    decimal::decimal(
                        levels[i].1.fold_left(
                            0int,
                            |sum: int, order: OrderView| sum + order.qty,
                        ),
                    ),
                ]
        }),
{
    let items = levels.map_values(|level: (Price, Seq<OrderView>)| protocol::level_text(level));
    let inner = text::joined(items, seq![',']);
    let s = protocol::side_text(levels);
    assert(s.subrange(1, s.len() - 1) =~= inner);
    assert forall|i: int| 0 <= i < items.len() implies text::lacks(#[trigger] items[i], ',') by {
        decimal::lemma_decimal_chars(levels[i].0 as int);
        decimal::lemma_decimal_chars(protocol::depth(levels[i].1));
    }
    if levels.len() > 0 {
        text::lemma_fields_joined(items, ',');
        assert forall|i: int| 0 <= i < levels.len() implies text::fields(#[trigger] items[i], '@')
            == seq![
            decimal::decimal(levels[i].0 as int),
            decimal::decimal(
                levels[i].1.fold_left(0int, |sum: int, order: OrderView| sum + order.qty),
            ),
        ] by {
            let price = decimal::decimal(levels[i].0 as int);
            let depth = decimal::decimal(protocol::depth(levels[i].1));
            depths_are_sums(levels[i].1);
            decimal::lemma_decimal_chars(levels[i].0 as int);
            decimal::lemma_decimal_chars(protocol::depth(levels[i].1));
            text::lemma_fields_only(depth, '@');
            text::lemma_fields_first(price, depth, '@');
            assert(items[i] == price + seq!['@'] + depth);
            assert(text::fields(items[i], '@') =~= seq![price, depth]);
        }
    } else {
        assert(inner =~= Seq::empty());
    }
}

/// A book is written in two lines: `BIDS` and the bids, `ASKS` and the asks.
pub proof fn books_are_written_side_by_side(snapshot: SnapshotContents)
    ensures
        text::fields(protocol::snapshot_text(snapshot), '\n') == seq![
            "BIDS "@ + protocol::side_text(snapshot.bids),
            "ASKS "@ + protocol::side_text(snapshot.asks),
        ],
{
    reveal_strlit("BIDS ");
    reveal_strlit("ASKS ");
    protocol::lemma_side_text(snapshot.bids);
    protocol::lemma_side_text(snapshot.asks);
    let bids = "BIDS "@ + protocol::side_text(snapshot.bids);
    let asks = "ASKS "@ + protocol::side_text(snapshot.asks);
    text::lemma_fields_only(asks, '\n');
    text::lemma_fields_first(bids, asks, '\n');
    assert(protocol::snapshot_text(snapshot) =~= bids + seq!['\n'] + asks);
    assert(text::fields(protocol::snapshot_text(snapshot), '\n') =~= seq![bids, asks]);
}

/// The reply that shows the book is `OK` and the two lines of the written book, with spaces in
/// place of the line feed.
pub proof fn snapshot_replies_are_the_written_book(state: EngineState)
    ensures
        ({
            let lines = text::fields(protocol::snapshot_text(state.book.shown()), '\n');
            &&& lines.len() == 2
            &&& session::answered(state, RequestContents::Snapshot).1 == ActionContents::Reply(
                "OK "@ + lines[0] + seq![' '] + lines[1],
            )
        }),
{
    let shown = state.book.shown();
    books_are_written_side_by_side(shown);
    reveal_strlit("OK ");
    reveal_strlit("BIDS ");
    reveal_strlit("ASKS ");
    reveal_strlit("OK BIDS ");
    reveal_strlit(" ASKS ");
    let lines = text::fields(protocol::snapshot_text(shown), '\n');
    assert("OK "@ + lines[0] + seq![' '] + lines[1] =~= session::book_text(shown));
}

/// Reasons to turn a command down that differ are said differently.
pub proof fn messages_tell_engine_errors_apart(a: EngineError, b: EngineError)
    requires
        a.message() == b.message(),
    ensures
        a == b,
{
    reveal_strlit("duplicate order id ");
    reveal_strlit("quantity must be positive, got ");
    assert(a is DuplicateOrder ==> a.message()[0] == 'd');
    assert(b is DuplicateOrder ==> b.message()[0] == 'd');
    assert(a is NonPositiveQuantity ==> a.message()[0] == 'q');
    assert(b is NonPositiveQuantity ==> b.message()[0] == 'q');
    match (a, b) {
        (EngineError::DuplicateOrder(x), EngineError::DuplicateOrder(y)) => {
            lemma_behind(
                "duplicate order id "@,
                decimal::decimal(x as int),
                decimal::decimal(y as int),
                Seq::empty(),
            );
            decimal::written_numbers_are_read_back(x, 0);
            decimal::written_numbers_are_read_back(y, 0);
        },
        (EngineError::NonPositiveQuantity(x), EngineError::NonPositiveQuantity(y)) => {
            lemma_behind(
                "quantity must be positive, got "@,
                decimal::decimal(x as int),
                decimal::decimal(y as int),
                Seq::empty(),
            );
            decimal::written_numbers_are_read_back(0, x);
            decimal::written_numbers_are_read_back(0, y);
        },
        _ => {},
    }
}

/// Split at its spaces, a confirmation is three parts: `OK`, the number behind
/// `seq=`, and the written trades.
pub proof fn confirmations_are_read_back(seq: Sequence, fills: Seq<Fill>)
    ensures
        ({
            let parts = text::fields(session::confirmation_text(seq, fills), ' ');
            &&& parts.len() == 3
            &&& parts[0] == seq!['O', 'K']
            &&& parts[1].take(4) == seq!['s', 'e', 'q', '=']
            &&& decimal::u64_read(parts[1].skip(4)) == Some(seq)
            &&& parts[2] == protocol::fills_text(fills)
        }),
{
    let ok = seq!['O', 'K'];
    let number = seq!['s', 'e', 'q', '='] + decimal::decimal(seq as int);
    let trades = protocol::fills_text(fills);
    reveal_strlit("OK seq=");
    decimal::lemma_decimal_chars(seq as int);
    lemma_trades_without_spaces(fills);
    text::lemma_fields_only(trades, ' ');
    text::lemma_fields_first(number, trades, ' ');
    text::lemma_fields_first(ok, number + seq![' '] + trades, ' ');
    assert(session::confirmation_text(seq, fills) =~= ok + seq![' '] + (number + seq![' ']
        + trades));
    assert(text::fields(session::confirmation_text(seq, fills), ' ') =~= seq![ok, number, trades]);
    assert(number.take(4) =~= seq!['s', 'e', 'q', '=']);
    assert(number.skip(4) =~= decimal::decimal(seq as int));
    decimal::written_numbers_are_read_back(seq, 0);
}

/// Trades are written without spaces.
proof fn lemma_trades_without_spaces(fills: Seq<Fill>)
    ensures
        text::lacks(protocol::fills_text(fills), ' '),
{
    let items = fills.map_values(|fill: Fill| protocol::fill_text(fill));
    reveal_strlit("fills=[");
    reveal_strlit("{seq=");
    reveal_strlit(",maker=");
    reveal_strlit(",taker=");
    reveal_strlit(",price=");
    reveal_strlit(",qty=");
    assert forall|i: int| 0 <= i < items.len() implies text::lacks(#[trigger] items[i], ' ') by {
        let fill = fills[i];
        decimal::lemma_decimal_chars(fill.seq as int);
        decimal::lemma_decimal_chars(fill.maker as int);
        decimal::lemma_decimal_chars(fill.taker as int);
        decimal::lemma_decimal_chars(fill.price as int);
        decimal::lemma_decimal_chars(fill.qty as int);
    }
    text::lemma_joined_lacks(items, seq![','], ' ');
}

} // verus!
