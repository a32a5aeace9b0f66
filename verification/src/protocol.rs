//! The text protocol: commands as a client writes them, books and trades as a client sees them.
use vstd::prelude::*;

use crate::decimal;
use crate::text;
use crate::types;
use crate::types::{BookSnapshot, Command, Fill, OrderView, Price, Quantity, Side, SnapshotContents};

verus! {

/// Why a line is not a command.
#[derive(Debug, Eq, PartialEq)]
pub enum ProtocolError {
    Empty,
    UnknownCommand(String),
    InvalidArity { command: String, expected: &'static str },
    InvalidSide(String),
    InvalidNumber { field: &'static str, value: String },
}

/// The contents of a [`ProtocolError`].
pub enum ProtocolFailure {
    Empty,
    UnknownCommand(Seq<char>),
    InvalidArity { command: Seq<char>, expected: Seq<char> },
    InvalidSide(Seq<char>),
    InvalidNumber { field: Seq<char>, value: Seq<char> },
}

impl View for ProtocolError {
    type V = ProtocolFailure;

    open spec fn view(&self) -> ProtocolFailure {
        match *self {
            ProtocolError::Empty => ProtocolFailure::Empty,
            ProtocolError::UnknownCommand(command) => ProtocolFailure::UnknownCommand(command@),
            ProtocolError::InvalidArity { command, expected } => ProtocolFailure::InvalidArity {
                command: command@,
                expected: expected@,
            },
            ProtocolError::InvalidSide(side) => ProtocolFailure::InvalidSide(side@),
            ProtocolError::InvalidNumber { field, value } => ProtocolFailure::InvalidNumber {
                field: field@,
                value: value@,
            },
        }
    }
}

impl ProtocolFailure {
    /// What the error says.
    pub open spec fn message(self) -> Seq<char> {
        match self {
            ProtocolFailure::Empty => "empty command"@,
            ProtocolFailure::UnknownCommand(command) => "unknown command `"@ + command + seq!['`'],
            ProtocolFailure::InvalidArity { command, expected } => seq!['`'] + command
                + "` expects "@ + expected,
            ProtocolFailure::InvalidSide(side) => "side must be BID or ASK, got `"@ + side
                + seq!['`'],
            ProtocolFailure::InvalidNumber { field, value } => field + " must be a number, got `"@
                + value + seq!['`'],
        }
    }
}

impl ProtocolError {
    /// What the error says.
    pub fn to_string(&self) -> (message: String)
        ensures
            message@ == self@.message(),
    {
        let mut message = String::new();
        match self {
            ProtocolError::Empty => {
                message.append("empty command");
            },
            ProtocolError::UnknownCommand(command) => {
                message.append("unknown command `");
                message.append(command);
                message.push('`');
            },
            ProtocolError::InvalidArity { command, expected } => {
                message.push('`');
                message.append(command);
                message.append("` expects ");
                message.append(expected);
            },
            ProtocolError::InvalidSide(side) => {
                message.append("side must be BID or ASK, got `");
                message.append(side);
                message.push('`');
            },
            ProtocolError::InvalidNumber { field, value } => {
                message.append(field);
                message.append(" must be a number, got `");
                message.append(value);
                message.push('`');
            },
        }
        assert(message@ =~= self@.message());
        message
    }
}

/// The side that a word stands for, in capitals or small letters.
pub open spec fn side_read(word: Seq<char>) -> Result<Side, ProtocolFailure> {
    let name = text::capitals(word);
    if name == "BID"@ || name == "B"@ {
        Ok(Side::Bid)
    } else if name == "ASK"@ || name == "A"@ {
        Ok(Side::Ask)
    } else {
        Err(ProtocolFailure::InvalidSide(word))
    }
}

/// The number that was read from a word, or the error that names the field and the word.
pub open spec fn number_read<T>(field: Seq<char>, word: Seq<char>, number: Option<T>) -> Result<
    T,
    ProtocolFailure,
> {
    match number {
        Some(n) => Ok(n),
        None => Err(ProtocolFailure::InvalidNumber { field, value: word }),
    }
}

/// The limit order that five words stand for. They are checked from the left.
pub open spec fn limit_read(words: Seq<Seq<char>>) -> Result<Command, ProtocolFailure> {
    match side_read(words[1]) {
        Err(e) => Err(e),
        Ok(side) => match number_read("id"@, words[2], decimal::u64_read(words[2])) {
            Err(e) => Err(e),
            Ok(id) => match number_read("price"@, words[3], decimal::i64_read(words[3])) {
                Err(e) => Err(e),
                Ok(price) => match number_read("qty"@, words[4], decimal::i64_read(words[4])) {
                    Err(e) => Err(e),
                    Ok(qty) => Ok(Command::Limit { id, side, price, qty }),
                },
            },
        },
    }
}

/// The command that words stand for. The first, in capitals or small letters, says which command
/// it is and how many words there must be. A snapshot is no command to the engine.
pub open spec fn words_read(words: Seq<Seq<char>>) -> Result<Command, ProtocolFailure> {
    if words.len() == 0 {
        Err(ProtocolFailure::Empty)
    } else {
        let command = text::capitals(words[0]);
        if command == "LIMIT"@ {
            if words.len() == 5 {
                limit_read(words)
            } else {
                Err(
                    ProtocolFailure::InvalidArity {
                        command,
                        expected: "LIMIT <BID|ASK> <id> <price> <qty>"@,
                    },
                )
            }
        } else if command == "CANCEL"@ {
            if words.len() == 2 {
                match number_read("id"@, words[1], decimal::u64_read(words[1])) {
                    Err(e) => Err(e),
                    Ok(id) => Ok(Command::Cancel { id }),
                }
            } else {
                Err(ProtocolFailure::InvalidArity { command, expected: "CANCEL <id>"@ })
            }
        } else if command == "SNAPSHOT"@ && words.len() > 1 {
            Err(ProtocolFailure::InvalidArity { command, expected: "SNAPSHOT"@ })
        } else {
            Err(ProtocolFailure::UnknownCommand(command))
        }
    }
}

/// The command that a line stands for.
pub open spec fn command_read(line: Seq<char>) -> Result<Command, ProtocolFailure> {
    words_read(text::words(line))
}

/// Reads a command.
pub fn parse_command(line: &str) -> (result: Result<Command, ProtocolError>)
    ensures
        match result {
            Ok(command) => command_read(line@) == Ok::<Command, ProtocolFailure>(command),
            Err(e) => command_read(line@) == Err::<Command, ProtocolFailure>(e@),
        },
{
    let parts = text::split_words(line);
    assert(parts@.len() == text::words(line@).len());
    if parts.len() == 0 {
        return Err(ProtocolError::Empty);
    }
    assert(forall|i: int| 0 <= i < parts@.len() ==> (#[trigger] parts@[i])@ == text::words(line@)[i]);
    let kind = text::to_capitals(&parts[0]);
    if text::same(&kind, "LIMIT") {
        if parts.len() != 5 {
            return Err(
                ProtocolError::InvalidArity {
                    command: kind,
                    expected: "LIMIT <BID|ASK> <id> <price> <qty>",
                },
            );
        }
        let side = match parse_side(&parts[1]) {
            Ok(side) => side,
            Err(e) => return Err(e),
        };
        let id = match parse_u64("id", &parts[2]) {
            Ok(id) => id,
            Err(e) => return Err(e),
        };
        let price = match parse_i64("price", &parts[3]) {
            Ok(price) => price,
            Err(e) => return Err(e),
        };
        let qty = match parse_i64("qty", &parts[4]) {
            Ok(qty) => qty,
            Err(e) => return Err(e),
        };
        Ok(Command::Limit { id, side, price, qty })
    } else if text::same(&kind, "CANCEL") {
        if parts.len() != 2 {
            return Err(ProtocolError::InvalidArity { command: kind, expected: "CANCEL <id>" });
        }
        match parse_u64("id", &parts[1]) {
            Ok(id) => Ok(Command::Cancel { id }),
            Err(e) => Err(e),
        }
    } else if text::same(&kind, "SNAPSHOT") && parts.len() != 1 {
        Err(ProtocolError::InvalidArity { command: kind, expected: "SNAPSHOT" })
    } else {
        Err(ProtocolError::UnknownCommand(kind))
    }
}

/// Reads a side.
fn parse_side(value: &str) -> (result: Result<Side, ProtocolError>)
    ensures
        match result {
            Ok(side) => side_read(value@) == Ok::<Side, ProtocolFailure>(side),
            Err(e) => side_read(value@) == Err::<Side, ProtocolFailure>(e@),
        },
{
    let name = text::to_capitals(value);
    if text::same(&name, "BID") || text::same(&name, "B") {
        Ok(Side::Bid)
    } else if text::same(&name, "ASK") || text::same(&name, "A") {
        Ok(Side::Ask)
    } else {
        Err(ProtocolError::InvalidSide(value.to_owned()))
    }
}

/// Reads a number that is not below zero.
fn parse_u64(field: &'static str, value: &str) -> (result: Result<u64, ProtocolError>)
    ensures
        match result {
            Ok(n) => number_read(field@, value@, decimal::u64_read(value@)) == Ok::<
                u64,
                ProtocolFailure,
            >(n),
            Err(e) => number_read(field@, value@, decimal::u64_read(value@)) == Err::<
                u64,
                ProtocolFailure,
            >(e@),
        },
{
    match decimal::read_u64(value) {
        Some(n) => Ok(n),
        None => Err(ProtocolError::InvalidNumber { field, value: value.to_owned() }),
    }
}

/// Reads a number.
fn parse_i64(field: &'static str, value: &str) -> (result: Result<i64, ProtocolError>)
    ensures
        match result {
            Ok(n) => number_read(field@, value@, decimal::i64_read(value@)) == Ok::<
                i64,
                ProtocolFailure,
            >(n),
            Err(e) => number_read(field@, value@, decimal::i64_read(value@)) == Err::<
                i64,
                ProtocolFailure,
            >(e@),
        },
{
    match decimal::read_i64(value) {
        Some(n) => Ok(n),
        None => Err(ProtocolError::InvalidNumber { field, value: value.to_owned() }),
    }
}

/// The units on offer in a list of orders.
pub open spec fn depth(orders: Seq<OrderView>) -> int
    decreases orders.len(),
{
    if orders.len() == 0 {
        0
    } else {
        depth(orders.drop_last()) + orders.last().qty
    }
}

/// Whether the units of a list of orders can be added up, from the first order on, without going
/// beyond what a quantity holds.
pub open spec fn depth_fits(orders: Seq<OrderView>) -> bool {
    forall|n: int|
        0 <= n <= orders.len() ==> Quantity::MIN <= #[trigger] depth(orders.take(n))
            <= Quantity::MAX
}

/// Whether the units of each level can be added up.
pub open spec fn side_fits(levels: Seq<(Price, Seq<OrderView>)>) -> bool {
    forall|i: int| 0 <= i < levels.len() ==> depth_fits((#[trigger] levels[i]).1)
}

/// Whether the units of each level of a snapshot can be added up.
pub open spec fn snapshot_fits(snapshot: SnapshotContents) -> bool {
    side_fits(snapshot.bids) && side_fits(snapshot.asks)
}

/// A level: its price and its units.
pub open spec fn level_text(level: (Price, Seq<OrderView>)) -> Seq<char> {
    decimal::decimal(level.0 as int) + seq!['@'] + decimal::decimal(depth(level.1))
}

/// The levels of a side.
pub open spec fn side_text(levels: Seq<(Price, Seq<OrderView>)>) -> Seq<char> {
    seq!['['] + text::joined(
        levels.map_values(|level: (Price, Seq<OrderView>)| level_text(level)),
        seq![','],
    ) + seq![']']
}

/// A book, one line for each side.
pub open spec fn snapshot_text(snapshot: SnapshotContents) -> Seq<char> {
    "BIDS "@ + side_text(snapshot.bids) + seq!['\n'] + "ASKS "@ + side_text(snapshot.asks)
}

/// A trade.
pub open spec fn fill_text(fill: Fill) -> Seq<char> {
    "{seq="@ + decimal::decimal(fill.seq as int) + ",maker="@ + decimal::decimal(fill.maker as int)
        + ",taker="@ + decimal::decimal(fill.taker as int) + ",price="@ + decimal::decimal(
        fill.price as int,
    ) + ",qty="@ + decimal::decimal(fill.qty as int) + seq!['}']
}

/// A list of trades.
pub open spec fn fills_text(fills: Seq<Fill>) -> Seq<char> {
    "fills=["@ + text::joined(fills.map_values(|fill: Fill| fill_text(fill)), seq![',']) + seq![
        ']',
    ]
}

/// Adds up the units of a list of orders.
pub(crate) fn total(orders: &Vec<OrderView>) -> (qty: Quantity)
    requires
        depth_fits(orders@),
    ensures
        qty == depth(orders@),
{
    let mut qty: Quantity = 0;
    let mut i: usize = 0;
    while i < orders.len()
        invariant
            i <= orders@.len(),
            depth_fits(orders@),
            qty == depth(orders@.take(i as int)),
        decreases orders@.len() - i,
    {
        proof {
            let next = orders@.take(i + 1);
            assert(next.drop_last() =~= orders@.take(i as int));
            assert(Quantity::MIN <= depth(next) <= Quantity::MAX);
        }
        qty = qty + orders[i].qty;
        i = i + 1;
    }
    assert(orders@.take(i as int) =~= orders@);
    qty
}

/// Whether the units of a list of orders can be added up.
fn order_depth_fits(orders: &Vec<OrderView>) -> (fits: bool)
    ensures
        fits == depth_fits(orders@),
{
    let mut qty: Quantity = 0;
    let mut i: usize = 0;
    while i < orders.len()
        invariant
            i <= orders@.len(),
            qty == depth(orders@.take(i as int)),
            forall|n: int|
                0 <= n <= i ==> Quantity::MIN <= #[trigger] depth(orders@.take(n))
                    <= Quantity::MAX,
        decreases orders@.len() - i,
    {
        let ghost next = orders@.take(i + 1);
        assert(next.drop_last() =~= orders@.take(i as int));
        match qty.checked_add(orders[i].qty) {
            Some(sum) => {
                qty = sum;
            },
            None => {
                assert(!(Quantity::MIN <= depth(orders@.take(i + 1)) <= Quantity::MAX));
                return false;
            },
        }
        i = i + 1;
    }
    true
}

/// Whether the units of each level can be added up.
fn side_depths_fit(levels: &Vec<(Price, Vec<OrderView>)>) -> (fits: bool)
    ensures
        fits == side_fits(types::level_contents(levels@)),
{
    let ghost all = types::level_contents(levels@);
    let mut i: usize = 0;
    while i < levels.len()
        invariant
            i <= levels@.len(),
            all == types::level_contents(levels@),
            forall|j: int| 0 <= j < i ==> depth_fits((#[trigger] all[j]).1),
        decreases levels@.len() - i,
    {
        assert(all[i as int].1 == levels@[i as int].1@);
        if !order_depth_fits(&levels[i].1) {
            return false;
        }
        i = i + 1;
    }
    true
}

/// Whether the units of each level of a snapshot can be added up: only then can it be formatted.
pub fn depths_fit(snapshot: &BookSnapshot) -> (fits: bool)
    ensures
        fits == snapshot_fits(snapshot@),
{
    side_depths_fit(&snapshot.bids) && side_depths_fit(&snapshot.asks)
}

/// Writes a side.
fn format_side(levels: &Vec<(Price, Vec<OrderView>)>) -> (out: String)
    requires
        side_fits(types::level_contents(levels@)),
    ensures
        out@ == side_text(types::level_contents(levels@)),
{
    let ghost all = types::level_contents(levels@);
    let ghost items = all.map_values(|level: (Price, Seq<OrderView>)| level_text(level));
    let mut out = String::new();
    out.push('[');
    let mut i: usize = 0;
    assert(out@ =~= seq!['['] + text::joined(items.take(0), seq![',']));
    while i < levels.len()
        invariant
            i <= levels@.len(),
            all == types::level_contents(levels@),
            side_fits(all),
            items == all.map_values(|level: (Price, Seq<OrderView>)| level_text(level)),
            out@ == seq!['['] + text::joined(items.take(i as int), seq![',']),
        decreases levels@.len() - i,
    {
        proof {
            text::lemma_joined_next(items, i as int, seq![',']);
            assert(all[i as int].1 == levels@[i as int].1@);
        }
        if i > 0 {
            out.push(',');
        }
        decimal::write_i64(&mut out, levels[i].0);
        out.push('@');
        decimal::write_i64(&mut out, total(&levels[i].1));
        i = i + 1;
        assert(out@ =~= seq!['['] + text::joined(items.take(i as int), seq![',']));
    }
    assert(items.take(i as int) =~= items);
    out.push(']');
    assert(out@ =~= side_text(all));
    out
}

/// Writes a book, one line for each side: at each price the units on offer.
pub fn format_snapshot(snapshot: &BookSnapshot) -> (out: String)
    requires
        snapshot_fits(snapshot@),
    ensures
        out@ == snapshot_text(snapshot@),
{
    let mut out = "BIDS ".to_owned();
    out.append(&format_side(&snapshot.bids));
    out.push('\n');
    out.append("ASKS ");
    out.append(&format_side(&snapshot.asks));
    assert(out@ =~= snapshot_text(snapshot@));
    out
}

/// Writes a list of trades.
pub fn format_fills(fills: &[Fill]) -> (out: String)
    ensures
        out@ == fills_text(fills@),
{
    let ghost items = fills@.map_values(|fill: Fill| fill_text(fill));
    let mut out = "fills=[".to_owned();
    let mut i: usize = 0;
    assert(out@ =~= "fills=["@ + text::joined(items.take(0), seq![',']));
    while i < fills.len()
        invariant
            i <= fills@.len(),
            items == fills@.map_values(|fill: Fill| fill_text(fill)),
            out@ == "fills=["@ + text::joined(items.take(i as int), seq![',']),
        decreases fills@.len() - i,
    {
        proof {
            text::lemma_joined_next(items, i as int, seq![',']);
        }
        if i > 0 {
            out.push(',');
        }
        write_fill(&mut out, &fills[i]);
        i = i + 1;
        assert(out@ =~= "fills=["@ + text::joined(items.take(i as int), seq![',']));
    }
    assert(items.take(i as int) =~= items);
    out.push(']');
    assert(out@ =~= fills_text(fills@));
    out
}

/// Writes a trade at the end of a text.
fn write_fill(out: &mut String, fill: &Fill)
    ensures
        final(out)@ == old(out)@ + fill_text(*fill),
{
    out.append("{seq=");
    decimal::write_u64(out, fill.seq);
    out.append(",maker=");
    decimal::write_u64(out, fill.maker);
    out.append(",taker=");
    decimal::write_u64(out, fill.taker);
    out.append(",price=");
    decimal::write_i64(out, fill.price);
    out.append(",qty=");
    decimal::write_i64(out, fill.qty);
    out.push('}');
    assert(out@ =~= old(out)@ + fill_text(*fill));
}

/// What is written of a side is one line.
pub proof fn lemma_side_text(levels: Seq<(Price, Seq<OrderView>)>)
    ensures
        text::lacks(side_text(levels), '\n'),
{
    let items = levels.map_values(|level: (Price, Seq<OrderView>)| level_text(level));
    assert forall|i: int| 0 <= i < items.len() implies text::lacks(#[trigger] items[i], '\n') by {
        decimal::lemma_decimal_chars(levels[i].0 as int);
        decimal::lemma_decimal_chars(depth(levels[i].1));
    }
    text::lemma_joined_lacks(items, seq![','], '\n');
}

/// The name of a side.
pub open spec fn side_name(side: Side) -> Seq<char> {
    match side {
        Side::Bid => "BID"@,
        Side::Ask => "ASK"@,
    }
}

/// A command as a client writes it.
pub open spec fn command_text(command: Command) -> Seq<char> {
    let space = seq![' '];
    match command {
        Command::Limit { id, side, price, qty } => "LIMIT"@ + space + (side_name(side) + space + (
        decimal::decimal(id as int) + space + (decimal::decimal(price as int) + space
            + decimal::decimal(qty as int)))),
        Command::Cancel { id } => "CANCEL"@ + space + decimal::decimal(id as int),
    }
}

/// A written number is a word.
proof fn lemma_number_word(n: int)
    ensures
        text::is_word(decimal::decimal(n)),
{
    decimal::lemma_decimal_chars(n);
    assert forall|i: int| 0 <= i < decimal::decimal(n).len() implies !text::is_space(
        #[trigger] decimal::decimal(n)[i],
    ) by {
        assert(decimal::is_digit(decimal::decimal(n)[i]) || decimal::decimal(n)[i] == '-');
    }
}

/// Every command can be written in the protocol: reading it gives the command back.
pub proof fn written_commands_are_read_back(command: Command)
    ensures
        command_read(command_text(command)) == Ok::<Command, ProtocolFailure>(command),
{
    reveal_strlit("LIMIT");
    reveal_strlit("CANCEL");
    reveal_strlit("SNAPSHOT");
    reveal_strlit("BID");
    reveal_strlit("ASK");
    reveal_strlit("B");
    reveal_strlit("A");
    assert(text::capitals("LIMIT"@) =~= "LIMIT"@);
    assert(text::capitals("CANCEL"@) =~= "CANCEL"@);
    assert(text::capitals("BID"@) =~= "BID"@);
    assert(text::capitals("ASK"@) =~= "ASK"@);
    assert("LIMIT"@.len() != "CANCEL"@.len());
    assert("ASK"@[0] != "BID"@[0]);
    let space = seq![' '];
    match command {
        Command::Limit { id, side, price, qty } => {
            let a = decimal::decimal(id as int);
            let b = decimal::decimal(price as int);
            let c = decimal::decimal(qty as int);
            lemma_number_word(id as int);
            lemma_number_word(price as int);
            lemma_number_word(qty as int);
            text::lemma_words_only(c);
            text::lemma_words_first(b, c);
            text::lemma_words_first(a, b + space + c);
            text::lemma_words_first(side_name(side), a + space + (b + space + c));
            text::lemma_words_first(
                "LIMIT"@,
                side_name(side) + space + (a + space + (b + space + c)),
            );
            assert(text::words(command_text(command)) =~= seq![
                "LIMIT"@,
                side_name(side),
                a,
                b,
                c,
            ]);
            decimal::written_numbers_are_read_back(id, price);
            decimal::written_numbers_are_read_back(id, qty);
        },
        Command::Cancel { id } => {
            let a = decimal::decimal(id as int);
            lemma_number_word(id as int);
            text::lemma_words_only(a);
            text::lemma_words_first("CANCEL"@, a);
            assert(text::words(command_text(command)) =~= seq!["CANCEL"@, a]);
            decimal::written_numbers_are_read_back(id, 0);
        },
    }
}

/// Small letters may stand for capitals in every command.
pub proof fn capitals_do_not_matter(line: Seq<char>)
    ensures
        command_read(line) is Ok <==> command_read(text::capitals(line)) is Ok,
        command_read(line) is Ok ==> command_read(line) == command_read(text::capitals(line)),
{
    text::lemma_words_capitals(line);
    let words = text::words(line);
    let up = text::words(text::capitals(line));
    assert forall|i: int| 0 <= i < words.len() implies {
        &&& up[i] == text::capitals(#[trigger] words[i])
        &&& text::capitals(up[i]) == up[i]
        &&& decimal::u64_read(up[i]) == decimal::u64_read(words[i])
        &&& decimal::i64_read(up[i]) == decimal::i64_read(words[i])
    } by {
        assert(text::capitals(text::capitals(words[i])) =~= text::capitals(words[i]));
        decimal::lemma_capitals_read(words[i]);
    }
    if words.len() > 0 {
        assert(up[0] == text::capitals(words[0]));
        if words.len() == 5 {
            assert(up[1] == text::capitals(words[1]));
            assert(up[2] == text::capitals(words[2]));
            assert(up[3] == text::capitals(words[3]));
            assert(up[4] == text::capitals(words[4]));
        } else if words.len() == 2 {
            assert(up[1] == text::capitals(words[1]));
        }
    }
}

} // verus!
