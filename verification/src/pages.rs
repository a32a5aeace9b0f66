//! What holds of the requests that browsers send and of the responses that they get.
use vstd::prelude::*;

use crate::book::EngineState;
use crate::decimal;
use crate::log::LogFailure;
use crate::notation;
use crate::protocol;
use crate::records;
use crate::replies;
use crate::text;
use crate::types::{EngineError, Event, Fill, OrderView, Price, Sequence, SnapshotContents};
use crate::web;
use crate::web::{Header, ResponseContents, Route, StepContents, WebResponse, WebStep};

verus! {

/// What is written of a level in JSON, piece by piece between commas.
pub open spec fn level_pieces(level: (Price, Seq<OrderView>)) -> Seq<Seq<char>> {
    seq![
        "{\"price\":"@ + decimal::decimal(level.0 as int),
        "\"qty\":"@ + decimal::decimal(
            level.1.fold_left(0int, |sum: int, order: OrderView| sum + order.qty),
        ),
        "\"orders\":"@ + decimal::decimal(level.1.len() as int) + seq!['}'],
    ]
}

/// A side in JSON stands between square brackets, and split at its commas it is three pieces for
/// each level, in order: the level's own price, the sum of the units of its orders, and the number
/// of its orders, each with its name.
pub proof fn levels_are_written_in_json_one_by_one(levels: Seq<(Price, Seq<OrderView>)>)
    ensures
        ({
            let s = web::side_array(levels);
            let inner = s.subrange(1, s.len() - 1);
            let pieces = text::fields(inner, ',');
            &&& s.len() >= 2
            &&& s[0] == '['
            &&& s[s.len() - 1] == ']'
            &&& levels.len() == 0 ==> inner == Seq::<char>::empty()
            &&& levels.len() > 0 ==> pieces.len() == 3 * levels.len()
            &&& forall|i: int|
                0 <= i < levels.len() ==> pieces.subrange(3 * i, 3 * i + 3) == level_pieces(
                    #[trigger] levels[i],
                )
        }),
{
    let items = levels.map_values(|level: (Price, Seq<OrderView>)| web::level_object(level));
    let inner = text::joined(items, seq![',']);
    let s = web::side_array(levels);
    assert(s.subrange(1, s.len() - 1) =~= inner);
    if levels.len() > 0 {
        lemma_levels(levels);
    } else {
        assert(inner =~= Seq::empty());
    }
}

/// The pieces of a level in JSON.
proof fn lemma_level_pieces(level: (Price, Seq<OrderView>))
    ensures
        text::fields(web::level_object(level), ',') == level_pieces(level),
{
    reveal_strlit("{\"price\":");
    reveal_strlit(",\"qty\":");
    reveal_strlit("\"qty\":");
    reveal_strlit(",\"orders\":");
    reveal_strlit("\"orders\":");
    replies::depths_are_sums(level.1);
    decimal::lemma_decimal_chars(level.0 as int);
    decimal::lemma_decimal_chars(protocol::depth(level.1));
    decimal::lemma_decimal_chars(level.1.len() as int);
    let comma = seq![','];
    let pieces = level_pieces(level);
    assert(web::level_object(level) =~= pieces[0] + comma + (pieces[1] + comma + pieces[2]));
    text::lemma_fields_only(pieces[2], ',');
    text::lemma_fields_first(pieces[1], pieces[2], ',');
    text::lemma_fields_first(pieces[0], pieces[1] + comma + pieces[2], ',');
    assert(text::fields(web::level_object(level), ',') =~= pieces);
}

/// The pieces of levels in JSON.
proof fn lemma_levels(levels: Seq<(Price, Seq<OrderView>)>)
    requires
        levels.len() > 0,
    ensures
        ({
            let items = levels.map_values(
                |level: (Price, Seq<OrderView>)| web::level_object(level),
            );
            let pieces = text::fields(text::joined(items, seq![',']), ',');
            &&& pieces.len() == 3 * levels.len()
            &&& forall|i: int|
                0 <= i < levels.len() ==> pieces.subrange(3 * i, 3 * i + 3) == level_pieces(
                    #[trigger] levels[i],
                )
        }),
    decreases levels.len(),
{
    let items = levels.map_values(|level: (Price, Seq<OrderView>)| web::level_object(level));
    let pieces = text::fields(text::joined(items, seq![',']), ',');
    let n = levels.len() - 1;
    lemma_level_pieces(levels[n]);
    if levels.len() == 1 {
        assert(pieces.subrange(0, 3) =~= level_pieces(levels[0]));
    } else {
        let front = levels.drop_last();
        let front_items = front.map_values(
            |level: (Price, Seq<OrderView>)| web::level_object(level),
        );
        let before = text::fields(text::joined(front_items, seq![',']), ',');
        assert(items.drop_last() =~= front_items);
        lemma_levels(front);
        text::lemma_fields_concat(text::joined(front_items, seq![',']), items.last(), ',');
        assert(pieces == before + level_pieces(levels[n]));
        assert forall|i: int| 0 <= i < levels.len() implies pieces.subrange(3 * i, 3 * i + 3)
            == level_pieces(#[trigger] levels[i]) by {
            if i < n {
                assert(levels[i] == front[i]);
                assert(pieces.subrange(3 * i, 3 * i + 3) =~= before.subrange(3 * i, 3 * i + 3));
            } else {
                assert(pieces.subrange(3 * i, 3 * i + 3) =~= level_pieces(levels[n]));
            }
        }
    }
}

/// A book in JSON has its bids and its asks, each under its name.
pub proof fn books_are_written_in_json_side_by_side(snapshot: SnapshotContents)
    ensures
        web::snapshot_object(snapshot) == "{\"bids\":"@ + web::side_array(snapshot.bids)
            + ",\"asks\":"@ + web::side_array(snapshot.asks) + "}"@,
{
    reveal_strlit("}");
    assert("}"@ =~= seq!['}']);
}

/// What a header line says. Nothing written on it ends the headers; behind `Content-Length:` at
/// its very start, the rest without white space around it is the length, or zero if that is no
/// number; and any other line says nothing.
pub proof fn headers_say_the_length(line: Seq<char>)
    ensures
        ({
            let name = "Content-Length:"@;
            let header = text::trimmed_end(line);
            let value = decimal::usize_read(text::trimmed(header.skip(name.len() as int)));
            if !records::written_on(line) {
                web::header_read(line) == Header::End
            } else if name.is_prefix_of(header) {
                web::header_read(line) == Header::ContentLength(
                    match value {
                        Some(length) => length,
                        None => 0,
                    },
                )
            } else {
                web::header_read(line) == Header::Other
            }
        }),
{
    notation::trimming_the_end_leaves_the_start(line);
    let header = text::trimmed_end(line);
    if header.len() > 0 {
        assert(header[header.len() - 1] == line[header.len() - 1]);
        assert(!text::is_space(line[header.len() - 1]));
    } else {
        assert forall|i: int| 0 <= i < line.len() implies text::is_space(#[trigger] line[i]) by {}
    }
}

/// A length that is written behind `Content-Length:`, with any white space around it, is read back.
pub proof fn written_lengths_are_read_back(a: Seq<char>, length: usize, b: Seq<char>)
    requires
        forall|i: int| 0 <= i < a.len() ==> text::is_space(#[trigger] a[i]),
        forall|i: int| 0 <= i < b.len() ==> text::is_space(#[trigger] b[i]),
    ensures
        web::header_read("Content-Length:"@ + a + decimal::decimal(length as int) + b)
            == Header::ContentLength(length),
{
    let name = "Content-Length:"@;
    let number = decimal::decimal(length as int);
    let kept = name + a + number;
    let line = kept + b;
    decimal::lemma_decimal_chars(length as int);
    decimal::lemma_digits(length as nat);
    assert(kept.last() == number.last());
    lemma_end_trimmed(kept, b);
    assert(kept.skip(name.len() as int) =~= a + number);
    lemma_start_trimmed(a, number);
    lemma_end_trimmed(number, Seq::empty());
    assert(number + Seq::<char>::empty() =~= number);
    assert(name.is_prefix_of(kept)) by {
        assert(kept.take(name.len() as int) =~= name);
    }
    assert(text::trimmed_end(line) == kept);
    assert(text::trimmed(kept.skip(name.len() as int)) == number);
    assert(decimal::usize_read(number) == Some(length));
}

/// Trimming the end takes the white space behind a text away.
proof fn lemma_end_trimmed(s: Seq<char>, b: Seq<char>)
    requires
        s.len() > 0,
        !text::is_space(s.last()),
        forall|i: int| 0 <= i < b.len() ==> text::is_space(#[trigger] b[i]),
    ensures
        text::trimmed_end(s + b) == s,
    decreases b.len(),
{
    if b.len() == 0 {
        assert(s + b =~= s);
    } else {
        assert(text::is_space(b[b.len() - 1]));
        assert((s + b).drop_last() =~= s + b.drop_last());
        assert forall|i: int| 0 <= i < b.drop_last().len() implies text::is_space(
            #[trigger] b.drop_last()[i],
        ) by {
            assert(b.drop_last()[i] == b[i]);
        }
        lemma_end_trimmed(s, b.drop_last());
    }
}

/// Trimming the start takes the white space before a text away.
proof fn lemma_start_trimmed(a: Seq<char>, s: Seq<char>)
    requires
        s.len() > 0,
        !text::is_space(s[0]),
        forall|i: int| 0 <= i < a.len() ==> text::is_space(#[trigger] a[i]),
    ensures
        text::trimmed_start(a + s) == s,
    decreases a.len(),
{
    if a.len() == 0 {
        assert(a + s =~= s);
    } else {
        assert(text::is_space(a[0]));
        assert((a + s).drop_first() =~= a.drop_first() + s);
        assert forall|i: int| 0 <= i < a.drop_first().len() implies text::is_space(
            #[trigger] a.drop_first()[i],
        ) by {
            assert(a.drop_first()[i] == a[i + 1]);
        }
        lemma_start_trimmed(a.drop_first(), s);
    }
}

/// The method and the path, as they are written, say what a request is for: `GET /` for the page,
/// `GET /api/snapshot` for the book, `POST /api/order` for a command, and nothing else.
pub proof fn routes_are_methods_and_paths(line: Seq<char>)
    ensures
        ({
            let words = text::words(line);
            let asks = |method: Seq<char>, path: Seq<char>|
                words.len() >= 2 && words[0] == method && words[1] == path;
            let route = web::route_read(line);
            &&& route == Route::Page <==> asks("GET"@, "/"@)
            &&& route == Route::Snapshot <==> asks("GET"@, "/api/snapshot"@)
            &&& route == Route::Order <==> asks("POST"@, "/api/order"@)
        }),
{
    reveal_strlit("GET");
    reveal_strlit("POST");
    reveal_strlit("/");
    reveal_strlit("/api/snapshot");
    reveal_strlit("/api/order");
    assert("GET"@.len() != "POST"@.len());
    assert("/"@.len() != "/api/snapshot"@.len());
}

/// A response has the status, the type and the length of its body in bytes, and then the body.
pub proof fn responses_have_a_head_and_a_body(
    status: Seq<char>,
    content_type: Seq<char>,
    body: Seq<char>,
)
    ensures
        web::response_text(status, content_type, body) == "HTTP/1.1 "@ + status
            + "\r\nContent-Type: "@ + content_type + "\r\nContent-Length: "@ + decimal::decimal(
            vstd::utf8::encode_utf8(body).len() as int,
        ) + "\r\nConnection: close\r\n\r\n"@ + body,
{
}

/// Split at its line feeds, a response is a line for each header and an empty one, each ended as
/// HTTP ends lines, and then the body. The length that it gives is read as the number of bytes of
/// the body.
pub proof fn responses_are_read_line_by_line(
    status: Seq<char>,
    content_type: Seq<char>,
    body: Seq<char>,
)
    requires
        text::lacks(status, '\n'),
        text::lacks(content_type, '\n'),
    ensures
        ({
            let bytes = vstd::utf8::encode_utf8(body).len();
            let lines = text::fields(web::response_text(status, content_type, body), '\n');
            &&& lines.len() > 5
            &&& lines[0] == "HTTP/1.1 "@ + status + seq!['\r']
            &&& lines[1] == "Content-Type: "@ + content_type + seq!['\r']
            &&& bytes <= usize::MAX ==> web::header_read(lines[2]) == Header::ContentLength(
                bytes as usize,
            )
            &&& lines[3] == "Connection: close"@ + seq!['\r']
            &&& lines[4] == seq!['\r']
            &&& lines.skip(5) == text::fields(body, '\n')
        }),
{
    let bytes = vstd::utf8::encode_utf8(body).len();
    let number = decimal::decimal(bytes as int);
    let feed = seq!['\n'];
    let l0 = "HTTP/1.1 "@ + status + seq!['\r'];
    let l1 = "Content-Type: "@ + content_type + seq!['\r'];
    let l2 = "Content-Length:"@ + seq![' '] + number + seq!['\r'];
    let l3 = "Connection: close"@ + seq!['\r'];
    let l4 = seq!['\r'];
    let after3 = l4 + feed + body;
    let after2 = l3 + feed + after3;
    let after1 = l2 + feed + after2;
    let after0 = l1 + feed + after1;
    let all = web::response_text(status, content_type, body);
    reveal_strlit("HTTP/1.1 ");
    reveal_strlit("\r\nContent-Type: ");
    reveal_strlit("Content-Type: ");
    reveal_strlit("\r\nContent-Length: ");
    reveal_strlit("Content-Length:");
    reveal_strlit("\r\nConnection: close\r\n\r\n");
    reveal_strlit("Connection: close");
    decimal::lemma_decimal_chars(bytes as int);
    assert("\r\nContent-Type: "@ =~= seq!['\r', '\n'] + "Content-Type: "@);
    assert("\r\nContent-Length: "@ =~= seq!['\r', '\n'] + "Content-Length:"@ + seq![' ']);
    assert("\r\nConnection: close\r\n\r\n"@ =~= seq!['\r', '\n'] + "Connection: close"@ + seq![
        '\r',
        '\n',
        '\r',
        '\n',
    ]);
    assert(all =~= l0 + feed + after0);
    text::lemma_fields_first(l4, body, '\n');
    text::lemma_fields_first(l3, after3, '\n');
    text::lemma_fields_first(l2, after2, '\n');
    text::lemma_fields_first(l1, after1, '\n');
    text::lemma_fields_first(l0, after0, '\n');
    text::lemma_parts_len(body, text::only('\n'));
    let lines = text::fields(all, '\n');
    let rest = text::fields(body, '\n');
    assert(lines =~= seq![l0, l1, l2, l3, l4] + rest);
    assert(lines.skip(5) =~= rest);
    if bytes <= usize::MAX {
        written_lengths_are_read_back(seq![' '], bytes as usize, seq!['\r']);
    }
}

/// Whether a response says why a request cannot be met: it has the status, it is not ok, and a
/// reader of JSON gets the message back.
pub open spec fn says_no(response: ResponseContents, status: Seq<char>, message: Seq<char>) -> bool {
    let head = "{\"ok\":false,\"message\":\""@;
    &&& response.status == status
    &&& head.is_prefix_of(response.body)
    &&& web::string_read(response.body.skip(head.len() as int)) == Some((message, seq!['}']))
}

/// A refusal says why.
proof fn lemma_says_no(status: Seq<char>, message: Seq<char>)
    ensures
        says_no(web::refused(status, message), status, message),
{
    let head = "{\"ok\":false,\"message\":\""@;
    let body = web::refused(status, message).body;
    let rest = web::escaped(message) + seq!['"'] + seq!['}'];
    reveal_strlit("\"}");
    assert(body =~= head + rest);
    assert(body.skip(head.len() as int) =~= rest);
    assert(body.take(head.len() as int) =~= head);
    web::escaped_texts_are_read_back(message, seq!['}']);
}

/// What each request does and gets. A command becomes the event with the next number; carried out,
/// it is to be logged with its trades, and turned down, the response says why. All other requests
/// leave the engine as it is.
pub proof fn web_requests_are_answered(state: EngineState, route: Route, body: Seq<char>)
    ensures
        ({
            let (after, step) = web::answered(state, route, body);
            match route {
                Route::Page => after == state && step == StepContents::Page,
                Route::Snapshot => {
                    &&& after == state
                    &&& step is Reply
                    &&& step->Reply_0.status == "200 OK"@
                    &&& step->Reply_0.body == web::snapshot_object(state.book.shown())
                },
                Route::NotFound => {
                    &&& after == state
                    &&& step is Reply
                    &&& step->Reply_0.status == "404 Not Found"@
                    &&& step->Reply_0.body == "{\"ok\":false,\"message\":\"not found\"}"@
                },
                Route::Order => match protocol::command_read(body) {
                    Err(e) => {
                        &&& after == state
                        &&& step is Reply
                        &&& says_no(step->Reply_0, "400 Bad Request"@, e.message())
                    },
                    Ok(command) => {
                        let event = Event { seq: state.next_seq, command };
                        &&& after == state.after(event).0
                        &&& match state.after(event).1 {
                            Ok(fills) => step == StepContents::Persist(event, fills),
                            Err(EngineError::DuplicateOrder(id)) => {
                                &&& step is Reply
                                &&& says_no(
                                    step->Reply_0,
                                    "400 Bad Request"@,
                                    "duplicate order id "@ + decimal::decimal(id as int),
                                )
                            },
                            Err(EngineError::NonPositiveQuantity(qty)) => {
                                &&& step is Reply
                                &&& says_no(
                                    step->Reply_0,
                                    "400 Bad Request"@,
                                    "quantity must be positive, got "@ + decimal::decimal(
                                        qty as int,
                                    ),
                                )
                            },
                        }
                    },
                },
            }
        }),
{
    replies::lemma_words_trimmed(body);
    match protocol::command_read(body) {
        Err(e) => {
            lemma_says_no("400 Bad Request"@, e.message());
        },
        Ok(command) => {
            if let Err(e) = state.after(state.event(command)).1 {
                lemma_says_no("400 Bad Request"@, e.message());
            }
        },
    }
}

/// A command by itself is taken as it is in the body of a request.
pub proof fn orders_are_taken_without_white_space_around(state: EngineState, body: Seq<char>)
    ensures
        web::answered(state, Route::Order, body) == web::ordered(state, body),
{
    replies::lemma_words_trimmed(body);
}

/// Which requests need the engine, and when it can take them: a command needs a number that is
/// left, and a snapshot levels that can be added up.
pub proof fn web_requests_can_be_answered(state: EngineState, route: Route, body: Seq<char>)
    ensures
        ({
            let command = route == Route::Order && protocol::command_read(body) is Ok;
            &&& web::needs_engine(route, body) == (route == Route::Snapshot || command)
            &&& web::can_answer(state, route, body) == {
                &&& command ==> state.next_seq < Sequence::MAX
                &&& route == Route::Snapshot ==> protocol::snapshot_fits(state.book.shown())
            }
            &&& web::can_order(state, body) == (protocol::command_read(body) is Ok
                ==> state.next_seq < Sequence::MAX)
        }),
{
    replies::lemma_words_trimmed(body);
}

/// What a command that was carried out gets: once its event is logged, its number, its trades,
/// which a reader of JSON gets back as they are written, and the book; if it could not be logged,
/// what went wrong.
pub proof fn commands_are_confirmed_once_logged(
    state: EngineState,
    seq: Sequence,
    fills: Seq<Fill>,
    e: LogFailure,
)
    ensures
        ({
            let response = web::finished(state, seq, fills, Ok(()));
            let head = "{\"ok\":true,\"message\":\"accepted seq "@ + decimal::decimal(seq as int)
                + "\",\"fills\":\""@;
            &&& response.status == "200 OK"@
            &&& head.is_prefix_of(response.body)
            &&& web::string_read(response.body.skip(head.len() as int)) == Some(
                (
                    protocol::fills_text(fills),
                    ",\"snapshot\":"@ + web::snapshot_object(state.book.shown()) + seq!['}'],
                ),
            )
        }),
        says_no(
            web::finished(state, seq, fills, Err(e)),
            "500 Internal Server Error"@,
            e.message(),
        ),
{
    let body = web::finished(state, seq, fills, Ok(())).body;
    let head = "{\"ok\":true,\"message\":\"accepted seq "@ + decimal::decimal(seq as int)
        + "\",\"fills\":\""@;
    let after = ",\"snapshot\":"@ + web::snapshot_object(state.book.shown()) + seq!['}'];
    let rest = web::escaped(protocol::fills_text(fills)) + seq!['"'] + after;
    reveal_strlit("\",\"snapshot\":");
    reveal_strlit(",\"snapshot\":");
    assert("\",\"snapshot\":"@ =~= seq!['"'] + ",\"snapshot\":"@);
    assert(body =~= head + rest);
    assert(body.skip(head.len() as int) =~= rest);
    assert(body.take(head.len() as int) =~= head);
    web::escaped_texts_are_read_back(protocol::fills_text(fills), after);
    lemma_says_no("500 Internal Server Error"@, e.message());
}

/// What goes out for a step: JSON for a reply, with its own status and body, and the page else.
pub proof fn steps_go_out_as_responses(step: StepContents, page: Seq<char>)
    requires
        step !is Persist,
    ensures
        web::step_text(step, page) == match step {
            StepContents::Reply(response) => web::response_text(
                response.status,
                "application/json"@,
                response.body,
            ),
            _ => web::response_text("200 OK"@, "text/html; charset=utf-8"@, page),
        },
{
}

/// A response and a step hold what their fields hold.
pub proof fn responses_and_steps_hold_their_fields(response: WebResponse, step: WebStep)
    ensures
        response@.status == response.status@,
        response@.body == response.body@,
        match step {
            WebStep::Page => step@ == StepContents::Page,
            WebStep::Reply(reply) => step@ == StepContents::Reply(reply@),
            WebStep::Persist(accepted) => step@ == StepContents::Persist(
                accepted.event,
                accepted.fills@,
            ),
        },
{
}

/// The length of the body once some header lines have been read, none of them the last.
pub open spec fn length_read(headers: Seq<Seq<char>>) -> usize
    decreases headers.len(),
{
    if headers.len() == 0 {
        0
    } else {
        web::length_after(
            length_read(headers.drop_last()),
            web::header_read(headers.last()),
        )->Some_0
    }
}

/// The last length among the header lines counts, whatever stands before it and behind it; without
/// any, there is no body. The headers end with the first line that has nothing written on it.
pub proof fn the_last_length_counts(headers: Seq<Seq<char>>, next: Seq<char>)
    requires
        forall|i: int|
            0 <= i < headers.len() ==> records::written_on(#[trigger] headers[i]),
    ensures
        web::length_after(length_read(headers), web::header_read(next)) is None
            <==> !records::written_on(next),
        forall|k: int|
            0 <= k < headers.len() && web::header_read(#[trigger] headers[k]) is ContentLength && (
            forall|j: int|
                k < j < headers.len() ==> web::header_read(#[trigger] headers[j]) is Other)
                ==> web::header_read(headers[k]) == Header::ContentLength(length_read(headers)),
        (forall|j: int|
            0 <= j < headers.len() ==> web::header_read(#[trigger] headers[j]) is Other)
            ==> length_read(headers) == 0,
    decreases headers.len(),
{
    headers_say_the_length(next);
    if headers.len() > 0 {
        let front = headers.drop_last();
        let n = front.len() as int;
        assert(headers[n] == headers.last());
        assert forall|j: int| 0 <= j < n implies #[trigger] front[j] == headers[j] by {}
        assert forall|i: int| 0 <= i < front.len() implies records::written_on(
            #[trigger] front[i],
        ) by {
            assert(front[i] == headers[i]);
        }
        the_last_length_counts(front, headers[n]);
        assert forall|k: int|
            0 <= k < headers.len() && web::header_read(#[trigger] headers[k]) is ContentLength && (
            forall|j: int|
                k < j < headers.len() ==> web::header_read(
                    #[trigger] headers[j],
                ) is Other) implies web::header_read(headers[k]) == Header::ContentLength(
            length_read(headers),
        ) by {
            if k < n {
                assert(web::header_read(headers[n]) is Other);
                assert(front[k] == headers[k]);
                assert forall|j: int| k < j < front.len() implies web::header_read(
                    #[trigger] front[j],
                ) is Other by {
                    assert(front[j] == headers[j]);
                }
                assert(web::header_read(front[k]) is ContentLength);
            }
        }
        if forall|j: int|
            0 <= j < headers.len() ==> web::header_read(#[trigger] headers[j]) is Other {
            assert(web::header_read(headers[n]) is Other);
            assert forall|j: int| 0 <= j < front.len() implies web::header_read(
                #[trigger] front[j],
            ) is Other by {
                assert(front[j] == headers[j]);
            }
        }
    }
}

} // verus!
