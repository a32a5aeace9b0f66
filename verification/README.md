# Slipstream

A small limit-order book and matching engine whose behaviour is stated in contracts and proved with
Verus. Orders match by price and then by time, accepted commands are numbered as events and kept in
an append-only text log, and replaying the log rebuilds the book and the trades.

## Layout

`src/` is the verified library.

- `types`: orders, commands, events, trades, snapshots.
- `book`: the mathematical model; what each command does to the book.
- `ladder`, `engine`: the executable engine, proved to do what the model says.
- `text`, `decimal`: splitting, trimming and joining text; numbers in decimal notation.
- `log`: the event log, one line for each event.
- `protocol`, `session`: the text protocol and the conversation with a client.
- `web`: HTTP requests and responses, with books in JSON.
- `validity`, `priority`: lemmas about the book.
- `laws`, `recovery`: what holds of the engine, and of an engine that is rebuilt from its log.

`app/` is the program around it: arguments, files, sockets and threads.

## Commands

- `demo` runs a few orders and recovers them from the log.
- `serve [addr] [log_path]` serves the text protocol over TCP.
- `web [addr] [log_path]` serves the browser console.
- `submit <addr> <command>` sends one command: `LIMIT <BID|ASK> <id> <price> <qty>`,
  `CANCEL <id>`, `SNAPSHOT` or `QUIT`.
- `recover [log_path]` rebuilds the book from a log and prints it.
