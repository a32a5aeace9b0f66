//! A limit-order book and matching engine.
//!
//! An [`Engine`] takes commands, matches orders by price and then by time, and numbers what it
//! carries out as events. An [`EventLog`] keeps the events as text, and replaying them rebuilds
//! the engine. [`protocol`] is the text that clients exchange with it, [`session`] and [`web`] are
//! the two ways of serving clients.
//!
//! [`book`] says what the engine does; [`laws`], [`outcomes`] and [`recovery`] say what follows
//! from it. [`notation`], [`records`], [`replies`] and [`pages`] say what holds of the texts that
//! come in and go out.
pub mod book;
pub mod decimal;
mod engine;
mod ladder;
pub mod laws;
pub mod log;
pub mod notation;
pub mod outcomes;
pub mod pages;
pub mod priority;
pub mod protocol;
pub mod records;
pub mod recovery;
pub mod replies;
pub mod session;
pub mod text;
mod types;
pub mod validity;
pub mod web;

pub use engine::Engine;
pub use log::{EventLog, LogError};
pub use types::{
    Accepted, BookSnapshot, Command, EngineError, Event, Fill, OrderId, OrderView, Price, Quantity,
    RestingOrder, Sequence, Side, SnapshotContents,
};
