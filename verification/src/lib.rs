//! A low-latency limit order book matching engine, with the tools around it.
//!
//! - [`book`]: the matching engine. Slab-allocated order storage, intrusive
//!   per-price FIFO queues, GTC/IOC/FOK, cancel and cancel/replace.
//! - [`wire`]: binary order-entry codec (fixed layouts, zero-alloc streaming
//!   decode).
//! - [`flow`], [`replay`], [`workloads`]: deterministic order flow.
//! - [`strategy`], [`account`], [`sim`]: event-driven backtester that uses the
//!   engine as a simulated exchange, with queue-position-accurate fills.
//! - [`dashboard`]: what a live view of a simulation shows and asks for.
//!
//! [`model`] says what the engine does, as mathematics; [`laws`],
//! [`requests`] and [`flat`] what follows for its users. [`sim_laws`],
//! [`run_laws`] and [`safety`] do so for the backtester, [`flow_laws`],
//! [`strategy_laws`] and [`dashboard_laws`] for what their names say. [`slab`],
//! [`ladder`], [`hash`] and [`parts`] are the structures the engine is made of
//! and how they represent a book.
pub mod account;
pub mod book;
pub mod dashboard;
pub mod dashboard_laws;
pub mod events;
pub mod flat;
pub mod flow;
pub mod flow_laws;
pub mod hash;
pub mod ladder;
pub mod laws;
pub mod lemmas;
pub mod model;
pub mod parts;
pub mod replay;
pub mod requests;
pub mod rng;
pub mod run_laws;
pub mod safety;
pub mod sim;
pub mod sim_laws;
pub mod slab;
pub mod strategy;
pub mod strategy_laws;
pub mod types;
pub mod wire;
pub mod workloads;

pub use account::Account;
pub use book::OrderBook;
pub use events::{CountingSink, Event, EventSink, NullSink, VecSink};
pub use sim::{run, Report, Sim, SimConfig};
pub use strategy::{
    Action, IdGen, MarketMaker, MarketView, Momentum, Strategy, STRATEGY_ID_BASE,
};
pub use types::{OrderId, Price, Qty, RejectReason, Side, Tif};
pub use wire::{decode, encode, DecodeError, Msg, Reader};
