//! Observability proxy for line-delimited JSON-RPC traffic.
//!
//! - `frame`: splitting a byte stream into newline-delimited frames
//! - `event`: telemetry events, their JSON lines, and events from frames
//! - `stdio`: the stdio proxy's decisions for each input, with its laws
//! - `sink`: choosing a sink, the console sink, and the socket client's state
//! - `hub`: the hub's side of a telemetry connection
//! - `command`: the command line and its parser
//! - `cli`: setting up a run, the socket path, finding the graphical client
//! - `storage`: queries over the records of recorded sessions
//! - `ws`: tapping WebSocket frames and writing injected ones
//! - `text`, `json`: text helpers, and the calls into serde_json

pub mod cli;
pub mod command;
pub mod event;
pub mod frame;
pub mod hub;
pub mod json;
pub mod sink;
pub mod stdio;
pub mod storage;
pub mod text;
pub mod ws;
