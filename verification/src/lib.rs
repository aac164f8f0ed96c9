//! Delivery of edits from a native application to its webviews over a websocket.
//!
//! A webview's edits leave the renderer in numbered batches ([`queue`]). The server holds
//! every batch until the webview acknowledges it by its number ([`connections`],
//! [`message`]), through as many connections as that takes; [`delivery`], [`order`] and
//! [`flush`] state what holds of that over any number of steps, and [`barrier`] what queue and
//! connections give together: the renderer goes on only once the webview has acknowledged
//! everything. [`copies`] says how often a batch is held, [`moves`] where each operation leaves
//! it, and [`outcomes`] what becomes of it when the queue is polled. Whoever connects shows a key
//! ([`handshake`], [`keys`]). [`server`] is the state of the one server of an application, and
//! [`mobile`] what starting on Android takes.

pub mod ack;
pub mod barrier;
pub mod connections;
pub mod copies;
pub mod delivery;
pub mod flush;
pub mod handshake;
pub mod keys;
pub mod message;
pub mod mobile;
pub mod moves;
pub mod order;
pub mod outcomes;
pub mod queue;
pub mod server;
pub mod text;
