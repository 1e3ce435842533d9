//! Keeps a presentation-side model of a live media-routing graph in step with
//! the registry of the engine that owns it.
//!
//! [`pipewire_impl`] is the side of the engine: a tracker of the objects the
//! engine has announced, which turns its notifications into messages and
//! checks the requests that come back. [`ui`] is the side of the display: the
//! graph of logical nodes, ports and links that those messages build up, the
//! order in which it is drawn, and the requests that editing it gives rise
//! to. The two sides share no state; each message and each request is a
//! plain value that a channel can carry from one to the other.
//!
//! [`order`] holds the depth-first ordering that the draw order rests on,
//! [`keyed`] the sequences of records found by a key that the graph is made
//! of, and [`text`] the few operations on text that reading properties
//! takes.
pub mod keyed;
pub mod order;
pub mod pipewire_impl;
pub mod text;
pub mod ui;
