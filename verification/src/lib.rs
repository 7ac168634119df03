//! Turning a flat log of parsing events into a nested stream of tree-building
//! calls.
//!
//! A parser records what it recognises as a linear log of [`event::Event`]s.
//! [`event::process`] consumes such a log in one pass and drives a
//! [`tree_sink::TreeSink`] with node openings, closings, leaf tokens and
//! diagnostics whose nesting is the shape of the syntax tree. The pass
//! resolves *forward parents*: a node start may name a later node start as its
//! structural parent, and the parent is then opened first.
//!
//! - [`event`]: the log, the model of the pass, and the pass itself.
//! - [`tree_sink`]: the sink's interface and the nesting of calls.
//! - [`recorder`] and [`tree`]: a sink that keeps the calls and one that
//!   builds the tree.
//! - [`checked`]: the pass that hands on all of a sound log or nothing.
//! - [`laws`]: what holds of every pass.
//! - [`syntax_kind`], [`error`]: the tags and diagnostics that the pass
//!   carries.
//! - [`preamble`]: the header of a source file that a tool has written.
pub mod checked;
pub mod error;
pub mod event;
pub mod laws;
pub mod preamble;
pub mod recorder;
pub mod syntax_kind;
pub mod tree;
pub mod tree_sink;
