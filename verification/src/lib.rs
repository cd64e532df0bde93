//! Incremental recognition of `xcodebuild` output: a stream of text lines
//! goes in, a sequence of structural events comes out.
//!
//! The text arrives line by line, while the things it speaks of (a command
//! with the steps that belong to it) span several lines. The parser of
//! [`common`] therefore keeps what it has received, gives the part that has
//! not become events yet to the grammar of [`grammar_parser`] after each new
//! line, and walks the trees that come back into events: targets, commands,
//! nested commands, diagnostics and the final status. The formatters of
//! [`formatter`] turn the events into text.
//!
//! The modules, leaves first:
//!
//! - [`text`]: strings and sequences of characters;
//! - [`tree`]: parse trees and the searches in them;
//! - [`scan`]: the shapes of a single line;
//! - [`grammar_parser`]: the grammar, from text to trees;
//! - [`common`]: events, the tree walker and the incremental parser;
//! - [`formatter`]: what is written for the events;
//! - [`driver`]: the steps of a run, from a line of input to the text to
//!   write;
//! - [`laws`]: what the trees of the grammar hold and what the walker makes
//!   of them: every tree of a parse can be walked, every command has a
//!   name, a walk announces each target once;
//! - [`pieces`]: the grammar takes a text piece by piece, and its trees
//!   stand for the whole text;
//! - [`lines`]: how lines made of words are read: arguments keep the order
//!   of the source;
//! - [`runs`]: the parser over many calls: nothing is consumed twice, each
//!   target is announced once, a command gives its events when it is
//!   complete and not before, text without a match stays, and input gives
//!   the same events in one call as line by line.

use vstd::prelude::*;

pub mod common;
pub mod driver;
pub mod formatter;
pub mod grammar_parser;
pub mod laws;
pub mod lines;
pub mod pieces;
pub mod runs;
pub mod scan;
pub mod text;
pub mod tree;

verus! {

} // verus!
