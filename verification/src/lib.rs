//! A declarative matcher for command lines, with its matching and its scope
//! resolution verified.
//!
//! A [`Parser`] is made from the tokens of a command line. The program then
//! declares, in the order of the tree they form, the flags, counters,
//! options, lists, positionals and subcommands that it knows. Each
//! declaration is resolved against the tokens at once and writes what it
//! finds into storage that the caller owns. A token that was matched is
//! claimed and never looked at again.
//!
//! Short options are written `-x`, long options `--name`. A value follows
//! as the next token or behind `=`. Short options without a value can be
//! glued into one token, `-abc`, and one that takes a value may end such a
//! cluster. The token `--` ends the matching: what stands behind it is
//! collected by the variadic positional and by nothing else.
//!
//! Subcommands open scopes. Only the scopes along the one path of
//! subcommands that the command line names are read; a declaration in any
//! other scope does nothing. Once the scope at the end of that path is
//! closed, nothing is read any more.
//!
//! While help is wanted, which `-h` or `--help` asks for, declarations bind
//! nothing and register themselves for the help instead.
//!
//! The first failure is final: every declaration after it returns it again
//! and leaves the parser and its target alone.
//!
//! The modules:
//!
//! - [`model`] is the parser as a mathematical state, with the steps of the
//!   match engine, and [`declare`] says what each declaration does to it;
//! - [`parser`] is the parser itself, and [`contracts`] holds what its
//!   declarations with a typed target promise;
//! - [`laws`] proves what holds of every parse, [`lemmas`] what the proofs
//!   of the parser need;
//! - [`printer`] keeps what is registered for the help and makes the texts;
//! - [`errors`], [`found`] and [`unused`] are the values handed out;
//! - [`bits`] and [`text`] hold what is taken on trust from outside.

pub mod bits;
pub mod contracts;
pub mod declare;
pub mod errors;
pub mod found;
pub mod laws;
pub mod lemmas;
pub mod model;
pub mod parser;
pub mod printer;
pub mod text;
pub mod unused;

pub use errors::Error;
pub use found::{FoundMatch, ValueLocation};
pub use parser::Parser;
pub use unused::{LooksLike, Unused};
