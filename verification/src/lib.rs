//! Command-line argument parsing driven by a program's own usage text.
//!
//! A usage document is compiled into a table of leaves and a pattern tree;
//! an argument vector is tokenized and matched against the tree, and the
//! captures are folded into a map from canonical names to values.
//!
//! Every function states what it returns over sequences of characters and
//! plain models of the types: see the `View` of each type. The laws that
//! relate several functions are proof functions beside them.

pub mod text;
pub mod errors;
pub mod leaf;
pub mod options;
pub mod usage;
pub mod pattern;
pub mod grammar;
pub mod token;
pub mod matcher;
pub mod replay;
pub mod literal;
pub mod rounds;
pub mod written;
pub mod value;
pub mod fields;
pub mod dopt;
pub mod wordlist;
pub mod expect;

pub use dopt::Docopt;
pub use errors::Error;
pub use value::{ArgvMap, Value};
pub use expect::{args_agree, get_args, map_from_alist, same_args};
