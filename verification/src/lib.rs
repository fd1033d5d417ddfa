//! A verified core for a oneliner store: a newline-delimited text file of
//! single-line snippets, with append-if-new storage, substring search and
//! a bounded listing of entries.

pub mod laws;
pub mod lines;
pub mod ops;
pub mod path;
pub mod text;

use vstd::prelude::*;

verus! {

/// A snippet is a single line: it holds no line-break character.
pub open spec fn is_single_line(s: Seq<char>) -> bool {
    forall|i: int| 0 <= i < s.len() ==> s[i] != '\n'
}

} // verus!
