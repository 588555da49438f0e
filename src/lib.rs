//! A small HTML-like markup parser and serializer with verified contracts.
use vstd::prelude::*;

pub mod dom;
pub mod htmlparser;
pub mod shape;
pub mod tokenizer;

verus! {

/// `String::push` appends one character.
pub assume_specification[ String::push ](s: &mut String, ch: char)
    ensures
        final(s)@ == old(s)@.push(ch),
;

} // verus!
