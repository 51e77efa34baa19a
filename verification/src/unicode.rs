//! The Unicode facts the tokenizer relies on, as given by the standard library.
//!
//! The contracts in this file are not proved: they state what the standard
//! library documents of its functions, and the proofs elsewhere rest on them.
//! The classification of characters and the case mapping are named, not
//! defined: they are whatever the standard library's Unicode tables say.

use vstd::prelude::*;

verus! {

/// Whether Unicode classifies `c` as `White_Space`.
pub uninterp spec fn unicode_whitespace(c: char) -> bool;

/// Whether Unicode classifies `c` as `Alphabetic`.
pub uninterp spec fn unicode_alphabetic(c: char) -> bool;

/// Whether Unicode classifies `c` as `Uppercase`.
pub uninterp spec fn unicode_uppercase(c: char) -> bool;

/// The lowercase equivalent of the text `s`, as Unicode's case mapping defines it.
pub uninterp spec fn unicode_lowercase(s: Seq<char>) -> Seq<char>;

/// `char::is_whitespace`: the result says whether `c` is `White_Space`.
pub assume_specification[ char::is_whitespace ](c: char) -> (b: bool)
    ensures
        b == unicode_whitespace(c),
;

/// `char::is_alphabetic`: the result says whether `c` is `Alphabetic`.
pub assume_specification[ char::is_alphabetic ](c: char) -> (b: bool)
    ensures
        b == unicode_alphabetic(c),
;

/// `char::is_uppercase`: the result says whether `c` is `Uppercase`.
pub assume_specification[ char::is_uppercase ](c: char) -> (b: bool)
    ensures
        b == unicode_uppercase(c),
;

/// `str::to_lowercase`: the result is the lowercase equivalent of `s`, a
/// function of the characters of `s` alone.
pub assume_specification[ str::to_lowercase ](s: &str) -> (r: String)
    ensures
        r@ == unicode_lowercase(s@),
;

/// `String::push`: appends `c` to the end of `s`.
pub assume_specification[ String::push ](s: &mut String, c: char)
    ensures
        final(s)@ == old(s)@.push(c),
;

} // verus!
