//! Character classification.
//!
//! The lexer sorts characters into whitespace, alphabetic, and numeric
//! classes exactly as std's Unicode tables do. The tables themselves are not
//! restated here: each class gets an uninterpreted name, and the
//! corresponding `char` method is trusted to compute it. Every statement the
//! lexer proves is relative to these names, so two characters that std
//! classifies alike are treated alike everywhere.

use vstd::prelude::*;

verus! {

/// What `char::is_whitespace` returns for `c`: membership in Unicode's
/// White_Space set, a property of the character alone.
pub uninterp spec fn whitespace_char(c: char) -> bool;

/// What `char::is_alphabetic` returns for `c`: membership in Unicode's
/// Alphabetic set, a property of the character alone.
pub uninterp spec fn alphabetic_char(c: char) -> bool;

/// What `char::is_numeric` returns for `c`: membership in Unicode's numeric
/// general categories, a property of the character alone.
pub uninterp spec fn numeric_char(c: char) -> bool;

/// Relies on `char::is_whitespace`: the result depends on the character
/// alone, and the call never panics.
pub assume_specification[ char::is_whitespace ](c: char) -> (r: bool)
    ensures
        r == whitespace_char(c),
;

/// Relies on `char::is_alphabetic`: the result depends on the character
/// alone, and the call never panics.
pub assume_specification[ char::is_alphabetic ](c: char) -> (r: bool)
    ensures
        r == alphabetic_char(c),
;

/// Relies on `char::is_numeric`: the result depends on the character alone,
/// and the call never panics.
pub assume_specification[ char::is_numeric ](c: char) -> (r: bool)
    ensures
        r == numeric_char(c),
;

/// An identifier character: alphabetic or an underscore. Digits are not
/// identifier characters, so a digit ends an identifier scan.
pub open spec fn id_char(c: char) -> bool {
    alphabetic_char(c) || c == '_'
}

/// Whether `c` may start or continue an identifier.
pub fn is_id_character(c: char) -> (r: bool)
    ensures
        r == id_char(c),
{
    c.is_alphabetic() || c == '_'
}

} // verus!
