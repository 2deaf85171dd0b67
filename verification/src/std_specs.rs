//! Contracts for the functions of the standard library that this crate calls and vstd
//! does not describe. Verus takes them on trust.

use vstd::prelude::*;

verus! {

/// `core::ops::RangeFrom`, a range with a lower end only; its one field is `start`.
#[verifier::external_type_specification]
pub struct ExRangeFrom<Idx>(core::ops::RangeFrom<Idx>);

/// `RangeInclusive::start` returns the lower end of the range.
pub assume_specification<Idx>[ core::ops::RangeInclusive::<Idx>::start ](
    range: &core::ops::RangeInclusive<Idx>,
) -> (start: &Idx)
    ensures
        *start == range@.start,
;

/// `RangeInclusive::end` returns the upper end of the range, which belongs to the range.
pub assume_specification<Idx>[ core::ops::RangeInclusive::<Idx>::end ](
    range: &core::ops::RangeInclusive<Idx>,
) -> (end: &Idx)
    ensures
        *end == range@.end,
;

/// Whether `char::is_alphabetic` holds of `c`: the character has the Unicode property
/// `Alphabetic`.
pub uninterp spec fn alphabetic(c: char) -> bool;

/// Whether `char::is_numeric` holds of `c`: the character is in one of the Unicode general
/// categories for numbers.
pub uninterp spec fn numeric(c: char) -> bool;

/// Whether `char::is_whitespace` holds of `c`: the character has the Unicode property
/// `White_Space`.
pub uninterp spec fn whitespace(c: char) -> bool;

/// `char::is_alphabetic` depends on the character alone.
pub assume_specification[ char::is_alphabetic ](c: char) -> (b: bool)
    ensures
        b == alphabetic(c),
;

/// `char::is_numeric` depends on the character alone.
pub assume_specification[ char::is_numeric ](c: char) -> (b: bool)
    ensures
        b == numeric(c),
;

/// `char::is_whitespace` depends on the character alone.
pub assume_specification[ char::is_whitespace ](c: char) -> (b: bool)
    ensures
        b == whitespace(c),
;

/// `char::is_alphanumeric` holds of the characters of which `char::is_alphabetic` or
/// `char::is_numeric` holds.
pub assume_specification[ char::is_alphanumeric ](c: char) -> (b: bool)
    ensures
        b == (alphabetic(c) || numeric(c)),
;

/// `String::push` appends one character to the string.
pub assume_specification[ String::push ](s: &mut String, c: char)
    ensures
        final(s)@ == old(s)@.push(c),
;

} // verus!
