//! The range quantifier of regular expressions: `{m}`, `{m,}` and `{m,n}`.

use crate::combinators;
use crate::parse::{Outcome, Parse};
use crate::util::{lemma_single_prefix, match_literal, number, number_outcome};
use vstd::prelude::*;

verus! {

/// What follows the lower bound inside the braces.
#[derive(Debug, PartialEq)]
pub enum Bound {
    /// Nothing: the count is exact.
    Exact,
    /// A comma and a number: the count has this upper bound.
    Upper(usize),
    /// A comma alone: the count has no upper bound.
    Unbounded,
}

/// How often something is to be repeated: `lower` times at least, and `upper` times at
/// most where there is an upper bound.
#[derive(Debug, PartialEq)]
pub struct RangeQuantifier {
    lower: usize,
    upper: Option<usize>,
}

/// A range quantifier as contracts speak of it.
pub struct Quantifier {
    pub lower: nat,
    pub upper: Option<nat>,
}

impl View for RangeQuantifier {
    type V = Quantifier;

    closed spec fn view(&self) -> Quantifier {
        Quantifier {
            lower: self.lower as nat,
            upper: match self.upper {
                Some(upper) => Some(upper as nat),
                None => None,
            },
        }
    }
}

impl RangeQuantifier {
    /// The quantifier from `lower` to `upper`, or from `lower` on where `upper` is `None`.
    pub fn new(lower: usize, upper: Option<usize>) -> (quantifier: Self)
        ensures
            quantifier@.lower == lower,
            quantifier@.upper == match upper {
                Some(upper) => Some(upper as nat),
                None => None::<nat>,
            },
    {
        Self { lower, upper }
    }
}

/// Whether `input` starts with the character `c`.
pub open spec fn starts_with(input: Seq<char>, c: char) -> bool {
    input.len() > 0 && input[0] == c
}

/// What `upper_bound` does with `input`: it consumes a comma if there is one, and after a
/// comma a number if there is one. Without a comma it consumes nothing and the bound is
/// `Exact`, with a comma and a number the bound is that number, with a comma alone it is
/// `Unbounded`. It never fails.
pub open spec fn upper_bound_outcome(input: Seq<char>) -> Outcome<Bound> {
    if starts_with(input, ',') {
        match number_outcome(input.skip(1)) {
            Outcome::Matched { value, rest } => Outcome::Matched {
                value: Bound::Upper(value as usize),
                rest,
            },
            Outcome::Failed { .. } => Outcome::Matched {
                value: Bound::Unbounded,
                rest: input.skip(1),
            },
        }
    } else {
        Outcome::Matched { value: Bound::Exact, rest: input }
    }
}

/// Matches what may follow the lower bound of a quantifier: nothing, a comma, or a comma
/// and a number.
pub fn upper_bound<'a>() -> (parser: impl Parse<'a, Bound>)
    ensures
        parser.lawful(),
        forall|input: Seq<char>, out: Outcome<Bound>| #[trigger]
            parser.admits(input, out) ==> out == upper_bound_outcome(input),
{
    let upper = combinators::optional(number());
    let after_comma = combinators::right(match_literal(","), upper);
    let found = combinators::optional(after_comma);
    let to_bound = |found: Option<Option<u64>>| -> (bound: Bound)
        ensures
            bound == match found {
                None => Bound::Exact,
                Some(None) => Bound::Unbounded,
                Some(Some(number)) => Bound::Upper(number as usize),
            },
        {
            match found {
                None => Bound::Exact,
                Some(None) => Bound::Unbounded,
                Some(Some(number)) => Bound::Upper(number as usize),
            }
        };
    let parser = combinators::map(found, to_bound);
    proof {
        reveal_strlit(",");
        assert forall|input: Seq<char>, out: Outcome<Bound>| #[trigger]
            parser.admits(input, out) implies out == upper_bound_outcome(input) by {
            lemma_single_prefix(',', input);
        }
    }
    parser
}

/// The quantifier that the lower bound `lower` makes with what follows it.
pub open spec fn quantifier_of(lower: u64, bound: Bound) -> Quantifier {
    Quantifier {
        lower: (lower as usize) as nat,
        upper: match bound {
            Bound::Exact => Some((lower as usize) as nat),
            Bound::Upper(upper) => Some(upper as nat),
            Bound::Unbounded => None,
        },
    }
}

/// What `range_quantifier` does with `input`.
///
/// The input must start with `{`, or the match fails with `input`. A number must follow,
/// or the match fails with what follows the brace. After the number comes what
/// `upper_bound` matches, and then `}` must follow, or the match fails with the slice at
/// which the brace was looked for. Nothing is skipped anywhere: a space after the comma
/// makes the closing brace go missing.
pub open spec fn quantifier_outcome(input: Seq<char>) -> Outcome<Quantifier> {
    if !starts_with(input, '{') {
        Outcome::Failed { at: input }
    } else {
        match number_outcome(input.skip(1)) {
            Outcome::Failed { at } => Outcome::Failed { at },
            Outcome::Matched { value: lower, rest: after_lower } => {
                let bound = upper_bound_outcome(after_lower);
                if starts_with(bound->rest, '}') {
                    Outcome::Matched {
                        value: quantifier_of(lower, bound->value),
                        rest: bound->rest.skip(1),
                    }
                } else {
                    Outcome::Failed { at: bound->rest }
                }
            },
        }
    }
}

/// What the opening brace and the lower bound do with `input`.
spec fn lower_outcome(input: Seq<char>) -> Outcome<u64> {
    if starts_with(input, '{') {
        number_outcome(input.skip(1))
    } else {
        Outcome::Failed { at: input }
    }
}

/// What the opening brace and the two bounds do with `input`.
spec fn bounds_outcome(input: Seq<char>) -> Outcome<(u64, Bound)> {
    match lower_outcome(input) {
        Outcome::Failed { at } => Outcome::Failed { at },
        Outcome::Matched { value: lower, rest } => {
            let bound = upper_bound_outcome(rest);
            Outcome::Matched { value: (lower, bound->value), rest: bound->rest }
        },
    }
}

/// A parser for range quantifiers: `{m}` is exactly `m` times, `{m,}` is `m` times or
/// more, `{m,n}` is `m` to `n` times.
pub fn range_quantifier<'a>() -> (parser: impl Parse<'a, RangeQuantifier>)
    ensures
        parser.lawful(),
        forall|input: Seq<char>, out: Outcome<RangeQuantifier>| #[trigger]
            parser.admits(input, out) ==> out@ == quantifier_outcome(input),
{
    let opening = match_literal("{");
    let closing = match_literal("}");
    let digits = number();
    let lower = combinators::right(opening, digits);
    let upper = upper_bound();
    let bounds = combinators::pair(lower, upper);
    let braced = combinators::left(bounds, closing);
    let to_quantifier = |found: (u64, Bound)| -> (quantifier: RangeQuantifier)
        ensures
            quantifier@ == quantifier_of(found.0, found.1),
        {
            let lower = found.0 as usize;
            RangeQuantifier::new(
                lower,
                match found.1 {
                    Bound::Exact => Some(lower),
                    Bound::Upper(upper) => Some(upper),
                    Bound::Unbounded => None,
                },
            )
        };
    let parser = combinators::map(braced, to_quantifier);
    proof {
        reveal_strlit("{");
        reveal_strlit("}");
        assert forall|input: Seq<char>, first: Outcome<u64>| #[trigger]
            lower.admits(input, first) implies first == lower_outcome(input) by {
            lemma_single_prefix('{', input);
        }
        assert forall|input: Seq<char>, out: Outcome<RangeQuantifier>| #[trigger]
            parser.admits(input, out) implies out@ == quantifier_outcome(input) by {
            let both = bounds_outcome(input);
            if both is Matched {
                lemma_single_prefix('}', both->rest);
            }
        }
    }
    parser
}

} // verus!
