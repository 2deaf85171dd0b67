//! Laws that hold of the combinators, whatever parsers they are given.

use crate::combinators::{
    either_admits, fails_at, follows, is_run, lemma_repeat_follows, map_admits, productive,
    repeat_admits, run_of,
};
use crate::parse::{Outcome, Parse};
use vstd::prelude::*;

verus! {

/// Mapping with the identity changes nothing: whatever `map(parser, identity)` returns on
/// an input, `parser` returns on it.
///
/// The identity is any function that returns nothing but its argument.
pub proof fn law_map_identity<'a, P, F, A>(parser: P, identity: F, input: Seq<char>, out: Outcome<A>) where
    P: Parse<'a, A>,
    F: Fn(A) -> A,

    requires
        forall|a: A, b: A| #[trigger] identity.ensures((a,), b) ==> b == a,
    ensures
        map_admits(parser, identity, input, out) ==> parser.admits(input, out),
{
}

/// Ordered choice after a parser that always fails is the second parser:
/// `either(always_fail, parser)` admits on `input` the outcomes that `parser` admits, and
/// no others.
///
/// That `always_fail` admits an outcome on `input` is known of every input that it has
/// been run on.
pub proof fn law_either_after_failure<'a, P, Q, A>(
    always_fail: P,
    parser: Q,
    input: Seq<char>,
    out: Outcome<A>,
) where P: Parse<'a, A>, Q: Parse<'a, A>
    requires
        forall|s: Seq<char>, o: Outcome<A>| #[trigger] always_fail.admits(s, o) ==> o is Failed,
        exists|o: Outcome<A>| #[trigger] always_fail.admits(input, o),
    ensures
        either_admits(always_fail, parser, input, out) <==> parser.admits(input, out),
{
}

/// In an ordered choice the first match wins: where `parser1` matches on `input`,
/// `either(parser1, parser2)` admits the outcomes that `parser1` admits, and no others,
/// whatever `parser2` is.
pub proof fn law_either_first_match<'a, P, Q, A>(
    parser1: P,
    parser2: Q,
    input: Seq<char>,
    out: Outcome<A>,
) where P: Parse<'a, A>, Q: Parse<'a, A>
    requires
        forall|o: Outcome<A>| #[trigger] parser1.admits(input, o) ==> o is Matched,
    ensures
        either_admits(parser1, parser2, input, out) <==> parser1.admits(input, out),
{
}

/// `parser` admits, from `input` on, a run of fewer than `least` matches that ends in a
/// failure.
pub open spec fn falls_short<'a, T, P: Parse<'a, T>>(parser: P, least: nat, input: Seq<char>) -> bool {
    exists|positions: Seq<Seq<char>>, items: Seq<T>| #[trigger]
        is_run(parser, positions, items) && positions[0] == input && items.len() < least
            && fails_at(parser, positions.last())
}

/// The lower end of a repetition: `repeat(parser, range)` fails exactly where `parser`
/// falls short of the least count of the range, and then it hands back the whole input,
/// not the slice that the run had reached.
pub proof fn law_repeat_lower_bound<'a, T, P: Parse<'a, T>>(
    parser: P,
    least: nat,
    most: Option<nat>,
    input: Seq<char>,
    at: Seq<char>,
)
    ensures
        repeat_admits(parser, least, most, input, Outcome::<Vec<T>>::Failed { at }) <==> at
            == input && falls_short(parser, least, input),
{
}

/// The lower end of a repetition, counted: for a parser that does what `step` says and
/// consumes input whenever it matches, `repeat(parser, least..)` fails exactly where
/// `step` matches fewer than `least` times in a row from `input`, and then it hands back
/// the whole input.
pub proof fn law_repeat_counts<'a, T: DeepView, P: Parse<'a, T>>(
    parser: P,
    step: spec_fn(Seq<char>) -> Outcome<T::V>,
    least: nat,
    input: Seq<char>,
    out: Outcome<Vec<T>>,
)
    requires
        follows(parser, step),
        productive(parser),
        repeat_admits(parser, least, None, input, out),
    ensures
        out is Failed <==> run_of(step, input).0.len() < least,
        out is Failed ==> out->at == input,
{
    lemma_repeat_follows(parser, step, least, input, out);
}

} // verus!
