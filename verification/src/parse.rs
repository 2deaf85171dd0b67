//! The contract that every parser satisfies, and the result that it returns.

use crate::combinators;
use vstd::prelude::*;

verus! {

/// What a parser returns: `Ok` with the unconsumed remainder of the input and the parsed
/// value, or `Err` with the slice at which nothing matched.
pub type ParseResult<'a, Output> = Result<(&'a str, Output), &'a str>;

/// A parse result as contracts speak of it: slices are read as sequences of characters.
#[verifier::ext_equal]
pub enum Outcome<T> {
    /// A prefix of the input was consumed; `rest` is what follows it.
    Matched { value: T, rest: Seq<char> },
    /// Nothing matched; `at` is the slice that is handed back.
    Failed { at: Seq<char> },
}

impl<T> Outcome<T> {
    /// The input that the outcome hands back: the remainder of a match, or the slice of
    /// a failure.
    pub open spec fn position(self) -> Seq<char> {
        match self {
            Outcome::Matched { rest, .. } => rest,
            Outcome::Failed { at } => at,
        }
    }
}

/// An outcome is viewed by viewing its value.
impl<T: View> View for Outcome<T> {
    type V = Outcome<T::V>;

    open spec fn view(&self) -> Outcome<T::V> {
        match *self {
            Outcome::Matched { value, rest } => Outcome::Matched { value: value@, rest },
            Outcome::Failed { at } => Outcome::Failed { at },
        }
    }
}

/// An outcome is viewed in depth by viewing its value in depth.
impl<T: DeepView> DeepView for Outcome<T> {
    type V = Outcome<T::V>;

    open spec fn deep_view(&self) -> Outcome<T::V> {
        match *self {
            Outcome::Matched { value, rest } => Outcome::Matched { value: value.deep_view(), rest },
            Outcome::Failed { at } => Outcome::Failed { at },
        }
    }
}

/// The outcome that a parse result stands for.
pub open spec fn outcome<T>(r: ParseResult<'_, T>) -> Outcome<T> {
    match r {
        Ok((rest, value)) => Outcome::Matched { value, rest: rest@ },
        Err(at) => Outcome::Failed { at: at@ },
    }
}

/// A parser of values of type `T`.
///
/// A parser is described by a relation: `admits(input, out)` holds of every outcome that
/// `parse` may return on `input`. For a parser built from functions with exact contracts
/// the relation holds of one outcome only.
pub trait Parse<'a, T> {
    /// Whether the parser may be run: every function inside it accepts whatever it can be
    /// handed, and every parser inside it keeps this contract.
    spec fn lawful(&self) -> bool;

    /// Whether `parse` may return `out` on `input`.
    spec fn admits(&self, input: Seq<char>, out: Outcome<T>) -> bool;

    /// Runs the parser on `data`. The result is an outcome that the parser admits, and it
    /// only ever narrows the input: the remainder of a match is a suffix of `data`, and so
    /// is the slice of a failure.
    fn parse(&self, data: &'a str) -> (r: ParseResult<'a, T>)
        requires
            self.lawful(),
        ensures
            self.admits(data@, outcome(r)),
            outcome(r).position().is_suffix_of(data@),
    ;
}

/// Any function from a slice to a parse result is a parser, provided that it accepts every
/// slice and hands back suffixes of what it was given.
impl<'a, F, T> Parse<'a, T> for F where F: Fn(&'a str) -> ParseResult<'a, T> {
    open spec fn lawful(&self) -> bool {
        &&& forall|s: &'a str| #[trigger] self.requires((s,))
        &&& forall|s: &'a str, r: ParseResult<'a, T>| #[trigger]
            self.ensures((s,), r) ==> outcome(r).position().is_suffix_of(s@)
    }

    open spec fn admits(&self, input: Seq<char>, out: Outcome<T>) -> bool {
        exists|s: &'a str, r: ParseResult<'a, T>| #[trigger]
            self.ensures((s,), r) && s@ == input && outcome(r) == out
    }

    fn parse(&self, data: &'a str) -> (r: ParseResult<'a, T>) {
        self(data)
    }
}

/// What `lawful` and `admits` mean for a function used as a parser. Verus does not unfold
/// them for a named function or a closure by itself; a caller states this lemma of the
/// function it passes on.
pub proof fn lemma_function_parser<'a, F, T>(f: F) where F: Fn(&'a str) -> ParseResult<'a, T>
    ensures
        f.lawful() <==> {
            &&& forall|s: &'a str| #[trigger] f.requires((s,))
            &&& forall|s: &'a str, r: ParseResult<'a, T>| #[trigger]
                f.ensures((s,), r) ==> outcome(r).position().is_suffix_of(s@)
        },
        forall|input: Seq<char>, out: Outcome<T>| #[trigger]
            f.admits(input, out) <==> exists|s: &'a str, r: ParseResult<'a, T>| #[trigger]
                f.ensures((s,), r) && s@ == input && outcome(r) == out,
{
}

/// A parser behind a pointer, for a parser whose type cannot be written down.
#[verifier::reject_recursive_types(Output)]
pub struct BoxedParser<'a, Output> {
    parser: Box<dyn Parse<'a, Output> + 'a>,
}

impl<'a, Output> BoxedParser<'a, Output> {
    /// Boxes `parser`. The box parses as `parser` does.
    pub fn new<P>(parser: P) -> (boxed: Self) where P: Parse<'a, Output> + 'a
        ensures
            boxed.lawful() <==> parser.lawful(),
            forall|input: Seq<char>, out: Outcome<Output>| #[trigger]
                boxed.admits(input, out) <==> parser.admits(input, out),
    {
        BoxedParser { parser: Box::new(parser) }
    }
}

impl<'a, Output> Parse<'a, Output> for BoxedParser<'a, Output> {
    closed spec fn lawful(&self) -> bool {
        self.parser.lawful()
    }

    closed spec fn admits(&self, input: Seq<char>, out: Outcome<Output>) -> bool {
        self.parser.admits(input, out)
    }

    fn parse(&self, data: &'a str) -> (r: ParseResult<'a, Output>) {
        self.parser.parse(data)
    }
}

/// The operators that are most often chained, as methods. Each boxes the parser that the
/// operator of the same name builds from this one.
impl<'a, Output: 'a> BoxedParser<'a, Output> {
    /// `combinators::map(self, map_fn)`, boxed.
    pub fn map<F, NewOutput>(self, map_fn: F) -> (boxed: BoxedParser<'a, NewOutput>) where
        NewOutput: 'a,
        F: Fn(Output) -> NewOutput + 'a,

        ensures
            boxed.lawful() <==> combinators::map_lawful(self, map_fn),
            forall|input: Seq<char>, out: Outcome<NewOutput>| #[trigger]
                boxed.admits(input, out) <==> combinators::map_admits(self, map_fn, input, out),
    {
        BoxedParser::new(combinators::map(self, map_fn))
    }

    /// `combinators::filter(self, pred_fn)`, boxed.
    pub fn filter<F>(self, pred_fn: F) -> (boxed: BoxedParser<'a, Output>) where
        F: Fn(&Output) -> bool + 'a,

        ensures
            boxed.lawful() <==> combinators::filter_lawful(self, pred_fn),
            forall|input: Seq<char>, out: Outcome<Output>| #[trigger]
                boxed.admits(input, out) <==> combinators::filter_admits(
                    self,
                    pred_fn,
                    input,
                    out,
                ),
    {
        BoxedParser::new(combinators::filter(self, pred_fn))
    }

    /// `combinators::and_then(self, f)`, boxed.
    pub fn and_then<F, NextParser, NewOutput>(self, f: F) -> (boxed: BoxedParser<'a, NewOutput>) where
        NewOutput: 'a,
        NextParser: Parse<'a, NewOutput> + 'a,
        F: Fn(Output) -> NextParser + 'a,

        ensures
            boxed.lawful() <==> combinators::and_then_lawful(self, f),
            forall|input: Seq<char>, out: Outcome<NewOutput>| #[trigger]
                boxed.admits(input, out) <==> combinators::and_then_admits(self, f, input, out),
    {
        BoxedParser::new(combinators::and_then(self, f))
    }
}

} // verus!
