//! The operators that build parsers from parsers.
//!
//! Each operator is described by a relation between the outcomes that its arguments admit
//! and the outcomes that the composed parser admits.

use crate::parse::{Outcome, Parse, ParseResult};
use vstd::prelude::*;

verus! {

/// A range of repetition counts, as `repeat` takes it: `3..` is three times or more,
/// `2..=5` is two to five times, `2..5` is two to four times.
pub trait CountRange {
    /// The least number of matches that the range asks for.
    spec fn least(&self) -> nat;

    /// The greatest number of matches that the range allows, if it has an upper end.
    spec fn most(&self) -> Option<nat>;

    /// The two ends of the range.
    fn ends(&self) -> (ends: (usize, Option<usize>))
        ensures
            ends.0 == self.least(),
            ends.1 is Some <==> self.most() is Some,
            ends.1 is Some ==> ends.1->0 == self.most()->0,
    ;
}

impl CountRange for core::ops::RangeFrom<usize> {
    open spec fn least(&self) -> nat {
        self.start as nat
    }

    open spec fn most(&self) -> Option<nat> {
        None
    }

    fn ends(&self) -> (ends: (usize, Option<usize>)) {
        (self.start, None)
    }
}

impl CountRange for core::ops::RangeInclusive<usize> {
    open spec fn least(&self) -> nat {
        self@.start as nat
    }

    open spec fn most(&self) -> Option<nat> {
        Some(self@.end as nat)
    }

    fn ends(&self) -> (ends: (usize, Option<usize>)) {
        (*self.start(), Some(*self.end()))
    }
}

impl CountRange for core::ops::Range<usize> {
    open spec fn least(&self) -> nat {
        self.start as nat
    }

    open spec fn most(&self) -> Option<nat> {
        if self.end == 0 {
            Some(0)
        } else {
            Some((self.end - 1) as nat)
        }
    }

    fn ends(&self) -> (ends: (usize, Option<usize>)) {
        if self.end == 0 {
            (self.start, Some(0))
        } else {
            (self.start, Some(self.end - 1))
        }
    }
}

/// The `i`-th of a row of matches: `parser` admits the match of `items[i]` from
/// `positions[i]`, which leaves `positions[i + 1]`.
pub open spec fn step_admitted<'a, T, P: Parse<'a, T>>(
    parser: P,
    positions: Seq<Seq<char>>,
    items: Seq<T>,
    i: int,
) -> bool {
    parser.admits(positions[i], Outcome::Matched { value: items[i], rest: positions[i + 1] })
}

/// `parser` admits the matches of `items` one after another, each starting where the one
/// before it ended: `positions` holds the start and then the end of each match.
pub open spec fn is_run<'a, T, P: Parse<'a, T>>(
    parser: P,
    positions: Seq<Seq<char>>,
    items: Seq<T>,
) -> bool {
    &&& positions.len() == items.len() + 1
    &&& forall|i: int| 0 <= i < items.len() ==> #[trigger] step_admitted(parser, positions, items, i)
}

/// `parser` admits a failure on `input`.
pub open spec fn fails_at<'a, T, P: Parse<'a, T>>(parser: P, input: Seq<char>) -> bool {
    exists|out: Outcome<T>| #[trigger] parser.admits(input, out) && out is Failed
}

/// Every match that `parser` admits consumes at least one character.
pub open spec fn productive<'a, T, P: Parse<'a, T>>(parser: P) -> bool {
    forall|input: Seq<char>, out: Outcome<T>| #[trigger]
        parser.admits(input, out) && out is Matched ==> out->rest.len() < input.len()
}

/// Whether a repetition that has matched `count` times must stop for its range's sake.
pub open spec fn count_is_full(least: nat, most: Option<nat>, count: nat) -> bool {
    most matches Some(m) && count >= m && count >= least
}

/// What a repetition returns after a run of matches of `items` from `input` that ends
/// at `end`.
///
/// Short of `least` matches the run must have ended in a failure, and the repetition fails
/// with the whole of `input`. Otherwise it returns the items and `end`; the run went on
/// until the range was full or the parser failed.
pub open spec fn repeat_result<'a, T, P: Parse<'a, T>>(
    parser: P,
    least: nat,
    most: Option<nat>,
    input: Seq<char>,
    items: Seq<T>,
    end: Seq<char>,
    out: Outcome<Vec<T>>,
) -> bool {
    if items.len() < least {
        &&& fails_at(parser, end)
        &&& out == Outcome::<Vec<T>>::Failed { at: input }
    } else {
        &&& out is Matched
        &&& out->value@ == items
        &&& out->rest == end
        &&& most matches Some(m) ==> items.len() <= m || items.len() == least
        &&& count_is_full(least, most, items.len()) || fails_at(parser, end)
    }
}

/// The outcomes of `repeat(parser, range)` on `input`, for a range from `least` to `most`.
pub open spec fn repeat_admits<'a, T, P: Parse<'a, T>>(
    parser: P,
    least: nat,
    most: Option<nat>,
    input: Seq<char>,
    out: Outcome<Vec<T>>,
) -> bool {
    exists|positions: Seq<Seq<char>>, items: Seq<T>| #[trigger]
        is_run(parser, positions, items) && positions[0] == input && repeat_result(
            parser,
            least,
            most,
            input,
            items,
            positions.last(),
            out,
        )
}

/// When `repeat(parser, range)` may be run: `parser` may be, and a repetition without an
/// upper end needs a parser that consumes input whenever it matches.
pub open spec fn repeat_lawful<'a, T, P: Parse<'a, T>>(parser: P, most: Option<nat>) -> bool {
    &&& parser.lawful()
    &&& most is None ==> productive(parser)
}

struct Repeated<P> {
    parser: P,
    least: usize,
    most: Option<usize>,
}

impl<P> Repeated<P> {
    spec fn most_count(&self) -> Option<nat> {
        match self.most {
            Some(m) => Some(m as nat),
            None => None,
        }
    }
}

/// A run grows by one match at its end.
proof fn lemma_run_extends<'a, T, P: Parse<'a, T>>(
    parser: P,
    positions: Seq<Seq<char>>,
    items: Seq<T>,
    item: T,
    next: Seq<char>,
)
    requires
        is_run(parser, positions, items),
        parser.admits(positions.last(), Outcome::Matched { value: item, rest: next }),
    ensures
        is_run(parser, positions.push(next), items.push(item)),
{
    let longer = positions.push(next);
    let more = items.push(item);
    assert forall|i: int| 0 <= i < more.len() implies #[trigger] step_admitted(
        parser,
        longer,
        more,
        i,
    ) by {
        if i < items.len() {
            assert(step_admitted(parser, positions, items, i));
        }
    }
}

impl<'a, T, P: Parse<'a, T>> Parse<'a, Vec<T>> for Repeated<P> {
    closed spec fn lawful(&self) -> bool {
        repeat_lawful(self.parser, self.most_count())
    }

    closed spec fn admits(&self, input: Seq<char>, out: Outcome<Vec<T>>) -> bool {
        repeat_admits(self.parser, self.least as nat, self.most_count(), input, out)
    }

    fn parse(&self, data: &'a str) -> (r: ParseResult<'a, Vec<T>>) {
        let mut items: Vec<T> = Vec::new();
        let mut rest: &'a str = data;
        let mut count: usize = 0;
        let ghost mut positions: Seq<Seq<char>> = seq![data@];
        while count < self.least
            invariant
                self.parser.lawful(),
                is_run(self.parser, positions, items@),
                positions[0] == data@,
                positions.last() == rest@,
                count == items@.len(),
                count <= self.least,
                rest@.is_suffix_of(data@),
            decreases self.least - count,
        {
            match self.parser.parse(rest) {
                Ok((next, item)) => {
                    proof {
                        lemma_run_extends(self.parser, positions, items@, item, next@);
                        positions = positions.push(next@);
                    }
                    items.push(item);
                    rest = next;
                    count = count + 1;
                },
                Err(_) => {
                    proof {
                        assert(repeat_result(
                            self.parser,
                            self.least as nat,
                            self.most_count(),
                            data@,
                            items@,
                            positions.last(),
                            Outcome::<Vec<T>>::Failed { at: data@ },
                        ));
                    }
                    return Err(data);
                },
            }
        }
        let mut open = true;
        match self.most {
            None => {
                while open
                    invariant
                        self.parser.lawful(),
                        productive(self.parser),
                        is_run(self.parser, positions, items@),
                        positions[0] == data@,
                        positions.last() == rest@,
                        items@.len() >= self.least,
                        rest@.is_suffix_of(data@),
                        !open ==> fails_at(self.parser, rest@),
                    decreases rest@.len() + (if open { 1nat } else { 0nat }),
                {
                    match self.parser.parse(rest) {
                        Ok((next, item)) => {
                            proof {
                                lemma_run_extends(self.parser, positions, items@, item, next@);
                                positions = positions.push(next@);
                            }
                            items.push(item);
                            rest = next;
                        },
                        Err(_) => {
                            open = false;
                        },
                    }
                }
            },
            Some(most) => {
                while open && count < most
                    invariant
                        self.parser.lawful(),
                        is_run(self.parser, positions, items@),
                        positions[0] == data@,
                        positions.last() == rest@,
                        count == items@.len(),
                        count >= self.least,
                        count <= most || count == self.least,
                        rest@.is_suffix_of(data@),
                        !open ==> fails_at(self.parser, rest@),
                    decreases most - count + (if open { 1nat } else { 0nat }),
                {
                    match self.parser.parse(rest) {
                        Ok((next, item)) => {
                            proof {
                                lemma_run_extends(self.parser, positions, items@, item, next@);
                                positions = positions.push(next@);
                            }
                            items.push(item);
                            rest = next;
                            count = count + 1;
                        },
                        Err(_) => {
                            open = false;
                        },
                    }
                }
            },
        }
        proof {
            assert(repeat_result(
                self.parser,
                self.least as nat,
                self.most_count(),
                data@,
                items@,
                positions.last(),
                Outcome::Matched { value: items, rest: rest@ },
            ));
        }
        Ok((rest, items))
    }
}

/// Matches `parser` as often as `range` says.
///
/// The parser must match `range.least()` times in a row, or the repetition fails and
/// hands back the whole input. After that it goes on matching until the parser fails or
/// the upper end of the range is reached, and returns the values in order with what is
/// left after the last match.
pub fn repeat<'a, T>(parser: impl Parse<'a, T>, range: impl CountRange) -> (repeated: impl Parse<
    'a,
    Vec<T>,
>)
    ensures
        repeated.lawful() <==> repeat_lawful(parser, range.most()),
        forall|input: Seq<char>, out: Outcome<Vec<T>>| #[trigger]
            repeated.admits(input, out) <==> repeat_admits(
                parser,
                range.least(),
                range.most(),
                input,
                out,
            ),
{
    let ends = range.ends();
    Repeated { parser, least: ends.0, most: ends.1 }
}

/// Matches `parser` once or more often: `repeat(parser, 1..)`.
pub fn one_or_more<'a, P, A>(parser: P) -> (repeated: impl Parse<'a, Vec<A>>) where P: Parse<'a, A>
    ensures
        repeated.lawful() <==> repeat_lawful(parser, None),
        forall|input: Seq<char>, out: Outcome<Vec<A>>| #[trigger]
            repeated.admits(input, out) <==> repeat_admits(parser, 1, None, input, out),
{
    repeat(parser, 1..)
}

/// Matches `parser` as often as it will, which may be not at all: `repeat(parser, 0..)`.
/// This parser never fails.
pub fn zero_or_more<'a, P, A>(parser: P) -> (repeated: impl Parse<'a, Vec<A>>) where P: Parse<'a, A>
    ensures
        repeated.lawful() <==> repeat_lawful(parser, None),
        forall|input: Seq<char>, out: Outcome<Vec<A>>| #[trigger]
            repeated.admits(input, out) <==> repeat_admits(parser, 0, None, input, out),
{
    repeat(parser, 0..)
}

/// How `map` carries an outcome of the parser over: a match keeps its remainder and has its
/// value transformed by `map_fn`, a failure is handed on as it is.
pub open spec fn map_relates<A, B, F: Fn(A) -> B>(
    map_fn: F,
    inner: Outcome<A>,
    out: Outcome<B>,
) -> bool {
    match inner {
        Outcome::Matched { value, rest } => {
            &&& out is Matched
            &&& out->rest == rest
            &&& map_fn.ensures((value,), out->value)
        },
        Outcome::Failed { at } => out == Outcome::<B>::Failed { at },
    }
}

/// The outcomes of `map(parser, map_fn)` on `input`.
pub open spec fn map_admits<'a, P, F, A, B>(
    parser: P,
    map_fn: F,
    input: Seq<char>,
    out: Outcome<B>,
) -> bool where P: Parse<'a, A>, F: Fn(A) -> B {
    exists|inner: Outcome<A>| #[trigger] parser.admits(input, inner) && map_relates(map_fn, inner, out)
}

/// When `map(parser, map_fn)` may be run: `parser` may be, and `map_fn` accepts every value
/// that `parser` yields.
pub open spec fn map_lawful<'a, P, F, A, B>(parser: P, map_fn: F) -> bool where
    P: Parse<'a, A>,
    F: Fn(A) -> B,
 {
    &&& parser.lawful()
    &&& forall|input: Seq<char>, inner: Outcome<A>| #[trigger]
        parser.admits(input, inner) && inner is Matched ==> map_fn.requires((inner->value,))
}

struct Mapped<P, F, A> {
    parser: P,
    map_fn: F,
    from: core::marker::PhantomData<A>,
}

impl<'a, P, F, A, B> Parse<'a, B> for Mapped<P, F, A> where P: Parse<'a, A>, F: Fn(A) -> B {
    closed spec fn lawful(&self) -> bool {
        map_lawful(self.parser, self.map_fn)
    }

    closed spec fn admits(&self, input: Seq<char>, out: Outcome<B>) -> bool {
        map_admits(self.parser, self.map_fn, input, out)
    }

    fn parse(&self, data: &'a str) -> (r: ParseResult<'a, B>) {
        match self.parser.parse(data) {
            Ok((rest, value)) => {
                let mapped = (self.map_fn)(value);
                Ok((rest, mapped))
            },
            Err(at) => Err(at),
        }
    }
}

/// Transforms the value of a match with `map_fn`. What is consumed does not change, and a
/// failure of `parser` is handed on as it is.
pub fn map<'a, P, F, A, B>(parser: P, map_fn: F) -> (mapped: impl Parse<'a, B>) where
    P: Parse<'a, A>,
    F: Fn(A) -> B,

    ensures
        mapped.lawful() <==> map_lawful(parser, map_fn),
        forall|input: Seq<char>, out: Outcome<B>| #[trigger]
            mapped.admits(input, out) <==> map_admits(parser, map_fn, input, out),
{
    Mapped { parser, map_fn, from: core::marker::PhantomData }
}

/// How `pair` joins the value of its first parser with an outcome of its second: a match
/// yields both values and the second remainder, a failure is that of the second parser.
pub open spec fn pair_joins<A, B>(first: A, second: Outcome<B>, out: Outcome<(A, B)>) -> bool {
    match second {
        Outcome::Matched { value, rest } => out == Outcome::Matched { value: (first, value), rest },
        Outcome::Failed { at } => out == Outcome::<(A, B)>::Failed { at },
    }
}

/// The outcomes of `pair(parser1, parser2)` on `input`.
///
/// Either `parser1` fails, and the pair fails with the same slice; or `parser1` matches and
/// `parser2` runs on its remainder, `middle`. A failure of `parser2` is a failure of the
/// pair at `middle`: what `parser1` consumed is not given back.
pub open spec fn pair_admits<'a, P, Q, A, B>(
    parser1: P,
    parser2: Q,
    input: Seq<char>,
    out: Outcome<(A, B)>,
) -> bool where P: Parse<'a, A>, Q: Parse<'a, B> {
    ||| exists|first: Outcome<A>| #[trigger]
        parser1.admits(input, first) && first is Failed && out == Outcome::<(A, B)>::Failed {
            at: first->at,
        }
    ||| exists|first: Outcome<A>, middle: Seq<char>, second: Outcome<B>|
        #![trigger parser1.admits(input, first), parser2.admits(middle, second)]
        {
            &&& parser1.admits(input, first)
            &&& first is Matched
            &&& first->rest == middle
            &&& parser2.admits(middle, second)
            &&& pair_joins(first->value, second, out)
        }
}

struct Paired<P, Q> {
    parser1: P,
    parser2: Q,
}

impl<'a, P, Q, A, B> Parse<'a, (A, B)> for Paired<P, Q> where
    P: Parse<'a, A>,
    Q: Parse<'a, B>,
 {
    closed spec fn lawful(&self) -> bool {
        self.parser1.lawful() && self.parser2.lawful()
    }

    closed spec fn admits(&self, input: Seq<char>, out: Outcome<(A, B)>) -> bool {
        pair_admits(self.parser1, self.parser2, input, out)
    }

    fn parse(&self, data: &'a str) -> (r: ParseResult<'a, (A, B)>) {
        match self.parser1.parse(data) {
            Ok((middle, value1)) => match self.parser2.parse(middle) {
                Ok((rest, value2)) => Ok((rest, (value1, value2))),
                Err(at) => Err(at),
            },
            Err(at) => Err(at),
        }
    }
}

/// Runs `parser1` and then `parser2` on what it left, and yields both values.
///
/// If either fails, the pair fails with the slice of the parser that failed: a failure of
/// `parser2` does not give back what `parser1` consumed.
pub fn pair<'a, P, Q, A, B>(parser1: P, parser2: Q) -> (paired: impl Parse<'a, (A, B)>) where
    P: Parse<'a, A>,
    Q: Parse<'a, B>,

    ensures
        paired.lawful() <==> parser1.lawful() && parser2.lawful(),
        forall|input: Seq<char>, out: Outcome<(A, B)>| #[trigger]
            paired.admits(input, out) <==> pair_admits(parser1, parser2, input, out),
{
    Paired { parser1, parser2 }
}

/// The outcomes of `left(parser1, parser2)` on `input`: those of the pair, with the first
/// value kept.
pub open spec fn left_admits<'a, P, Q, A, B>(
    parser1: P,
    parser2: Q,
    input: Seq<char>,
    out: Outcome<A>,
) -> bool where P: Parse<'a, A>, Q: Parse<'a, B> {
    exists|both: Outcome<(A, B)>| #[trigger]
        pair_admits(parser1, parser2, input, both) && match both {
            Outcome::Matched { value, rest } => out == Outcome::Matched { value: value.0, rest },
            Outcome::Failed { at } => out == Outcome::<A>::Failed { at },
        }
}

struct KeptFirst<P, Q, B> {
    both: Paired<P, Q>,
    dropped: core::marker::PhantomData<B>,
}

impl<'a, P, Q, A, B> Parse<'a, A> for KeptFirst<P, Q, B> where P: Parse<'a, A>, Q: Parse<'a, B> {
    closed spec fn lawful(&self) -> bool {
        self.both.lawful()
    }

    closed spec fn admits(&self, input: Seq<char>, out: Outcome<A>) -> bool {
        left_admits(self.both.parser1, self.both.parser2, input, out)
    }

    fn parse(&self, data: &'a str) -> (r: ParseResult<'a, A>) {
        match self.both.parse(data) {
            Ok((rest, (first, _))) => Ok((rest, first)),
            Err(at) => Err(at),
        }
    }
}

/// Runs both parsers as `pair` does and keeps the value of the first.
pub fn left<'a, P, Q, A, B>(parser1: P, parser2: Q) -> (kept: impl Parse<'a, A>) where
    P: Parse<'a, A>,
    Q: Parse<'a, B>,

    ensures
        kept.lawful() <==> parser1.lawful() && parser2.lawful(),
        forall|input: Seq<char>, out: Outcome<A>| #[trigger]
            kept.admits(input, out) <==> left_admits(parser1, parser2, input, out),
{
    KeptFirst { both: Paired { parser1, parser2 }, dropped: core::marker::PhantomData }
}

/// The outcomes of `right(parser1, parser2)` on `input`: those of the pair, with the second
/// value kept.
pub open spec fn right_admits<'a, P, Q, A, B>(
    parser1: P,
    parser2: Q,
    input: Seq<char>,
    out: Outcome<B>,
) -> bool where P: Parse<'a, A>, Q: Parse<'a, B> {
    exists|both: Outcome<(A, B)>| #[trigger]
        pair_admits(parser1, parser2, input, both) && match both {
            Outcome::Matched { value, rest } => out == Outcome::Matched { value: value.1, rest },
            Outcome::Failed { at } => out == Outcome::<B>::Failed { at },
        }
}

struct KeptSecond<P, Q, A> {
    both: Paired<P, Q>,
    dropped: core::marker::PhantomData<A>,
}

impl<'a, P, Q, A, B> Parse<'a, B> for KeptSecond<P, Q, A> where P: Parse<'a, A>, Q: Parse<'a, B> {
    closed spec fn lawful(&self) -> bool {
        self.both.lawful()
    }

    closed spec fn admits(&self, input: Seq<char>, out: Outcome<B>) -> bool {
        right_admits(self.both.parser1, self.both.parser2, input, out)
    }

    fn parse(&self, data: &'a str) -> (r: ParseResult<'a, B>) {
        match self.both.parse(data) {
            Ok((rest, (_, second))) => Ok((rest, second)),
            Err(at) => Err(at),
        }
    }
}

/// Runs both parsers as `pair` does and keeps the value of the second.
pub fn right<'a, P, Q, A, B>(parser1: P, parser2: Q) -> (kept: impl Parse<'a, B>) where
    P: Parse<'a, A>,
    Q: Parse<'a, B>,

    ensures
        kept.lawful() <==> parser1.lawful() && parser2.lawful(),
        forall|input: Seq<char>, out: Outcome<B>| #[trigger]
            kept.admits(input, out) <==> right_admits(parser1, parser2, input, out),
{
    KeptSecond { both: Paired { parser1, parser2 }, dropped: core::marker::PhantomData }
}

/// How `filter` carries an outcome of the parser over: a match whose value `predicate`
/// approves stays as it is; any other outcome becomes a failure with the whole of `input`.
pub open spec fn filter_relates<A, F: Fn(&A) -> bool>(
    predicate: F,
    input: Seq<char>,
    inner: Outcome<A>,
    out: Outcome<A>,
) -> bool {
    match inner {
        Outcome::Matched { value, rest } => {
            ||| predicate.ensures((&value,), true) && out == inner
            ||| predicate.ensures((&value,), false) && out == Outcome::<A>::Failed { at: input }
        },
        Outcome::Failed { at } => out == Outcome::<A>::Failed { at: input },
    }
}

/// The outcomes of `filter(parser, predicate)` on `input`.
pub open spec fn filter_admits<'a, P, A, F>(
    parser: P,
    predicate: F,
    input: Seq<char>,
    out: Outcome<A>,
) -> bool where P: Parse<'a, A>, F: Fn(&A) -> bool {
    exists|inner: Outcome<A>| #[trigger]
        parser.admits(input, inner) && filter_relates(predicate, input, inner, out)
}

/// When `filter(parser, predicate)` may be run: `parser` may be, and `predicate` accepts
/// every value that `parser` yields.
pub open spec fn filter_lawful<'a, P, A, F>(parser: P, predicate: F) -> bool where
    P: Parse<'a, A>,
    F: Fn(&A) -> bool,
 {
    &&& parser.lawful()
    &&& forall|input: Seq<char>, inner: Outcome<A>| #[trigger]
        parser.admits(input, inner) && inner is Matched ==> predicate.requires((&inner->value,))
}

struct Filtered<P, F> {
    parser: P,
    predicate: F,
}

impl<'a, P, A, F> Parse<'a, A> for Filtered<P, F> where P: Parse<'a, A>, F: Fn(&A) -> bool {
    closed spec fn lawful(&self) -> bool {
        filter_lawful(self.parser, self.predicate)
    }

    closed spec fn admits(&self, input: Seq<char>, out: Outcome<A>) -> bool {
        filter_admits(self.parser, self.predicate, input, out)
    }

    fn parse(&self, data: &'a str) -> (r: ParseResult<'a, A>) {
        match self.parser.parse(data) {
            Ok((rest, value)) => {
                if (self.predicate)(&value) {
                    Ok((rest, value))
                } else {
                    Err(data)
                }
            },
            Err(_) => Err(data),
        }
    }
}

/// Keeps a match only if `predicate` approves of its value.
///
/// Where `parser` fails or `predicate` says no, the filter fails and hands back the whole
/// input, as if `parser` had never matched.
pub fn filter<'a, P, A, F>(parser: P, predicate: F) -> (filtered: impl Parse<'a, A>) where
    P: Parse<'a, A>,
    F: Fn(&A) -> bool,

    ensures
        filtered.lawful() <==> filter_lawful(parser, predicate),
        forall|input: Seq<char>, out: Outcome<A>| #[trigger]
            filtered.admits(input, out) <==> filter_admits(parser, predicate, input, out),
{
    Filtered { parser, predicate }
}

/// The outcomes of `either(parser1, parser2)` on `input`: a match of `parser1`, or, where
/// `parser1` fails, whatever `parser2` does with the same input.
pub open spec fn either_admits<'a, P, Q, A>(
    parser1: P,
    parser2: Q,
    input: Seq<char>,
    out: Outcome<A>,
) -> bool where P: Parse<'a, A>, Q: Parse<'a, A> {
    exists|first: Outcome<A>| #[trigger]
        parser1.admits(input, first) && if first is Matched {
            out == first
        } else {
            parser2.admits(input, out)
        }
}

struct Alternative<P, Q> {
    parser1: P,
    parser2: Q,
}

impl<'a, P, Q, A> Parse<'a, A> for Alternative<P, Q> where P: Parse<'a, A>, Q: Parse<'a, A> {
    closed spec fn lawful(&self) -> bool {
        self.parser1.lawful() && self.parser2.lawful()
    }

    closed spec fn admits(&self, input: Seq<char>, out: Outcome<A>) -> bool {
        either_admits(self.parser1, self.parser2, input, out)
    }

    fn parse(&self, data: &'a str) -> (r: ParseResult<'a, A>) {
        match self.parser1.parse(data) {
            Ok(matched) => Ok(matched),
            Err(_) => self.parser2.parse(data),
        }
    }
}

/// Ordered choice: tries `parser1`, and where it fails tries `parser2` on the same input.
/// The first match wins; there is no search for the longest one.
pub fn either<'a, P, Q, A>(parser1: P, parser2: Q) -> (choice: impl Parse<'a, A>) where
    P: Parse<'a, A>,
    Q: Parse<'a, A>,

    ensures
        choice.lawful() <==> parser1.lawful() && parser2.lawful(),
        forall|input: Seq<char>, out: Outcome<A>| #[trigger]
            choice.admits(input, out) <==> either_admits(parser1, parser2, input, out),
{
    Alternative { parser1, parser2 }
}

/// The outcomes of `and_then(parser, f)` on `input`: a failure of `parser`, or what the
/// parser that `f` makes of the value of `parser` does with the remainder.
pub open spec fn and_then_admits<'a, P, F, A, B, NextP>(
    parser: P,
    f: F,
    input: Seq<char>,
    out: Outcome<B>,
) -> bool where P: Parse<'a, A>, NextP: Parse<'a, B>, F: Fn(A) -> NextP {
    ||| exists|first: Outcome<A>| #[trigger]
        parser.admits(input, first) && first is Failed && out == Outcome::<B>::Failed {
            at: first->at,
        }
    ||| exists|first: Outcome<A>, value: A, next: NextP|
        #![trigger parser.admits(input, first), f.ensures((value,), next)]
        {
            &&& parser.admits(input, first)
            &&& first is Matched
            &&& first->value == value
            &&& f.ensures((value,), next)
            &&& next.admits(first->rest, out)
        }
}

/// When `and_then(parser, f)` may be run: `parser` may be, `f` accepts every value that
/// `parser` yields, and every parser that `f` makes of such a value may be run.
pub open spec fn and_then_lawful<'a, P, F, A, B, NextP>(parser: P, f: F) -> bool where
    P: Parse<'a, A>,
    NextP: Parse<'a, B>,
    F: Fn(A) -> NextP,
 {
    &&& parser.lawful()
    &&& forall|input: Seq<char>, first: Outcome<A>| #[trigger]
        parser.admits(input, first) && first is Matched ==> f.requires((first->value,))
    &&& forall|input: Seq<char>, first: Outcome<A>, value: A, next: NextP|
        #![trigger parser.admits(input, first), f.ensures((value,), next)]
        parser.admits(input, first) && first is Matched && first->value == value && f.ensures(
            (value,),
            next,
        ) ==> next.lawful()
}

struct Chained<P, F, A, NextP> {
    parser: P,
    f: F,
    from: core::marker::PhantomData<A>,
    to: core::marker::PhantomData<NextP>,
}

impl<'a, P, F, A, B, NextP> Parse<'a, B> for Chained<P, F, A, NextP> where
    P: Parse<'a, A>,
    NextP: Parse<'a, B>,
    F: Fn(A) -> NextP,
 {
    closed spec fn lawful(&self) -> bool {
        and_then_lawful(self.parser, self.f)
    }

    closed spec fn admits(&self, input: Seq<char>, out: Outcome<B>) -> bool {
        and_then_admits(self.parser, self.f, input, out)
    }

    fn parse(&self, data: &'a str) -> (r: ParseResult<'a, B>) {
        match self.parser.parse(data) {
            Ok((middle, value)) => {
                let next = (self.f)(value);
                next.parse(middle)
            },
            Err(at) => Err(at),
        }
    }
}

/// Runs `parser`, hands its value to `f`, and runs the parser that `f` returns on the
/// remainder. A failure of `parser` is handed on as it is.
///
/// This is how a later part of a grammar comes to depend on a value parsed before.
pub fn and_then<'a, P, F, A, B, NextP>(parser: P, f: F) -> (chained: impl Parse<'a, B>) where
    P: Parse<'a, A>,
    NextP: Parse<'a, B>,
    F: Fn(A) -> NextP,

    ensures
        chained.lawful() <==> and_then_lawful(parser, f),
        forall|input: Seq<char>, out: Outcome<B>| #[trigger]
            chained.admits(input, out) <==> and_then_admits(parser, f, input, out),
{
    Chained { parser, f, from: core::marker::PhantomData, to: core::marker::PhantomData }
}

/// The outcomes of `optional(parser)` on `input`: a match of `parser` with its value in
/// `Some`, or, where `parser` fails, `None` with nothing consumed.
pub open spec fn optional_admits<'a, P, A>(parser: P, input: Seq<char>, out: Outcome<Option<A>>) -> bool where
    P: Parse<'a, A>,
 {
    exists|inner: Outcome<A>| #[trigger]
        parser.admits(input, inner) && match inner {
            Outcome::Matched { value, rest } => out == Outcome::Matched { value: Some(value), rest },
            Outcome::Failed { at } => out == Outcome::Matched { value: None::<A>, rest: input },
        }
}

struct Optional<P> {
    parser: P,
}

impl<'a, P, A> Parse<'a, Option<A>> for Optional<P> where P: Parse<'a, A> {
    closed spec fn lawful(&self) -> bool {
        self.parser.lawful()
    }

    closed spec fn admits(&self, input: Seq<char>, out: Outcome<Option<A>>) -> bool {
        optional_admits(self.parser, input, out)
    }

    fn parse(&self, data: &'a str) -> (r: ParseResult<'a, Option<A>>) {
        match self.parser.parse(data) {
            Ok((rest, value)) => Ok((rest, Some(value))),
            Err(_) => Ok((data, None)),
        }
    }
}

/// Matches `parser` if it will. This parser never fails: where `parser` does, it yields
/// `None` and consumes nothing.
pub fn optional<'a, P, A>(parser: P) -> (maybe: impl Parse<'a, Option<A>>) where P: Parse<'a, A>
    ensures
        maybe.lawful() <==> parser.lawful(),
        forall|input: Seq<char>, out: Outcome<Option<A>>| #[trigger]
            maybe.admits(input, out) <==> optional_admits(parser, input, out),
{
    Optional { parser }
}

/// The values that `step` matches one after another from `input`, as long as it matches
/// and consumes something, and what is left then.
pub open spec fn run_of<V>(step: spec_fn(Seq<char>) -> Outcome<V>, input: Seq<char>) -> (Seq<V>, Seq<char>)
    decreases input.len(),
{
    match step(input) {
        Outcome::Matched { value, rest } if rest.len() < input.len() => {
            let (values, end) = run_of(step, rest);
            (seq![value] + values, end)
        },
        _ => (seq![], input),
    }
}

/// What repeating `step` without an upper end does with `input`: it matches as `run_of`
/// says, and fails with the whole of `input` where that makes fewer than `least` matches.
pub open spec fn repeated_outcome<V>(
    step: spec_fn(Seq<char>) -> Outcome<V>,
    least: nat,
    input: Seq<char>,
) -> Outcome<Seq<V>> {
    let (values, end) = run_of(step, input);
    if values.len() >= least {
        Outcome::Matched { value: values, rest: end }
    } else {
        Outcome::Failed { at: input }
    }
}

/// `parser` does what `step` says: every outcome that it admits is, viewed in depth, the
/// outcome of `step`.
pub open spec fn follows<'a, T: DeepView, P: Parse<'a, T>>(
    parser: P,
    step: spec_fn(Seq<char>) -> Outcome<T::V>,
) -> bool {
    forall|input: Seq<char>, out: Outcome<T>| #[trigger]
        parser.admits(input, out) ==> out.deep_view() == step(input)
}

/// In a run of matches of a parser that follows `step` and stops at a failure, what
/// remains of the run from its `i`-th position on is what `run_of` says.
proof fn lemma_run_follows<'a, T: DeepView, P: Parse<'a, T>>(
    parser: P,
    step: spec_fn(Seq<char>) -> Outcome<T::V>,
    positions: Seq<Seq<char>>,
    items: Seq<T>,
    i: int,
)
    requires
        follows(parser, step),
        productive(parser),
        is_run(parser, positions, items),
        fails_at(parser, positions.last()),
        0 <= i <= items.len(),
    ensures
        run_of(step, positions[i]) == (
            Seq::new((items.len() - i) as nat, |j: int| items[i + j].deep_view()),
            positions.last(),
        ),
    decreases items.len() - i,
{
    if i < items.len() {
        lemma_run_follows(parser, step, positions, items, i + 1);
        assert(step_admitted(parser, positions, items, i));
    }
}

/// Repeating, without an upper end, a parser that follows `step` does what
/// `repeated_outcome` says of `step`.
pub proof fn lemma_repeat_follows<'a, T: DeepView, P: Parse<'a, T>>(
    parser: P,
    step: spec_fn(Seq<char>) -> Outcome<T::V>,
    least: nat,
    input: Seq<char>,
    out: Outcome<Vec<T>>,
)
    requires
        follows(parser, step),
        productive(parser),
        repeat_admits(parser, least, None, input, out),
    ensures
        out.deep_view() == repeated_outcome(step, least, input),
{
    let (positions, items) = choose|positions: Seq<Seq<char>>, items: Seq<T>| #[trigger]
        is_run(parser, positions, items) && positions[0] == input && repeat_result(
            parser,
            least,
            None,
            input,
            items,
            positions.last(),
            out,
        );
    lemma_run_follows(parser, step, positions, items, 0);
    if items.len() >= least {
        assert(out->value.deep_view() =~= Seq::new(
            items.len() as nat,
            |j: int| items[0 + j].deep_view(),
        ));
    }
}

/// What is left after a run is no longer than the input.
pub proof fn lemma_run_of_narrows<V>(step: spec_fn(Seq<char>) -> Outcome<V>, input: Seq<char>)
    ensures
        run_of(step, input).1.len() <= input.len(),
    decreases input.len(),
{
    match step(input) {
        Outcome::Matched { value, rest } if rest.len() < input.len() => {
            lemma_run_of_narrows(step, rest);
        },
        _ => {},
    }
}

} // verus!
