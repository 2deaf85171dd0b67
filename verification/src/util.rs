//! The primitive matchers, and the small parsers that most grammars need.

use crate::combinators;
use crate::parse::{lemma_function_parser, outcome, Outcome, Parse, ParseResult};
use crate::std_specs::{alphabetic, numeric, whitespace};
use crate::text::{split_first, strip_prefix};
use vstd::prelude::*;

verus! {

/// What matching the literal `expected` does with `input`: where `input` starts with
/// `expected`, exactly `expected` is consumed; else the match fails with `input`.
pub open spec fn literal_outcome(expected: Seq<char>, input: Seq<char>) -> Outcome<()> {
    if expected.is_prefix_of(input) {
        Outcome::Matched { value: (), rest: input.skip(expected.len() as int) }
    } else {
        Outcome::Failed { at: input }
    }
}

/// A parser that matches the text `expected` and nothing else.
pub fn match_literal<'a>(expected: &'static str) -> (literal: impl Parse<'a, ()>)
    ensures
        literal.lawful(),
        forall|input: Seq<char>, out: Outcome<()>| #[trigger]
            literal.admits(input, out) ==> out == literal_outcome(expected@, input),
        forall|input: Seq<char>, out: Outcome<()>| #[trigger]
            literal.admits(input, out) && out is Failed ==> out->at == input,
{
    let literal = move |input: &'a str| -> (r: ParseResult<'a, ()>)
        ensures
            outcome(r) == literal_outcome(expected@, input@),
        {
            match strip_prefix(input, expected) {
                Some(rest) => Ok((rest, ())),
                None => Err(input),
            }
        };
    proof {
        lemma_function_parser(literal);
    }
    literal
}

/// A parser that matches the text `expected` and nothing else. It is `match_literal` for a
/// text that is only known when the program runs.
pub fn match_string<'a>(expected: String) -> (literal: impl Parse<'a, ()>)
    ensures
        literal.lawful(),
        forall|input: Seq<char>, out: Outcome<()>| #[trigger]
            literal.admits(input, out) ==> out == literal_outcome(expected@, input),
        forall|input: Seq<char>, out: Outcome<()>| #[trigger]
            literal.admits(input, out) && out is Failed ==> out->at == input,
{
    let literal = move |input: &'a str| -> (r: ParseResult<'a, ()>)
        ensures
            outcome(r) == literal_outcome(expected@, input@),
        {
            match strip_prefix(input, expected.as_str()) {
                Some(rest) => Ok((rest, ())),
                None => Err(input),
            }
        };
    proof {
        lemma_function_parser(literal);
    }
    literal
}

/// What matching one character of a class does with `input`: where the first character
/// of `input` is in the class, it is consumed and returned; else the match fails with
/// `input`.
pub open spec fn class_outcome(class: spec_fn(char) -> bool, input: Seq<char>) -> Outcome<char> {
    if input.len() > 0 && class(input[0]) {
        Outcome::Matched { value: input[0], rest: input.skip(1) }
    } else {
        Outcome::Failed { at: input }
    }
}

/// The class of all characters.
pub open spec fn any_class() -> spec_fn(char) -> bool {
    |c: char| true
}

/// The class of the numeric characters.
pub open spec fn numeric_class() -> spec_fn(char) -> bool {
    |c: char| numeric(c)
}

/// The class of the whitespace characters.
pub open spec fn whitespace_class() -> spec_fn(char) -> bool {
    |c: char| whitespace(c)
}

/// What `any_char` does with `input`: it consumes the first character, whatever it is, and
/// fails on an empty input.
pub open spec fn any_char_outcome(input: Seq<char>) -> Outcome<char> {
    class_outcome(any_class(), input)
}

/// Matches any one character: one Unicode scalar value, however many bytes it takes.
/// Fails on an empty input, with that input.
pub fn any_char(input: &str) -> (r: ParseResult<'_, char>)
    ensures
        outcome(r) == any_char_outcome(input@),
        outcome(r) is Failed ==> outcome(r)->at == input@,
        outcome(r).position().is_suffix_of(input@),
{
    match split_first(input) {
        Some((first, rest)) => Ok((rest, first)),
        None => Err(input),
    }
}

/// `any_char` used as a parser is lawful and admits nothing but `any_char_outcome`.
pub proof fn lemma_any_char_parser()
    ensures
        any_char.lawful(),
        forall|input: Seq<char>, out: Outcome<char>| #[trigger]
            any_char.admits(input, out) ==> out == any_char_outcome(input),
{
    lemma_function_parser::<_, char>(any_char);
}

/// What `digit` does with `input`: it consumes one numeric character.
pub open spec fn digit_outcome(input: Seq<char>) -> Outcome<char> {
    class_outcome(numeric_class(), input)
}

/// Matches one numeric character, as `char::is_numeric` tells it. Fails, with the whole
/// input, where the input is empty or starts with another character.
pub fn digit<'a>() -> (parser: impl Parse<'a, char>)
    ensures
        parser.lawful(),
        forall|input: Seq<char>, out: Outcome<char>| #[trigger]
            parser.admits(input, out) ==> out == digit_outcome(input),
        forall|input: Seq<char>, out: Outcome<char>| #[trigger]
            parser.admits(input, out) && out is Failed ==> out->at == input,
{
    let is_digit = |ch: &char| -> (b: bool)
        ensures
            b == numeric(*ch),
        { ch.is_numeric() };
    proof {
        lemma_any_char_parser();
    }
    combinators::filter(any_char, is_digit)
}

/// What `whitespace_char` does with `input`: it consumes one whitespace character.
pub open spec fn whitespace_outcome(input: Seq<char>) -> Outcome<char> {
    class_outcome(whitespace_class(), input)
}

/// Matches one whitespace character, as `char::is_whitespace` tells it. Fails, with the
/// whole input, where the input is empty or starts with another character.
pub fn whitespace_char<'a>() -> (parser: impl Parse<'a, char>)
    ensures
        parser.lawful(),
        forall|input: Seq<char>, out: Outcome<char>| #[trigger]
            parser.admits(input, out) ==> out == whitespace_outcome(input),
        forall|input: Seq<char>, out: Outcome<char>| #[trigger]
            parser.admits(input, out) && out is Failed ==> out->at == input,
{
    let is_space = |c: &char| -> (b: bool)
        ensures
            b == whitespace(*c),
        { c.is_whitespace() };
    proof {
        lemma_any_char_parser();
    }
    combinators::filter(any_char, is_space)
}

/// The number of characters at the start of `input` that are in the class.
pub open spec fn run_length(class: spec_fn(char) -> bool, input: Seq<char>) -> nat
    decreases input.len(),
{
    if input.len() > 0 && class(input[0]) {
        1 + run_length(class, input.skip(1))
    } else {
        0
    }
}

/// `run_length` is the one length `n` such that the first `n` characters are in the class
/// and the next one, if there is one, is not.
pub proof fn lemma_run_length(class: spec_fn(char) -> bool, input: Seq<char>, n: nat)
    requires
        n <= input.len(),
        forall|i: int| 0 <= i < n ==> class(#[trigger] input[i]),
        n == input.len() || !class(input[n as int]),
    ensures
        run_length(class, input) == n,
    decreases n,
{
    if n > 0 {
        lemma_run_length(class, input.skip(1), (n - 1) as nat);
    }
}

/// What a run does: the first `run_length` characters are in the class, and the one after
/// them, if there is one, is not.
pub proof fn lemma_run_length_ends(class: spec_fn(char) -> bool, input: Seq<char>)
    ensures
        run_length(class, input) <= input.len(),
        forall|i: int| 0 <= i < run_length(class, input) ==> class(#[trigger] input[i]),
        run_length(class, input) == input.len() || !class(input[run_length(class, input) as int]),
    decreases input.len(),
{
    if input.len() > 0 && class(input[0]) {
        let tail = input.skip(1);
        lemma_run_length_ends(class, tail);
        assert forall|i: int| 0 <= i < run_length(class, input) implies class(
            #[trigger] input[i],
        ) by {
            if i > 0 {
                assert(input[i] == tail[i - 1]);
            }
        }
    }
}

/// What matching a run of characters of a class does with `input`: it consumes the
/// characters at the start of `input` that are in the class, all of them. It fails, with
/// the whole of `input`, where they are fewer than `least`.
pub open spec fn run_outcome(class: spec_fn(char) -> bool, least: nat, input: Seq<char>) -> Outcome<
    Seq<char>,
> {
    let n = run_length(class, input) as int;
    if n >= least {
        Outcome::Matched { value: input.take(n), rest: input.skip(n) }
    } else {
        Outcome::Failed { at: input }
    }
}

/// In a run of matches of a parser for one character of a class, the `k`-th match starts
/// `k` characters into the input, and the characters before it are the items matched.
proof fn lemma_class_run_prefix<'a, P: Parse<'a, char>>(
    parser: P,
    class: spec_fn(char) -> bool,
    positions: Seq<Seq<char>>,
    items: Seq<char>,
    k: int,
)
    requires
        forall|s: Seq<char>, o: Outcome<char>| #[trigger]
            parser.admits(s, o) ==> o == class_outcome(class, s),
        combinators::is_run(parser, positions, items),
        0 <= k <= items.len(),
    ensures
        k <= positions[0].len(),
        positions[k] == positions[0].skip(k),
        forall|j: int| 0 <= j < k ==> class(#[trigger] positions[0][j]) && items[j] == positions[0][j],
    decreases k,
{
    if k > 0 {
        lemma_class_run_prefix(parser, class, positions, items, k - 1);
        assert(combinators::step_admitted(parser, positions, items, k - 1));
    }
}

/// Repeating, without an upper end, a parser for one character of a class matches a run of
/// that class.
pub proof fn lemma_repeat_class<'a, P: Parse<'a, char>>(
    parser: P,
    class: spec_fn(char) -> bool,
    least: nat,
    input: Seq<char>,
    out: Outcome<Vec<char>>,
)
    requires
        forall|s: Seq<char>, o: Outcome<char>| #[trigger]
            parser.admits(s, o) ==> o == class_outcome(class, s),
        combinators::repeat_admits(parser, least, None, input, out),
    ensures
        out@ == run_outcome(class, least, input),
{
    let (positions, items) = choose|positions: Seq<Seq<char>>, items: Seq<char>| #[trigger]
        combinators::is_run(parser, positions, items) && positions[0] == input
            && combinators::repeat_result(
            parser,
            least,
            None,
            input,
            items,
            positions.last(),
            out,
        );
    lemma_class_run_prefix(parser, class, positions, items, items.len() as int);
    lemma_run_length(class, input, items.len());
}

/// Matches one whitespace character or more, and yields them. Fails, with the whole
/// input, where the input does not start with whitespace.
pub fn space_some<'a>() -> (parser: impl Parse<'a, Vec<char>>)
    ensures
        parser.lawful(),
        forall|input: Seq<char>, out: Outcome<Vec<char>>| #[trigger]
            parser.admits(input, out) ==> out@ == run_outcome(whitespace_class(), 1, input),
        forall|input: Seq<char>, out: Outcome<Vec<char>>| #[trigger]
            parser.admits(input, out) && out is Failed ==> out->at == input,
{
    let one = whitespace_char();
    let parser = combinators::one_or_more(one);
    proof {
        assert forall|input: Seq<char>, out: Outcome<Vec<char>>| #[trigger]
            parser.admits(input, out) implies out@ == run_outcome(whitespace_class(), 1, input) by {
            lemma_repeat_class(one, whitespace_class(), 1, input, out);
        }
    }
    parser
}

/// Matches whitespace characters, as many as there are, and yields them. This parser never
/// fails.
pub fn spaces_any<'a>() -> (parser: impl Parse<'a, Vec<char>>)
    ensures
        parser.lawful(),
        forall|input: Seq<char>, out: Outcome<Vec<char>>| #[trigger]
            parser.admits(input, out) ==> out@ == run_outcome(whitespace_class(), 0, input),
{
    let one = whitespace_char();
    let parser = combinators::zero_or_more(one);
    proof {
        assert forall|input: Seq<char>, out: Outcome<Vec<char>>| #[trigger]
            parser.admits(input, out) implies out@ == run_outcome(whitespace_class(), 0, input) by {
            lemma_repeat_class(one, whitespace_class(), 0, input, out);
        }
    }
    parser
}

/// What is left of `input` without the whitespace at its start.
pub open spec fn skip_spaces(input: Seq<char>) -> Seq<char> {
    input.skip(run_length(whitespace_class(), input) as int)
}

/// The outcomes of `whitespace_wrap(parser)` on `input`: `parser` runs on what follows the
/// whitespace at the start of `input`. The whitespace after a match is consumed too; a
/// failure of `parser` is handed on as it is.
pub open spec fn wrap_admits<'a, P, A>(parser: P, input: Seq<char>, out: Outcome<A>) -> bool where
    P: Parse<'a, A>,
 {
    exists|start: Seq<char>, inner: Outcome<A>| #[trigger]
        parser.admits(start, inner) && start == skip_spaces(input) && match inner {
            Outcome::Matched { value, rest } => out == Outcome::Matched {
                value,
                rest: skip_spaces(rest),
            },
            Outcome::Failed { at } => out == Outcome::<A>::Failed { at },
        }
}

/// Lets `parser` be surrounded by whitespace: any whitespace before and after what
/// `parser` matches is consumed and dropped.
pub fn whitespace_wrap<'a, P, A>(parser: P) -> (wrapped: impl Parse<'a, A>) where P: Parse<'a, A>
    ensures
        wrapped.lawful() <==> parser.lawful(),
        forall|input: Seq<char>, out: Outcome<A>| #[trigger]
            wrapped.admits(input, out) ==> wrap_admits(parser, input, out),
{
    let before = spaces_any();
    let after = spaces_any();
    let inner = combinators::left(parser, after);
    combinators::right(before, inner)
}

/// The string that holds the characters of `chars`, in order.
pub fn collect_string(chars: Vec<char>) -> (text: String)
    ensures
        text@ == chars@,
{
    let mut text = String::new();
    let mut i: usize = 0;
    while i < chars.len()
        invariant
            i <= chars@.len(),
            text@ == chars@.take(i as int),
        decreases chars@.len() - i,
    {
        text.push(chars[i]);
        i = i + 1;
    }
    text
}

/// The class of the characters that may stand inside a quoted string: all but the quote.
pub open spec fn unquoted_class() -> spec_fn(char) -> bool {
    |c: char| c != '"'
}

/// A text of one character is a prefix of the inputs that start with that character.
pub proof fn lemma_single_prefix(c: char, input: Seq<char>)
    ensures
        seq![c].is_prefix_of(input) <==> input.len() > 0 && input[0] == c,
{
    if input.len() > 0 {
        assert(input.subrange(0, 1)[0] == input[0]);
    }
}

/// What `quoted_string` does with `input`.
///
/// After a quote at the start, all the characters up to the next quote are the value,
/// and that quote is consumed. Where the input does not start with a quote, and where no
/// second quote follows, the match fails with the whole of `input`.
pub open spec fn quoted_string_outcome(input: Seq<char>) -> Outcome<Seq<char>> {
    if input.len() > 0 && input[0] == '"' {
        let inside = input.skip(1);
        let n = run_length(unquoted_class(), inside) as int;
        let after = inside.skip(n);
        if after.len() > 0 {
            Outcome::Matched { value: inside.take(n), rest: after.skip(1) }
        } else {
            Outcome::Failed { at: input }
        }
    } else {
        Outcome::Failed { at: input }
    }
}

/// The outcomes of a parser that runs `parser` and hands back the whole of `input`
/// wherever `parser` fails, whatever `parser` had consumed by then.
spec fn restoring_admits<'a, P, A>(parser: P, input: Seq<char>, out: Outcome<A>) -> bool where
    P: Parse<'a, A>,
 {
    exists|inner: Outcome<A>| #[trigger]
        parser.admits(input, inner) && if inner is Matched {
            out == inner
        } else {
            out == Outcome::<A>::Failed { at: input }
        }
}

struct Restoring<P> {
    parser: P,
}

impl<'a, P, A> Parse<'a, A> for Restoring<P> where P: Parse<'a, A> {
    closed spec fn lawful(&self) -> bool {
        self.parser.lawful()
    }

    closed spec fn admits(&self, input: Seq<char>, out: Outcome<A>) -> bool {
        restoring_admits(self.parser, input, out)
    }

    fn parse(&self, data: &'a str) -> (r: ParseResult<'a, A>) {
        match self.parser.parse(data) {
            Ok(matched) => Ok(matched),
            Err(_) => Err(data),
        }
    }
}

/// Matches a quote, any characters but quotes, and a quote; yields the characters between
/// the two quotes. A failure hands back the whole input, also where it is the second quote
/// that is missing.
pub fn quoted_string<'a>() -> (parser: impl Parse<'a, String>)
    ensures
        parser.lawful(),
        forall|input: Seq<char>, out: Outcome<String>| #[trigger]
            parser.admits(input, out) ==> out@ == quoted_string_outcome(input),
        forall|input: Seq<char>, out: Outcome<String>| #[trigger]
            parser.admits(input, out) && out is Failed ==> out->at == input,
{
    let opening = match_literal("\"");
    let closing = match_literal("\"");
    let unquoted = |c: &char| -> (b: bool)
        ensures
            b == (*c != '"'),
        { *c != '"' };
    proof {
        lemma_any_char_parser();
    }
    let one = combinators::filter(any_char, unquoted);
    let inside = combinators::zero_or_more(one);
    let body = combinators::left(inside, closing);
    let quoted = combinators::right(opening, body);
    let collect = |chars: Vec<char>| -> (text: String)
        ensures
            text@ == chars@,
        { collect_string(chars) };
    let text = combinators::map(quoted, collect);
    let parser = Restoring { parser: text };
    proof {
        reveal_strlit("\"");
        assert forall|input: Seq<char>, out: Outcome<String>| #[trigger]
            parser.admits(input, out) implies out@ == quoted_string_outcome(input) by {
            lemma_single_prefix('"', input);
            let after_quote = input.skip(1);
            assert forall|run: Outcome<Vec<char>>| #[trigger]
                inside.admits(after_quote, run) implies run@ == run_outcome(
                unquoted_class(),
                0,
                after_quote,
            ) by {
                lemma_repeat_class(one, unquoted_class(), 0, after_quote, run);
            }
        }
    }
    parser
}

/// The number that a decimal numeral stands for. A numeral with a character other than
/// the digits `0` to `9` stands for none.
pub open spec fn decimal_value(digits: Seq<char>) -> Option<nat>
    decreases digits.len(),
{
    if digits.len() == 0 {
        Some(0)
    } else {
        let last = digits.last() as u32;
        match decimal_value(digits.drop_last()) {
            Some(value) if 0x30 <= last <= 0x39 => Some((10 * value + (last - 0x30)) as nat),
            _ => None,
        }
    }
}

/// A numeral stands for a number only if each of its beginnings does, and then for one
/// that is no smaller.
pub proof fn lemma_decimal_value_grows(digits: Seq<char>, n: int)
    requires
        0 <= n <= digits.len(),
    ensures
        decimal_value(digits.take(n)) is None ==> decimal_value(digits) is None,
        decimal_value(digits) matches Some(whole) ==> decimal_value(digits.take(n))->0 <= whole,
    decreases digits.len() - n,
{
    if n == digits.len() {
        assert(digits.take(n) =~= digits);
    } else {
        lemma_decimal_value_grows(digits.drop_last(), n);
        assert(digits.drop_last().take(n) =~= digits.take(n));
    }
}

/// The number that the decimal numeral `digits` stands for, if it stands for one that
/// fits in 64 bits.
pub fn parse_decimal(digits: &Vec<char>) -> (number: Option<u64>)
    ensures
        number == match decimal_value(digits@) {
            Some(value) if value <= u64::MAX => Some(value as u64),
            _ => None::<u64>,
        },
{
    let mut value: u64 = 0;
    let mut i: usize = 0;
    while i < digits.len()
        invariant
            i <= digits@.len(),
            decimal_value(digits@.take(i as int)) == Some(value as nat),
        decreases digits@.len() - i,
    {
        let code = digits[i] as u32;
        proof {
            let longer = digits@.take(i + 1);
            assert(longer.drop_last() =~= digits@.take(i as int));
            lemma_decimal_value_grows(digits@, i + 1);
        }
        if code < 0x30 || code > 0x39 {
            return None;
        }
        let digit = (code - 0x30) as u64;
        if value > (u64::MAX - digit) / 10 {
            return None;
        }
        value = value * 10 + digit;
        i = i + 1;
    }
    assert(digits@.take(i as int) =~= digits@);
    Some(value)
}

/// What `number` does with `input`: it consumes the numeric characters at the start of
/// `input`, all of them, and yields the number that they stand for in decimal. It fails,
/// with the whole of `input`, where there is no such character, where one of them is not
/// a digit from `0` to `9`, and where the number does not fit in 64 bits.
pub open spec fn number_outcome(input: Seq<char>) -> Outcome<u64> {
    let n = run_length(numeric_class(), input) as int;
    match decimal_value(input.take(n)) {
        Some(value) if n > 0 && value <= u64::MAX => Outcome::Matched {
            value: value as u64,
            rest: input.skip(n),
        },
        _ => Outcome::Failed { at: input },
    }
}

/// Matches one numeric character or more and yields the number that they stand for in
/// decimal. A failure hands back the whole input.
pub fn number<'a>() -> (parser: impl Parse<'a, u64>)
    ensures
        parser.lawful(),
        forall|input: Seq<char>, out: Outcome<u64>| #[trigger]
            parser.admits(input, out) ==> out == number_outcome(input),
        forall|input: Seq<char>, out: Outcome<u64>| #[trigger]
            parser.admits(input, out) && out is Failed ==> out->at == input,
{
    let one = digit();
    let digits = combinators::one_or_more(one);
    let value_of = |numeral: Vec<char>| -> (number: Option<u64>)
        ensures
            number == match decimal_value(numeral@) {
                Some(value) if value <= u64::MAX => Some(value as u64),
                _ => None::<u64>,
            },
        { parse_decimal(&numeral) };
    let values = combinators::map(digits, value_of);
    let is_number = |number: &Option<u64>| -> (b: bool)
        ensures
            b == number.is_some(),
        { number.is_some() };
    let numbers = combinators::filter(values, is_number);
    let unwrap = |number: Option<u64>| -> (value: u64)
        requires
            number is Some,
        ensures
            value == number->0,
        { number.unwrap() };
    let parser = combinators::map(numbers, unwrap);
    proof {
        assert forall|input: Seq<char>, run: Outcome<Vec<char>>| #[trigger]
            digits.admits(input, run) implies run@ == run_outcome(numeric_class(), 1, input) by {
            lemma_repeat_class(one, numeric_class(), 1, input, run);
        }
    }
    parser
}

/// The class of the characters that may follow the first one in an identifier: the
/// alphabetic and the numeric ones, and the hyphen.
pub open spec fn name_class() -> spec_fn(char) -> bool {
    |c: char| alphabetic(c) || numeric(c) || c == '-'
}

/// What `identifier` does with `input`: where `input` starts with an alphabetic
/// character, that character is consumed with all the characters of `name_class` that
/// follow it; else the match fails with `input`.
pub open spec fn identifier_outcome(input: Seq<char>) -> Outcome<Seq<char>> {
    if input.len() > 0 && alphabetic(input[0]) {
        let n = 1 + run_length(name_class(), input.skip(1)) as int;
        Outcome::Matched { value: input.take(n), rest: input.skip(n) }
    } else {
        Outcome::Failed { at: input }
    }
}

/// Matches an identifier: an alphabetic character, and then alphabetic and numeric
/// characters and hyphens, as many as follow. It stops at the first other character and
/// fails, with the whole input, only where the first character is not alphabetic.
pub fn identifier(input: &str) -> (r: ParseResult<'_, String>)
    ensures
        outcome(r)@ == identifier_outcome(input@),
        outcome(r) is Failed ==> outcome(r)->at == input@,
        outcome(r).position().is_suffix_of(input@),
{
    let mut matched = String::new();
    let mut rest = input;
    match split_first(input) {
        Some((first, after)) => {
            if first.is_alphabetic() {
                matched.push(first);
                rest = after;
            } else {
                return Err(input);
            }
        },
        None => {
            return Err(input);
        },
    }
    let ghost mut taken: int = 1;
    let mut open = true;
    while open
        invariant
            1 <= taken <= input@.len(),
            matched@ == input@.take(taken),
            rest@ == input@.skip(taken),
            forall|j: int| 1 <= j < taken ==> name_class()(#[trigger] input@[j]),
            !open ==> taken == input@.len() || !name_class()(input@[taken]),
        decreases rest@.len() + (if open { 1nat } else { 0nat }),
    {
        match split_first(rest) {
            Some((next, after)) => {
                if next.is_alphanumeric() || next == '-' {
                    matched.push(next);
                    rest = after;
                    proof {
                        taken = taken + 1;
                    }
                } else {
                    open = false;
                }
            },
            None => {
                open = false;
            },
        }
    }
    proof {
        let tail = input@.skip(1);
        lemma_run_length(name_class(), tail, (taken - 1) as nat);
    }
    Ok((rest, matched))
}

/// `identifier` used as a parser is lawful and admits nothing but `identifier_outcome`.
pub proof fn lemma_identifier_parser()
    ensures
        identifier.lawful(),
        forall|input: Seq<char>, out: Outcome<String>| #[trigger]
            identifier.admits(input, out) ==> out@ == identifier_outcome(input),
{
    lemma_function_parser::<_, String>(identifier);
}

} // verus!
