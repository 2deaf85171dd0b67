//! A small dialect of XML: elements with attributes, self-closing or with child elements.

use crate::combinators;
use crate::parse::{lemma_function_parser, outcome, Outcome, Parse, ParseResult};
use crate::util::{
    identifier, identifier_outcome, lemma_identifier_parser, lemma_run_length_ends,
    literal_outcome, match_literal, quoted_string, quoted_string_outcome, run_outcome,
    skip_spaces, space_some, spaces_any, whitespace_class,
};
use vstd::prelude::*;

verus! {

/// An element: its name, its attributes in the order in which they were written (a key
/// may occur more than once), and its child elements in order.
#[derive(Debug, PartialEq, Eq)]
pub struct Element {
    pub name: String,
    pub attributes: Vec<(String, String)>,
    pub children: Vec<Element>,
}

/// An element as contracts speak of it.
pub struct ElementModel {
    pub name: Seq<char>,
    pub attributes: Seq<(Seq<char>, Seq<char>)>,
    pub children: Seq<ElementModel>,
}

impl DeepView for Element {
    type V = ElementModel;

    open spec fn deep_view(&self) -> ElementModel
        decreases self,
    {
        ElementModel {
            name: self.name@,
            attributes: self.attributes.deep_view(),
            children: models_of(self.children@),
        }
    }
}

/// The models of `elements`, in order.
pub open spec fn models_of(elements: Seq<Element>) -> Seq<ElementModel>
    decreases elements,
{
    if elements.len() == 0 {
        Seq::empty()
    } else {
        models_of(elements.drop_last()).push(elements.last().deep_view())
    }
}

/// `models_of` goes element by element: it is what viewing a vector in depth does.
pub proof fn lemma_models_of(elements: Seq<Element>)
    ensures
        models_of(elements) == Seq::new(elements.len(), |i: int| elements[i].deep_view()),
    decreases elements.len(),
{
    if elements.len() > 0 {
        let shorter = elements.drop_last();
        lemma_models_of(shorter);
        assert(models_of(elements) == models_of(shorter).push(elements.last().deep_view()));
    }
}

/// What `attribute_pair` does with `input`: it matches an identifier, the sign `=` and a
/// quoted string, one right after the other, and yields the identifier and the string. A
/// failure is at the slice where the part that is missing was looked for; a string
/// without its second quote fails where the string begins.
pub open spec fn attribute_pair_outcome(input: Seq<char>) -> Outcome<(Seq<char>, Seq<char>)> {
    match identifier_outcome(input) {
        Outcome::Failed { at } => Outcome::Failed { at },
        Outcome::Matched { value: key, rest } => match literal_outcome("="@, rest) {
            Outcome::Failed { at } => Outcome::Failed { at },
            Outcome::Matched { rest: after_sign, .. } => match quoted_string_outcome(after_sign) {
                Outcome::Failed { at } => Outcome::Failed { at },
                Outcome::Matched { value, rest: end } => Outcome::Matched {
                    value: (key, value),
                    rest: end,
                },
            },
        },
    }
}

/// A parser for one attribute: `key="value"`.
pub fn attribute_pair<'a>() -> (parser: impl Parse<'a, (String, String)>)
    ensures
        parser.lawful(),
        forall|input: Seq<char>, out: Outcome<(String, String)>| #[trigger]
            parser.admits(input, out) ==> out.deep_view() == attribute_pair_outcome(input),
{
    let sign = match_literal("=");
    let text = quoted_string();
    let value = combinators::right(sign, text);
    proof {
        lemma_identifier_parser();
    }
    combinators::pair(identifier, value)
}

/// What matching one more attribute does with `input`: whitespace must come first, at
/// least one character of it, and then an attribute. Without whitespace the match fails
/// with `input`.
pub open spec fn spaced_attribute_outcome(input: Seq<char>) -> Outcome<(Seq<char>, Seq<char>)> {
    match run_outcome(whitespace_class(), 1, input) {
        Outcome::Failed { at } => Outcome::Failed { at },
        Outcome::Matched { rest, .. } => attribute_pair_outcome(rest),
    }
}

/// `spaced_attribute_outcome` as a function.
pub open spec fn spaced_attribute() -> spec_fn(Seq<char>) -> Outcome<(Seq<char>, Seq<char>)> {
    |input: Seq<char>| spaced_attribute_outcome(input)
}

/// What `attributes` does with `input`: it matches attributes, each after whitespace, as
/// many as follow, and yields them in order. It never fails.
pub open spec fn attributes_outcome(input: Seq<char>) -> Outcome<Seq<(Seq<char>, Seq<char>)>> {
    combinators::repeated_outcome(spaced_attribute(), 0, input)
}

/// A parser for the attributes of a tag: any number of them, each preceded by whitespace.
pub fn attributes<'a>() -> (parser: impl Parse<'a, Vec<(String, String)>>)
    ensures
        parser.lawful(),
        forall|input: Seq<char>, out: Outcome<Vec<(String, String)>>| #[trigger]
            parser.admits(input, out) ==> out.deep_view() == attributes_outcome(input),
{
    let space = space_some();
    let attribute = attribute_pair();
    let one = combinators::right(space, attribute);
    proof {
        assert forall|input: Seq<char>, out: Outcome<(String, String)>| #[trigger]
            one.admits(input, out) implies out.deep_view() == spaced_attribute()(input)
            && (out is Matched ==> out->rest.len() < input.len()) by {
            lemma_run_length_ends(whitespace_class(), input);
            let after_space = skip_spaces(input);
            lemma_attribute_pair_narrows(after_space);
        }
    }
    let parser = combinators::zero_or_more(one);
    proof {
        assert forall|input: Seq<char>, out: Outcome<Vec<(String, String)>>| #[trigger]
            parser.admits(input, out) implies out.deep_view() == attributes_outcome(input) by {
            combinators::lemma_repeat_follows(one, spaced_attribute(), 0, input, out);
        }
    }
    parser
}

/// An attribute never ends behind the slice that it started at.
proof fn lemma_attribute_pair_narrows(input: Seq<char>)
    ensures
        attribute_pair_outcome(input) matches Outcome::Matched { rest, .. } ==> rest.len()
            <= input.len(),
{
    lemma_run_length_ends(crate::util::name_class(), input.skip(1));
    let named = identifier_outcome(input);
    if named is Matched {
        let signed = literal_outcome("="@, named->rest);
        if signed is Matched {
            let after = signed->rest;
            lemma_quoted_string_narrows(after);
        }
    }
}

/// A quoted string never ends behind the slice that it started at.
proof fn lemma_quoted_string_narrows(input: Seq<char>)
    ensures
        quoted_string_outcome(input) matches Outcome::Matched { rest, .. } ==> rest.len()
            <= input.len(),
{
    lemma_run_length_ends(crate::util::unquoted_class(), input.skip(1));
}

/// What `element_start` does with `input`: it matches `<`, an identifier right after it,
/// and the attributes; it yields the name and the attributes. A failure is at the slice
/// where the part that is missing was looked for.
pub open spec fn element_start_outcome(input: Seq<char>) -> Outcome<
    (Seq<char>, Seq<(Seq<char>, Seq<char>)>),
> {
    match literal_outcome("<"@, input) {
        Outcome::Failed { at } => Outcome::Failed { at },
        Outcome::Matched { rest: after_bracket, .. } => match identifier_outcome(after_bracket) {
            Outcome::Failed { at } => Outcome::Failed { at },
            Outcome::Matched { value: name, rest } => {
                let found = attributes_outcome(rest);
                Outcome::Matched { value: (name, found->value), rest: found->rest }
            },
        },
    }
}

/// A parser for the start of a tag, up to where the tag is closed: `<name key="value"`.
pub fn element_start<'a>() -> (parser: impl Parse<'a, (String, Vec<(String, String)>)>)
    ensures
        parser.lawful(),
        forall|input: Seq<char>, out: Outcome<(String, Vec<(String, String)>)>| #[trigger]
            parser.admits(input, out) ==> out.deep_view() == element_start_outcome(input),
{
    let bracket = match_literal("<");
    let found = attributes();
    proof {
        lemma_identifier_parser();
    }
    let named = combinators::pair(identifier, found);
    combinators::right(bracket, named)
}

/// The element with the name and the attributes of `start` and without children.
pub open spec fn childless(start: (Seq<char>, Seq<(Seq<char>, Seq<char>)>)) -> ElementModel {
    ElementModel { name: start.0, attributes: start.1, children: Seq::empty() }
}

/// What a tag that ends in `closing` does with `input`: after what `element_start`
/// matches, `closing` must follow at once.
pub open spec fn tag_outcome(closing: Seq<char>, input: Seq<char>) -> Outcome<ElementModel> {
    match element_start_outcome(input) {
        Outcome::Failed { at } => Outcome::Failed { at },
        Outcome::Matched { value: start, rest } => match literal_outcome(closing, rest) {
            Outcome::Failed { at } => Outcome::Failed { at },
            Outcome::Matched { rest: end, .. } => Outcome::Matched {
                value: childless(start),
                rest: end,
            },
        },
    }
}

/// The element that a tag with this name and these attributes stands for by itself.
fn new_element(start: (String, Vec<(String, String)>)) -> (element: Element)
    ensures
        element.deep_view() == childless(start.deep_view()),
{
    Element { name: start.0, attributes: start.1, children: Vec::new() }
}

/// A parser for a tag that ends in `closing`.
fn tag<'a>(closing: &'static str) -> (parser: impl Parse<'a, Element>)
    ensures
        parser.lawful(),
        forall|input: Seq<char>, out: Outcome<Element>| #[trigger]
            parser.admits(input, out) ==> out.deep_view() == tag_outcome(closing@, input),
{
    let start = element_start();
    let end = match_literal(closing);
    let whole = combinators::left(start, end);
    let build = |start: (String, Vec<(String, String)>)| -> (element: Element)
        ensures
            element.deep_view() == childless(start.deep_view()),
        { new_element(start) };
    combinators::map(whole, build)
}

/// What `single_element` does with `input`: it matches a tag that closes itself.
pub open spec fn single_element_outcome(input: Seq<char>) -> Outcome<ElementModel> {
    tag_outcome("/>"@, input)
}

/// A parser for an element without children, in one tag: `<name key="value"/>`.
pub fn single_element<'a>() -> (parser: impl Parse<'a, Element>)
    ensures
        parser.lawful(),
        forall|input: Seq<char>, out: Outcome<Element>| #[trigger]
            parser.admits(input, out) ==> out.deep_view() == single_element_outcome(input),
{
    tag("/>")
}

/// What `open_element` does with `input`: it matches an opening tag.
pub open spec fn open_element_outcome(input: Seq<char>) -> Outcome<ElementModel> {
    tag_outcome(">"@, input)
}

/// A parser for an opening tag: `<name key="value">`. It yields the element without
/// children.
pub fn open_element<'a>() -> (parser: impl Parse<'a, Element>)
    ensures
        parser.lawful(),
        forall|input: Seq<char>, out: Outcome<Element>| #[trigger]
            parser.admits(input, out) ==> out.deep_view() == open_element_outcome(input),
{
    tag(">")
}

/// What a closing tag does with `input`, whatever its name: it matches `</`, an
/// identifier and `>`, one right after the other, and yields the identifier.
pub open spec fn closing_tag_outcome(input: Seq<char>) -> Outcome<Seq<char>> {
    match literal_outcome("</"@, input) {
        Outcome::Failed { at } => Outcome::Failed { at },
        Outcome::Matched { rest: after_bracket, .. } => match identifier_outcome(after_bracket) {
            Outcome::Failed { at } => Outcome::Failed { at },
            Outcome::Matched { value: name, rest } => match literal_outcome(">"@, rest) {
                Outcome::Failed { at } => Outcome::Failed { at },
                Outcome::Matched { rest: end, .. } => Outcome::Matched { value: name, rest: end },
            },
        },
    }
}

/// What `close_element(expected_name)` does with `input`: it matches a closing tag with
/// the name `expected`. Where there is no closing tag, or one with another name, it fails
/// with `input`.
pub open spec fn close_element_outcome(expected: Seq<char>, input: Seq<char>) -> Outcome<Seq<char>> {
    match closing_tag_outcome(input) {
        Outcome::Matched { value, rest } if value == expected => Outcome::Matched { value, rest },
        _ => Outcome::Failed { at: input },
    }
}

/// A parser for the closing tag of the element `expected_name`: `</name>`.
pub fn close_element<'a>(expected_name: String) -> (parser: impl Parse<'a, String>)
    ensures
        parser.lawful(),
        forall|input: Seq<char>, out: Outcome<String>| #[trigger]
            parser.admits(input, out) ==> out@ == close_element_outcome(expected_name@, input),
{
    let opening = match_literal("</");
    let closing = match_literal(">");
    proof {
        lemma_identifier_parser();
    }
    let named = combinators::left(identifier, closing);
    let any_tag = combinators::right(opening, named);
    let is_expected = move |name: &String| -> (b: bool)
        ensures
            b == (name@ == expected_name@),
        { *name == expected_name };
    combinators::filter(any_tag, is_expected)
}

/// A tag consumes at least one character.
pub proof fn lemma_tag_consumes(closing: Seq<char>, input: Seq<char>)
    ensures
        tag_outcome(closing, input) matches Outcome::Matched { rest, .. } ==> rest.len()
            < input.len(),
{
    reveal_strlit("<");
    let bracket = literal_outcome("<"@, input);
    if bracket is Matched {
        let named = identifier_outcome(bracket->rest);
        lemma_run_length_ends(crate::util::name_class(), bracket->rest.skip(1));
        if named is Matched {
            combinators::lemma_run_of_narrows(spaced_attribute(), named->rest);
        }
    }
}

/// What `element` does with `input`.
///
/// Whitespace before the element is skipped. Then comes an element in one tag or, where
/// there is none, an element with an opening and a closing tag; a failure of the latter is
/// the failure of the whole. Whitespace after the element is consumed with it.
pub open spec fn element_outcome(input: Seq<char>) -> Outcome<ElementModel>
    decreases input.len(), 1nat,
{
    let start = skip_spaces(input);
    let single = single_element_outcome(start);
    let inner = if single is Matched {
        single
    } else {
        proof {
            lemma_run_length_ends(whitespace_class(), input);
        }
        parent_element_outcome(start)
    };
    match inner {
        Outcome::Matched { value, rest } => Outcome::Matched { value, rest: skip_spaces(rest) },
        Outcome::Failed { at } => Outcome::Failed { at },
    }
}

/// What `parent_element` does with `input`: it matches an opening tag, the elements that
/// follow it, as many as there are, and the closing tag with the name of the opening one.
/// Without the opening tag the failure is that of `open_element`; without the closing tag
/// it is at the slice where the tag was looked for.
pub open spec fn parent_element_outcome(input: Seq<char>) -> Outcome<ElementModel>
    decreases input.len(), 0nat,
{
    match open_element_outcome(input) {
        Outcome::Failed { at } => Outcome::Failed { at },
        Outcome::Matched { value: opened, rest } => {
            proof {
                lemma_tag_consumes(">"@, input);
            }
            let (children, after) = children_outcome(rest);
            match close_element_outcome(opened.name, after) {
                Outcome::Failed { at } => Outcome::Failed { at },
                Outcome::Matched { rest: end, .. } => Outcome::Matched {
                    value: ElementModel {
                        name: opened.name,
                        attributes: opened.attributes,
                        children,
                    },
                    rest: end,
                },
            }
        },
    }
}

/// The elements that follow one another from `input` on, and what is left after them.
pub open spec fn children_outcome(input: Seq<char>) -> (Seq<ElementModel>, Seq<char>)
    decreases input.len(), 2nat,
{
    match element_outcome(input) {
        Outcome::Matched { value, rest } if rest.len() < input.len() => {
            let (children, end) = children_outcome(rest);
            (seq![value] + children, end)
        },
        _ => (seq![], input),
    }
}

/// What is left after the children is no longer than the input.
pub proof fn lemma_children_narrow(input: Seq<char>)
    ensures
        children_outcome(input).1.len() <= input.len(),
    decreases input.len(),
{
    match element_outcome(input) {
        Outcome::Matched { value, rest } if rest.len() < input.len() => {
            lemma_children_narrow(rest);
        },
        _ => {},
    }
}

/// An element consumes at least one character.
pub proof fn lemma_element_consumes(input: Seq<char>)
    ensures
        element_outcome(input) matches Outcome::Matched { rest, .. } ==> rest.len() < input.len(),
        parent_element_outcome(input) matches Outcome::Matched { rest, .. } ==> rest.len()
            < input.len(),
{
    lemma_run_length_ends(whitespace_class(), input);
    let start = skip_spaces(input);
    lemma_tag_consumes("/>"@, start);
    lemma_parent_element_consumes(start);
    lemma_parent_element_consumes(input);
    let out = element_outcome(input);
    if out is Matched {
        let single = single_element_outcome(start);
        let inner = if single is Matched {
            single
        } else {
            parent_element_outcome(start)
        };
        lemma_run_length_ends(whitespace_class(), inner->rest);
    }
}

/// An element with an opening and a closing tag consumes at least one character.
proof fn lemma_parent_element_consumes(input: Seq<char>)
    ensures
        parent_element_outcome(input) matches Outcome::Matched { rest, .. } ==> rest.len()
            < input.len(),
{
    lemma_tag_consumes(">"@, input);
    let opened = open_element_outcome(input);
    if opened is Matched {
        lemma_children_narrow(opened->rest);
        let after = children_outcome(opened->rest).1;
        lemma_closing_tag_narrows(after);
    }
}

/// A closing tag never ends behind the slice that it started at.
proof fn lemma_closing_tag_narrows(input: Seq<char>)
    ensures
        closing_tag_outcome(input) matches Outcome::Matched { rest, .. } ==> rest.len()
            <= input.len(),
{
    let bracket = literal_outcome("</"@, input);
    if bracket is Matched {
        lemma_run_length_ends(crate::util::name_class(), bracket->rest.skip(1));
    }
}

/// The model of an element holds the models of its children.
proof fn lemma_element_model(element: Element)
    ensures
        element.deep_view().name == element.name@,
        element.deep_view().attributes == element.attributes.deep_view(),
        element.deep_view().children == element.children.deep_view(),
{
    lemma_models_of(element.children@);
}

/// What is left of `input` without the whitespace at its start.
fn skip_whitespace(input: &str) -> (rest: &str)
    ensures
        rest@ == skip_spaces(input@),
        rest@.is_suffix_of(input@),
{
    let spaces = spaces_any();
    match spaces.parse(input) {
        Ok((rest, _)) => rest,
        Err(_) => input,
    }
}

/// Parses one element at the start of `input`, with the whitespace around it.
pub fn parse_element(input: &str) -> (r: ParseResult<'_, Element>)
    ensures
        outcome(r).deep_view() == element_outcome(input@),
        outcome(r).position().is_suffix_of(input@),
    decreases input@.len(), 1nat,
{
    let start = skip_whitespace(input);
    let single = single_element();
    let (rest, element) = match single.parse(start) {
        Ok(matched) => matched,
        Err(_) => match parse_parent_element(start) {
            Ok(matched) => matched,
            Err(at) => return Err(at),
        },
    };
    let end = skip_whitespace(rest);
    Ok((end, element))
}

/// Parses one element with an opening and a closing tag at the start of `input`.
pub fn parse_parent_element(input: &str) -> (r: ParseResult<'_, Element>)
    ensures
        outcome(r).deep_view() == parent_element_outcome(input@),
        outcome(r).position().is_suffix_of(input@),
    decreases input@.len(), 0nat,
{
    let open = open_element();
    match open.parse(input) {
        Err(at) => Err(at),
        Ok((rest, opened)) => {
            proof {
                lemma_tag_consumes(">"@, input@);
            }
            let mut children: Vec<Element> = Vec::new();
            let mut position = rest;
            let mut more = true;
            while more
                invariant
                    position@.len() <= rest@.len(),
                    rest@.len() < input@.len(),
                    position@.is_suffix_of(input@),
                    rest@.is_suffix_of(input@),
                    children_outcome(rest@) == (
                        children.deep_view() + children_outcome(position@).0,
                        children_outcome(position@).1,
                    ),
                    !more ==> children_outcome(position@) == (
                        Seq::<ElementModel>::empty(),
                        position@,
                    ),
                decreases position@.len() + (if more { 1nat } else { 0nat }),
            {
                match parse_element(position) {
                    Ok((next, child)) => {
                        proof {
                            lemma_element_consumes(position@);
                            let before = children.deep_view();
                            let later = children_outcome(next@).0;
                            assert(before + (seq![child.deep_view()] + later) =~= before.push(
                                child.deep_view(),
                            ) + later);
                        }
                        children.push(child);
                        position = next;
                    },
                    Err(_) => more = false,
                }
            }
            let close = close_element(opened.name.clone());
            match close.parse(position) {
                Ok((end, _)) => {
                    let element = Element {
                        name: opened.name,
                        attributes: opened.attributes,
                        children,
                    };
                    proof {
                        lemma_element_model(element);
                    }
                    Ok((end, element))
                },
                Err(at) => Err(at),
            }
        },
    }
}

/// A parser for an element with an opening tag, child elements and a closing tag of the
/// same name: `<name key="value"> ... </name>`.
pub fn parent_element<'a>() -> (parser: impl Parse<'a, Element>)
    ensures
        parser.lawful(),
        forall|input: Seq<char>, out: Outcome<Element>| #[trigger]
            parser.admits(input, out) ==> out.deep_view() == parent_element_outcome(input),
{
    proof {
        lemma_function_parser::<_, Element>(parse_parent_element);
    }
    parse_parent_element
}

/// A parser for an element, in one tag or with an opening and a closing tag, and with any
/// whitespace around it.
pub fn element<'a>() -> (parser: impl Parse<'a, Element>)
    ensures
        parser.lawful(),
        forall|input: Seq<char>, out: Outcome<Element>| #[trigger]
            parser.admits(input, out) ==> out.deep_view() == element_outcome(input),
{
    proof {
        lemma_function_parser::<_, Element>(parse_element);
    }
    parse_element
}

} // verus!
