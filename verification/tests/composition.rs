use parser_combinators::combinators;
use parser_combinators::combinators::CountRange;
use parser_combinators::parse::{BoxedParser, Parse, ParseResult};
use parser_combinators::util::{any_char, digit, identifier, match_literal, number};

fn always_fail(input: &str) -> ParseResult<'_, char> {
    Err(input)
}

#[test]
fn map_transforms_the_value_and_keeps_the_remainder() {
    let p = combinators::map(number(), |n| n + 1);
    assert_eq!(Ok(("x", 42)), p.parse("41x"));
    assert_eq!(Err("x41"), p.parse("x41"));
}

#[test]
fn map_with_the_identity_changes_nothing() {
    let mapped = combinators::map(identifier, |name| name);
    for input in ["abc def", "1abc", "", "a-b!c"] {
        assert_eq!(identifier(input), mapped.parse(input));
    }
}

#[test]
fn pair_yields_both_values() {
    let p = combinators::pair(number(), identifier);
    assert_eq!(Ok((" z", (12, "ab".to_string()))), p.parse("12ab z"));
}

#[test]
fn pair_fails_with_the_slice_of_the_parser_that_failed() {
    let p = combinators::pair(match_literal("a"), match_literal("b"));
    assert_eq!(Err("xb"), p.parse("xb"));
    assert_eq!(Err("c"), p.parse("ac"));
    assert_eq!(Err(""), p.parse("a"));
}

#[test]
fn left_and_right_keep_one_value() {
    let l = combinators::left(number(), match_literal(";"));
    assert_eq!(Ok(("x", 5)), l.parse("5;x"));
    assert_eq!(Err("x"), l.parse("5x"));
    let r = combinators::right(match_literal("#"), number());
    assert_eq!(Ok(("x", 5)), r.parse("#5x"));
    assert_eq!(Err("x"), r.parse("#x"));
    assert_eq!(Err("5"), r.parse("5"));
}

#[test]
fn filter_hands_back_the_whole_input() {
    let p = combinators::filter(number(), |n| *n > 10);
    assert_eq!(Ok(("a", 11)), p.parse("11a"));
    assert_eq!(Err("10a"), p.parse("10a"));
    assert_eq!(Err("a"), p.parse("a"));
}

#[test]
fn filter_resets_past_what_a_pair_consumed() {
    let both = combinators::pair(match_literal("a"), match_literal("b"));
    let p = combinators::filter(both, |_| true);
    assert_eq!(Err("ac"), p.parse("ac"));
}

#[test]
fn either_takes_the_first_match() {
    let p = combinators::either(
        combinators::map(match_literal("ab"), |_| 1),
        combinators::map(match_literal("a"), |_| 2),
    );
    assert_eq!(Ok(("c", 1)), p.parse("abc"));
    assert_eq!(Ok(("c", 2)), p.parse("ac"));
    assert_eq!(Err("c"), p.parse("c"));
}

#[test]
fn either_gives_the_second_parser_the_same_input() {
    let first = combinators::map(
        combinators::pair(match_literal("a"), match_literal("b")),
        |_| 1,
    );
    let second = combinators::map(
        combinators::pair(match_literal("a"), match_literal("c")),
        |_| 2,
    );
    let p = combinators::either(first, second);
    assert_eq!(Ok(("", 2)), p.parse("ac"));
    assert_eq!(Err("d"), p.parse("ad"));
}

#[test]
fn either_after_a_parser_that_always_fails_is_the_second_parser() {
    let p = combinators::either(always_fail, any_char);
    for input in ["abc", "", "\u{e9}"] {
        assert_eq!(any_char(input), p.parse(input));
    }
}

#[test]
fn either_is_its_first_parser_where_that_matches() {
    let p = combinators::either(any_char, always_fail);
    let q = combinators::either(any_char, combinators::map(match_literal("a"), |_| 'z'));
    for input in ["abc", "zz"] {
        assert_eq!(any_char(input), p.parse(input));
        assert_eq!(any_char(input), q.parse(input));
    }
}

#[test]
fn and_then_builds_the_next_parser_from_the_value() {
    let p = combinators::and_then(any_char, |c: char| {
        combinators::filter(any_char, move |d| *d == c)
    });
    assert_eq!(Ok(("b", 'a')), p.parse("aab"));
    assert_eq!(Err("ba"), p.parse("aba"));
    assert_eq!(Err(""), p.parse(""));
    assert_eq!(Err(""), p.parse("a"));
}

#[test]
fn optional_never_fails() {
    let p = combinators::optional(match_literal(","));
    assert_eq!(Ok(("5", Some(()))), p.parse(",5"));
    assert_eq!(Ok(("5", None)), p.parse("5"));
    assert_eq!(Ok(("", None)), p.parse(""));
}

#[test]
fn repeat_with_a_lower_end_only() {
    let p = combinators::repeat(match_literal("a"), 2..);
    assert_eq!(Ok(("b", vec![(); 4])), p.parse("aaaab"));
    assert_eq!(Ok(("", vec![(); 2])), p.parse("aa"));
    assert_eq!(Err("ab"), p.parse("ab"));
}

#[test]
fn repeat_with_an_exclusive_upper_end() {
    let p = combinators::repeat(match_literal("a"), 2..4);
    assert_eq!(Ok(("aab", vec![(); 3])), p.parse("aaaaab"));
    assert_eq!(Ok(("b", vec![(); 2])), p.parse("aab"));
    assert_eq!(Err("ab"), p.parse("ab"));
}

#[test]
fn repeat_stops_at_the_upper_end() {
    let p = combinators::repeat(digit(), 0..=2);
    assert_eq!(Ok(("345", vec!['1', '2'])), p.parse("12345"));
    assert_eq!(Ok(("x", vec!['1'])), p.parse("1x"));
    assert_eq!(Ok(("x", vec![])), p.parse("x"));
}

#[test]
fn repeat_leaves_off_after_the_last_match() {
    let p = combinators::repeat(digit(), 1..=5);
    assert_eq!(Ok(("x4", vec!['1', '2', '3'])), p.parse("123x4"));
}

#[test]
fn repeat_with_an_upper_end_below_the_lower_matches_the_lower_count() {
    let p = combinators::repeat(match_literal("a"), 3..=1);
    assert_eq!(Ok(("aa", vec![(); 3])), p.parse("aaaaa"));
    assert_eq!(Err("aa"), p.parse("aa"));
    let q = combinators::repeat(match_literal("a"), 0..0);
    assert_eq!(Ok(("aa", vec![])), q.parse("aa"));
}

#[test]
fn repeat_fails_exactly_where_the_parser_falls_short() {
    for (least, input, fails) in [
        (0, "", false),
        (1, "", true),
        (3, "aab", true),
        (3, "aaab", false),
        (3, "aaaab", false),
        (2, "baa", true),
    ] {
        let p = combinators::repeat(match_literal("a"), least..);
        match p.parse(input) {
            Ok((rest, items)) => {
                assert!(!fails);
                assert!(items.len() >= least);
                assert_eq!(&input[items.len()..], rest);
            }
            Err(at) => {
                assert!(fails);
                assert_eq!(input, at);
            }
        }
    }
}

#[test]
fn count_ranges_have_the_ends_of_their_notation() {
    assert_eq!((3, None), (3..).ends());
    assert_eq!((2, Some(5)), (2..=5).ends());
    assert_eq!((2, Some(4)), (2..5).ends());
    assert_eq!((0, Some(0)), (0..0).ends());
    assert_eq!((7, Some(0)), (7..1).ends());
}

#[test]
fn boxed_parser_parses_as_what_it_holds() {
    let boxed = BoxedParser::new(number());
    assert_eq!(Ok(("a", 3)), boxed.parse("3a"));
    assert_eq!(Err("a3"), boxed.parse("a3"));
}

#[test]
fn boxed_parser_chains_operators() {
    let p = BoxedParser::new(number())
        .filter(|n| *n < 100)
        .map(|n| n * 2)
        .and_then(|n| combinators::map(match_literal("!"), move |_| n + 1));
    assert_eq!(Ok(("", 43)), p.parse("21!"));
    assert_eq!(Err("?"), p.parse("21?"));
    assert_eq!(Err("100!"), p.parse("100!"));
}

#[test]
fn remainders_are_suffixes_of_the_input() {
    let p = combinators::pair(
        combinators::zero_or_more(digit()),
        combinators::optional(identifier),
    );
    for input in ["123abc def", "abc", "", "12", "\u{e9}1"] {
        match p.parse(input) {
            Ok((rest, _)) => {
                assert!(input.ends_with(rest));
                assert!(rest.len() <= input.len());
            }
            Err(at) => assert!(input.ends_with(at)),
        }
    }
}
