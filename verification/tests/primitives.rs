use parser_combinators::parse::Parse;
use parser_combinators::text::{same_bytes, split_first, strip_prefix, utf8_width};
use parser_combinators::util::{
    any_char, collect_string, digit, identifier, match_literal, match_string, number,
    parse_decimal, quoted_string, space_some, spaces_any, whitespace_char, whitespace_wrap,
};

#[test]
fn literal_consumes_exactly_the_expected_text() {
    let p = match_literal("Hello Joe!");
    assert_eq!(Ok(("", ())), p.parse("Hello Joe!"));
    assert_eq!(Ok((" Hello Robert!", ())), p.parse("Hello Joe! Hello Robert!"));
    assert_eq!(Err("Hello Mike!"), p.parse("Hello Mike!"));
}

#[test]
fn literal_fails_on_an_input_that_is_too_short() {
    let p = match_literal("Hello");
    assert_eq!(Err("Hell"), p.parse("Hell"));
    assert_eq!(Err(""), p.parse(""));
}

#[test]
fn empty_literal_matches_everywhere() {
    let p = match_literal("");
    assert_eq!(Ok(("abc", ())), p.parse("abc"));
    assert_eq!(Ok(("", ())), p.parse(""));
}

#[test]
fn literal_compares_whole_characters() {
    assert_eq!(Ok(("t\u{e9}", ())), match_literal("\u{e9}").parse("\u{e9}t\u{e9}"));
    assert_eq!(Err("\u{e9}"), match_literal("e").parse("\u{e9}"));
    assert_eq!(Err("\u{e9}"), match_literal("\u{e8}").parse("\u{e9}"));
    assert_eq!(Err("e"), match_literal("\u{e9}").parse("e"));
}

#[test]
fn match_string_is_match_literal_for_owned_text() {
    let p = match_string("ab".to_string());
    assert_eq!(Ok(("c", ())), p.parse("abc"));
    assert_eq!(Err("acb"), p.parse("acb"));
    assert_eq!(Err("a"), p.parse("a"));
}

#[test]
fn any_char_takes_one_character_of_any_width() {
    assert_eq!(Ok(("mg", 'o')), any_char("omg"));
    assert_eq!(Ok(("!", '\u{e9}')), any_char("\u{e9}!"));
    assert_eq!(Ok(("", '\u{1f600}')), any_char("\u{1f600}"));
    assert_eq!(Err(""), any_char(""));
}

#[test]
fn digit_takes_one_numeric_character() {
    assert_eq!(Ok(("2", '1')), digit().parse("12"));
    assert_eq!(Err("a1"), digit().parse("a1"));
    assert_eq!(Err(""), digit().parse(""));
}

#[test]
fn whitespace_char_takes_one_whitespace_character() {
    assert_eq!(Ok((" a", ' ')), whitespace_char().parse("  a"));
    assert_eq!(Ok(("a", '\n')), whitespace_char().parse("\na"));
    assert_eq!(Err("a "), whitespace_char().parse("a "));
    assert_eq!(Err(""), whitespace_char().parse(""));
}

#[test]
fn space_some_needs_one_whitespace_character() {
    assert_eq!(Ok(("a ", vec![' ', '\t', '\n'])), space_some().parse(" \t\na "));
    assert_eq!(Err("a "), space_some().parse("a "));
    assert_eq!(Err(""), space_some().parse(""));
}

#[test]
fn spaces_any_never_fails() {
    assert_eq!(Ok(("a ", vec![' ', ' '])), spaces_any().parse("  a "));
    assert_eq!(Ok(("a ", vec![])), spaces_any().parse("a "));
    assert_eq!(Ok(("", vec![])), spaces_any().parse(""));
}

#[test]
fn whitespace_wrap_drops_the_whitespace_on_both_sides() {
    let p = whitespace_wrap(match_literal("x"));
    assert_eq!(Ok(("y ", ())), p.parse("  x \n y "));
    assert_eq!(Ok(("", ())), p.parse("x"));
}

#[test]
fn whitespace_wrap_fails_where_the_parser_fails() {
    let p = whitespace_wrap(match_literal("x"));
    assert_eq!(Err("y"), p.parse("  y"));
    assert_eq!(Err(""), p.parse("   "));
}

#[test]
fn quoted_string_yields_what_is_between_the_quotes() {
    assert_eq!(Ok((" tail", "".to_string())), quoted_string().parse("\"\" tail"));
    assert_eq!(
        Ok(("\"", "a b".to_string())),
        quoted_string().parse("\"a b\"\"")
    );
}

#[test]
fn quoted_string_fails_without_a_quote() {
    assert_eq!(Err("Hello\""), quoted_string().parse("Hello\""));
    assert_eq!(Err(""), quoted_string().parse(""));
}

#[test]
fn unterminated_quoted_string_fails_with_the_whole_input() {
    assert_eq!(Err("\"abc"), quoted_string().parse("\"abc"));
    assert_eq!(Err("\"Hello"), quoted_string().parse("\"Hello"));
    assert_eq!(Err("\""), quoted_string().parse("\""));
    assert_eq!(Err("abc"), quoted_string().parse("abc"));
}

#[test]
fn number_reads_decimal() {
    assert_eq!(Ok(("abc", 123)), number().parse("123abc"));
    assert_eq!(Ok(("", 7)), number().parse("007"));
    assert_eq!(Ok((" 1", 0)), number().parse("0 1"));
    assert_eq!(
        Ok(("", 18446744073709551615)),
        number().parse("18446744073709551615")
    );
}

#[test]
fn number_fails_with_the_whole_input() {
    assert_eq!(Err(""), number().parse(""));
    assert_eq!(Err("abc1"), number().parse("abc1"));
    assert_eq!(Err("-1"), number().parse("-1"));
    assert_eq!(
        Err("18446744073709551616"),
        number().parse("18446744073709551616")
    );
    assert_eq!(
        Err("99999999999999999999999 "),
        number().parse("99999999999999999999999 ")
    );
}

#[test]
fn number_fails_on_numeric_characters_that_are_no_decimal_digits() {
    assert_eq!(Err("\u{663}"), number().parse("\u{663}"));
    assert_eq!(Err("1\u{b2}"), number().parse("1\u{b2}"));
}

#[test]
fn parse_decimal_on_digits_and_others() {
    assert_eq!(Some(0), parse_decimal(&vec![]));
    assert_eq!(Some(42), parse_decimal(&vec!['4', '2']));
    assert_eq!(None, parse_decimal(&vec!['4', 'x']));
    assert_eq!(None, parse_decimal(&vec!['/']));
    assert_eq!(None, parse_decimal(&vec![':']));
    assert_eq!(
        Some(18446744073709551615),
        parse_decimal(&"18446744073709551615".chars().collect())
    );
    assert_eq!(None, parse_decimal(&"18446744073709551616".chars().collect()));
    assert_eq!(None, parse_decimal(&"18446744073709551620".chars().collect()));
}

#[test]
fn collect_string_keeps_the_order() {
    assert_eq!("", collect_string(vec![]));
    assert_eq!("a\u{e9}b", collect_string(vec!['a', '\u{e9}', 'b']));
}

#[test]
fn identifier_stops_at_the_first_other_character() {
    assert_eq!(
        Ok(("", "i-am-an-identifier".to_string())),
        identifier("i-am-an-identifier")
    );
    assert_eq!(
        Ok((" entirely an identifier", "not".to_string())),
        identifier("not entirely an identifier")
    );
    assert_eq!(Ok(("_b", "a1".to_string())), identifier("a1_b"));
    assert_eq!(Ok(("", "\u{e9}t\u{e9}".to_string())), identifier("\u{e9}t\u{e9}"));
}

#[test]
fn identifier_needs_an_alphabetic_start() {
    assert_eq!(
        Err("!not at all an identifier"),
        identifier("!not at all an identifier")
    );
    assert_eq!(Err("1a"), identifier("1a"));
    assert_eq!(Err("-a"), identifier("-a"));
    assert_eq!(Err(""), identifier(""));
}

#[test]
fn split_first_cuts_after_one_character() {
    assert_eq!(Some(('a', "bc")), split_first("abc"));
    assert_eq!(Some(('\u{e9}', "t")), split_first("\u{e9}t"));
    assert_eq!(Some(('\u{20ac}', "")), split_first("\u{20ac}"));
    assert_eq!(None, split_first(""));
}

#[test]
fn strip_prefix_cuts_after_the_prefix() {
    assert_eq!(Some("c"), strip_prefix("abc", "ab"));
    assert_eq!(Some(""), strip_prefix("abc", "abc"));
    assert_eq!(Some("abc"), strip_prefix("abc", ""));
    assert_eq!(None, strip_prefix("abc", "abd"));
    assert_eq!(None, strip_prefix("ab", "abc"));
    assert_eq!(None, strip_prefix("\u{e9}", "\u{c3}"));
}

#[test]
fn utf8_width_is_the_encoded_length() {
    assert_eq!(1, utf8_width('a'));
    assert_eq!(1, utf8_width('\u{7f}'));
    assert_eq!(2, utf8_width('\u{80}'));
    assert_eq!(2, utf8_width('\u{7ff}'));
    assert_eq!(3, utf8_width('\u{800}'));
    assert_eq!(3, utf8_width('\u{ffff}'));
    assert_eq!(4, utf8_width('\u{10000}'));
    assert_eq!(4, utf8_width('\u{10ffff}'));
}

#[test]
fn same_bytes_compares_length_and_content() {
    assert!(same_bytes(b"", b""));
    assert!(same_bytes(b"abc", b"abc"));
    assert!(!same_bytes(b"abc", b"abd"));
    assert!(!same_bytes(b"abc", b"ab"));
}

#[test]
fn primitive_matchers_fail_with_the_input_they_were_given() {
    assert_eq!(Err("xyz"), match_literal("abc").parse("xyz"));
    assert_eq!(Err("xyz"), match_string("abc".to_string()).parse("xyz"));
    assert_eq!(Err("xyz"), digit().parse("xyz"));
    assert_eq!(Err("xyz"), whitespace_char().parse("xyz"));
    assert_eq!(Err("xyz"), space_some().parse("xyz"));
    assert_eq!(Err("xyz"), number().parse("xyz"));
    assert_eq!(Err("?xyz"), identifier("?xyz"));
    assert_eq!(Err("xyz"), quoted_string().parse("xyz"));
    assert_eq!(Err("\"xyz"), quoted_string().parse("\"xyz"));
}
