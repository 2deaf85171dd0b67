use parser_combinators::combinators;
use parser_combinators::parse::Parse;
use parser_combinators::util::{any_char, match_literal};

fn identifier(input: &str) -> Result<(&str, String), &str> {
    let mut matched = String::new();
    let mut chars = input.chars();

    match chars.next() {
        Some(next) if next.is_alphabetic() => matched.push(next),
        _ => return Err(input),
    }

    for ch in chars {
        if ch.is_alphanumeric() || ch == '-' {
            matched.push(ch);
        } else {
            break;
        }
    }

    let next_index = matched.len();
    Ok((&input[next_index..], matched))
}

#[test]
fn combinators_right_combinator() {
    let tag_opener = combinators::right(match_literal("<"), identifier);
    assert_eq!(
        Ok(("/>", "my-first-element".to_string())),
        tag_opener.parse("<my-first-element/>")
    );
    assert_eq!(Err("oops"), tag_opener.parse("oops"));
    assert_eq!(Err("!oops"), tag_opener.parse("<!oops"));
}

#[test]
fn combinators_one_or_more_combinator() {
    let parser = combinators::one_or_more(match_literal("ha"));
    assert_eq!(Ok(("", vec![(), (), ()])), parser.parse("hahaha"));
    assert_eq!(Err("ahah"), parser.parse("ahah"));
    assert_eq!(Err(""), parser.parse(""));
}

#[test]
fn combinators_zero_or_more_combinator() {
    let parser = combinators::zero_or_more(match_literal("ha"));
    assert_eq!(Ok(("", vec![(), (), ()])), parser.parse("hahaha"));
    assert_eq!(Ok(("ahah", vec![])), parser.parse("ahah"));
    assert_eq!(Ok(("", vec![])), parser.parse(""));
}

#[test]
fn repeat_combinator_5_6() {
    let p = combinators::repeat(match_literal("a"), 5..=6);
    assert_eq!(Ok(("", vec![(); 5])), p.parse("aaaaa"));
    assert_eq!(Ok(("", vec![(); 6])), p.parse("aaaaaa"));
    assert_eq!(Ok(("Trail", vec![(); 5])), p.parse("aaaaaTrail"));
    assert_eq!(Ok(("Trail", vec![(); 6])), p.parse("aaaaaaTrail"));
    assert_eq!(Err("aaaaTrail"), p.parse("aaaaTrail"));
    assert_eq!(Err("Trail"), p.parse("Trail"));
    assert_eq!(Err(""), p.parse(""));
}

#[test]
fn combinators_predicate_combinator() {
    let parser = combinators::filter(any_char, |c| *c == 'o');
    assert_eq!(Ok(("mg", 'o')), parser.parse("omg"));
    assert_eq!(Err("lol"), parser.parse("lol"));
}
