use parser_combinators::parse::Parse;
use parser_combinators::re_compile::range_quantifier::{range_quantifier, RangeQuantifier};

#[test]
fn trivial() {
    let p = range_quantifier();
    let illegal = "mhgsdkjafg";
    assert_eq!(Err(illegal), p.parse(illegal));
}

#[test]
fn dangling_curly_brace() {
    let p = range_quantifier();
    let dangling = r"{54,88";
    assert_eq!(Err(""), p.parse(dangling));
}

#[test]
fn space_after_comma() {
    let p = range_quantifier();
    assert_eq!(Err(" 88}"), p.parse(r"{54, 88}"));
}

#[test]
fn exact_number() {
    let p = range_quantifier();
    assert_eq!(
        Ok(("", RangeQuantifier::new(75, Some(75)))),
        p.parse(r"{75}")
    )
}

#[test]
fn unbounded_range() {
    let p = range_quantifier();
    assert_eq!(Ok(("", RangeQuantifier::new(34, None))), p.parse(r"{34,}"))
}

#[test]
fn exact_range() {
    let p = range_quantifier();
    assert_eq!(Ok(("", RangeQuantifier::new(1, Some(3)))), p.parse(r"{1,3}"))
}
