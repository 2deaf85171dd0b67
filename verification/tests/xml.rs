use parser_combinators::parse::Parse;
use parser_combinators::xml::{
    attribute_pair, attributes, close_element, element, element_start, open_element,
    parent_element, single_element, Element,
};

fn leaf(name: &str, attributes: Vec<(&str, &str)>) -> Element {
    Element {
        name: name.to_string(),
        attributes: attributes
            .into_iter()
            .map(|(key, value)| (key.to_string(), value.to_string()))
            .collect(),
        children: vec![],
    }
}

#[test]
fn attribute_pair_yields_key_and_value() {
    assert_eq!(
        Ok((" rest", ("one".to_string(), "1".to_string()))),
        attribute_pair().parse("one=\"1\" rest")
    );
}

#[test]
fn attribute_pair_fails_where_a_part_is_missing() {
    assert_eq!(Err("=\"1\""), attribute_pair().parse("=\"1\""));
    assert_eq!(Err(" =\"1\""), attribute_pair().parse("one =\"1\""));
    assert_eq!(Err("1"), attribute_pair().parse("one=1"));
    assert_eq!(Err("\"1"), attribute_pair().parse("one=\"1"));
}

#[test]
fn attributes_stop_before_an_unterminated_value() {
    assert_eq!(
        Ok((" b=\"2", vec![("a".to_string(), "1".to_string())])),
        attributes().parse(" a=\"1\" b=\"2")
    );
    assert_eq!(Err(" b=\"2>"), single_element().parse("<x b=\"2>"));
}

#[test]
fn attributes_need_whitespace_before_each() {
    assert_eq!(
        Ok((
            "",
            vec![
                ("one".to_string(), "1".to_string()),
                ("two".to_string(), "2".to_string())
            ]
        )),
        attributes().parse(" one=\"1\"  two=\"2\"")
    );
    assert_eq!(Ok(("one=\"1\"", vec![])), attributes().parse("one=\"1\""));
    assert_eq!(
        Ok(("two=\"2\"", vec![("one".to_string(), "1".to_string())])),
        attributes().parse(" one=\"1\"two=\"2\"")
    );
}

#[test]
fn attributes_keep_duplicate_keys_in_order() {
    assert_eq!(
        Ok((
            "/>",
            vec![
                ("a".to_string(), "1".to_string()),
                ("a".to_string(), "2".to_string())
            ]
        )),
        attributes().parse(" a=\"1\" a=\"2\"/>")
    );
}

#[test]
fn attributes_hand_back_the_whitespace_that_no_attribute_follows() {
    assert_eq!(Ok((" />", vec![])), attributes().parse(" />"));
}

#[test]
fn element_start_yields_name_and_attributes() {
    assert_eq!(
        Ok((
            "/>",
            (
                "div".to_string(),
                vec![("class".to_string(), "float".to_string())]
            )
        )),
        element_start().parse("<div class=\"float\"/>")
    );
    assert_eq!(Err("div"), element_start().parse("div"));
    assert_eq!(Err(" div>"), element_start().parse("< div>"));
}

#[test]
fn single_element_with_one_attribute() {
    assert_eq!(
        Ok(("", leaf("div", vec![("class", "float")]))),
        single_element().parse("<div class=\"float\"/>")
    );
}

#[test]
fn single_element_fails_at_the_missing_end() {
    assert_eq!(Err(">"), single_element().parse("<div>"));
    assert_eq!(Err(" />"), single_element().parse("<div />"));
}

#[test]
fn open_element_stops_after_the_tag() {
    assert_eq!(
        Ok(("inside", leaf("div", vec![]))),
        open_element().parse("<div>inside")
    );
    assert_eq!(Err("/>"), open_element().parse("<div/>"));
}

#[test]
fn close_element_wants_the_expected_name() {
    assert_eq!(
        Ok((" after", "div".to_string())),
        close_element("div".to_string()).parse("</div> after")
    );
    assert_eq!(
        Err("</span>"),
        close_element("div".to_string()).parse("</span>")
    );
    assert_eq!(Err("</div"), close_element("div".to_string()).parse("</div"));
    assert_eq!(Err("<div>"), close_element("div".to_string()).parse("<div>"));
}

#[test]
fn parent_element_with_children() {
    let expected = Element {
        name: "top".to_string(),
        attributes: vec![("label".to_string(), "Top".to_string())],
        children: vec![
            leaf("semi-bottom", vec![("label", "Bottom")]),
            Element {
                name: "middle".to_string(),
                attributes: vec![],
                children: vec![leaf("bottom", vec![("label", "Another bottom")])],
            },
        ],
    };
    let doc = r#"
        <top label="Top">
            <semi-bottom label="Bottom"/>
            <middle>
                <bottom label="Another bottom"/>
            </middle>
        </top>"#;
    assert_eq!(Ok(("", expected)), element().parse(doc));
}

#[test]
fn parent_element_without_children() {
    let expected = Element {
        name: "a".to_string(),
        attributes: vec![],
        children: vec![],
    };
    assert_eq!(Ok(("", expected)), parent_element().parse("<a></a>"));
}

#[test]
fn parent_element_does_not_skip_whitespace_before_the_tag() {
    assert_eq!(Err(" <a></a>"), parent_element().parse(" <a></a>"));
}

#[test]
fn element_consumes_the_whitespace_around_it() {
    assert_eq!(
        Ok(("next", leaf("a", vec![]))),
        element().parse("  <a/> \n next")
    );
}

#[test]
fn mismatched_closing_tag_fails_where_it_was_looked_for() {
    let doc = r#"
        <top>
            <bottom/>
        </middle>"#;
    assert_eq!(Err("</middle>"), element().parse(doc));
}

#[test]
fn missing_closing_tag_fails_at_the_end() {
    assert_eq!(Err(""), element().parse("<top><bottom/>"));
}

#[test]
fn element_fails_on_text() {
    assert_eq!(Err("oops"), element().parse("  oops"));
}
