use rquery::{CompoundSelector, Scope, Selector, UnexpectedTokenError};

#[test]
fn it_can_parse_a_single_tag_selector() {
    let selectors = CompoundSelector::parse("apples").unwrap();

    assert_eq!(selectors.len(), 1);
    assert!(matches!(&selectors[0].parts[0], Selector::TagName(tag) if tag == "apples"));
}

#[test]
fn it_can_parse_a_nested_tag_selectors() {
    let selectors = CompoundSelector::parse("basket apple").unwrap();

    assert_eq!(selectors.len(), 2);
    assert!(matches!(&selectors[0].parts[0], Selector::TagName(tag) if tag == "basket"));
    assert!(matches!(&selectors[1].parts[0], Selector::TagName(tag) if tag == "apple"));
}

#[test]
fn it_can_parse_a_direct_child_selector() {
    let selectors = CompoundSelector::parse("basket > apple").unwrap();

    assert_eq!(selectors.len(), 2);
    assert!(matches!(&selectors[0].parts[0], Selector::TagName(tag) if tag == "basket"));
    assert!(
        selectors[1].scope == Scope::DirectChild
            && matches!(&selectors[1].parts[0], Selector::TagName(tag) if tag == "apple")
    );
}

#[test]
fn it_can_parse_the_attribute_selector() {
    let selectors = CompoundSelector::parse("[attribute=\"true-value\"]").unwrap();

    assert_eq!(selectors.len(), 1);
    assert_eq!(selectors[0].parts.len(), 1);
    match &selectors[0].parts[0] {
        Selector::Attribute(name, _, value) => {
            assert_eq!(name, "attribute");
            assert_eq!(value, "true-value");
        }
        _ => panic!("Could not parse the attribute selector"),
    }
}

#[test]
fn it_can_parse_the_id_selector() {
    let selectors = CompoundSelector::parse("#the-id").unwrap();

    assert_eq!(selectors.len(), 1);
    assert_eq!(selectors[0].parts.len(), 1);
    match &selectors[0].parts[0] {
        Selector::Id(id) => assert_eq!(id, "the-id"),
        _ => panic!("Could not parse the ID selector"),
    }
}

#[test]
fn direct_child_pair_keeps_source_order_and_scopes() {
    let selectors = CompoundSelector::parse("a > b").unwrap();

    assert_eq!(selectors.len(), 2);
    assert_eq!(selectors[0].scope, Scope::IndirectChild);
    assert!(matches!(&selectors[0].parts[0], Selector::TagName(tag) if tag == "a"));
    assert_eq!(selectors[1].scope, Scope::DirectChild);
    assert!(matches!(&selectors[1].parts[0], Selector::TagName(tag) if tag == "b"));
}

#[test]
fn question_mark_is_an_unexpected_token() {
    match CompoundSelector::parse("?") {
        Err(error) => assert_eq!(error, UnexpectedTokenError('?')),
        Ok(_) => panic!("parsing did not fail"),
    }
}

#[test]
fn trailing_combinator_reports_early_end() {
    match CompoundSelector::parse("a >") {
        Err(error) => assert_eq!(error, UnexpectedTokenError(' ')),
        Ok(_) => panic!("parsing did not fail"),
    }
}

#[test]
fn attribute_selector_without_equals_is_an_error() {
    match CompoundSelector::parse("[attr]") {
        Err(error) => assert_eq!(error, UnexpectedTokenError(']')),
        Ok(_) => panic!("parsing did not fail"),
    }
}

#[test]
fn unspaced_combinator_parses_like_the_spaced_one() {
    let selectors = CompoundSelector::parse("a>b").unwrap();

    assert_eq!(selectors.len(), 2);
    assert_eq!(selectors[0].scope, Scope::IndirectChild);
    assert_eq!(selectors[1].scope, Scope::DirectChild);
    assert!(matches!(&selectors[1].parts[0], Selector::TagName(tag) if tag == "b"));
}

#[test]
fn compound_token_splits_into_simple_selectors() {
    let selectors = CompoundSelector::parse("div#the-id[foo=\"bar\"]").unwrap();

    assert_eq!(selectors.len(), 1);
    assert_eq!(selectors[0].parts.len(), 3);
    assert!(matches!(&selectors[0].parts[0], Selector::TagName(tag) if tag == "div"));
    assert!(matches!(&selectors[0].parts[1], Selector::Id(id) if id == "the-id"));
    assert!(
        matches!(&selectors[0].parts[2], Selector::Attribute(name, _, value) if name == "foo" && value == "bar")
    );
}
