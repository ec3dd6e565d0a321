use rquery::{Document, DocumentError, ParseEvent};

#[test]
fn xml_document_test_it_captures_the_correct_number_of_elements() {
    let document = Document::new_from_xml_string(
        "<catalog><entry>one</entry><entry>two</entry><entry>three</entry></catalog>",
    )
    .unwrap();

    assert_eq!(document.number_of_elements(), 4);
}

#[test]
fn unterminated_input_is_a_parse_error() {
    match Document::new_from_xml_string("<sample>") {
        Err(DocumentError::ParseError(_)) => {}
        _ => panic!("the unterminated input did not result in an error"),
    }
}

#[test]
fn mismatched_closing_tag_is_a_parse_error() {
    match Document::new_from_xml_string("<sample></simple>") {
        Err(DocumentError::ParseError(_)) => {}
        _ => panic!("the mismatched closing tag did not result in an error"),
    }
}

#[test]
fn a_document_can_be_rebuilt_from_its_events() {
    let events = vec![
        ParseEvent::ElementStart {
            tag: "pair".to_string(),
            attributes: vec![("kind".to_string(), "greeting".to_string())],
        },
        ParseEvent::Text { content: "hello".to_string() },
        ParseEvent::ElementStart { tag: "inner".to_string(), attributes: vec![] },
        ParseEvent::ElementEnd { tag: "inner".to_string() },
        ParseEvent::ElementEnd { tag: "pair".to_string() },
    ];

    let document = Document::from_events(&events).unwrap();
    assert_eq!(document.number_of_elements(), 2);
    let pair = document.select("pair").unwrap();
    assert_eq!(pair.attr("kind").unwrap().as_str(), "greeting");
    assert_eq!(pair.text().as_str(), "hello");
}
