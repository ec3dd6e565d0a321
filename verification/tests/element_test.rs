use rquery::Document;

fn main_document() -> Document {
    Document::new_from_xml_string(r#"<main type="simple">This is some text</main>"#).unwrap()
}

#[test]
fn element_test_it_knows_its_tag_name() {
    let document = main_document();
    let element = document.select("main").unwrap();

    assert_eq!(element.tag_name(), "main");
}

#[test]
fn element_test_it_knows_its_attributes() {
    let document = main_document();
    let element = document.select("main").unwrap();

    assert_eq!(element.attr("type").unwrap().as_str(), "simple");
}

#[test]
fn element_test_it_knows_its_inner_text_contents() {
    let document = main_document();
    let element = document.select("main").unwrap();

    assert_eq!(element.text().as_str(), "This is some text");
}

#[test]
fn a_missing_attribute_is_none() {
    let document = main_document();
    let element = document.select("main").unwrap();

    assert!(element.attr("missing").is_none());
}

#[test]
fn subtree_size_counts_the_element_itself() {
    let document = Document::new_from_xml_string(
        "<related><item><title>A</title><ref>r</ref></item><item><title>B</title><ref>s</ref></item></related>",
    )
    .unwrap();
    let related = document.select("related").unwrap();

    assert_eq!(related.subtree_size(), 7);
    assert_eq!(related.children_iter().len(), 2);
    assert_eq!(related.children_deep_iter().len(), 6);
}
