use rquery::Document;

#[test]
fn nested_divs_are_returned_once_per_element() {
    let document =
        Document::new_from_xml_string("<sample><div><div/></div></sample>").unwrap();

    assert_eq!(document.select_all("div").unwrap().len(), 2);
    assert_eq!(document.select_all("div > div").unwrap().len(), 1);
    assert_eq!(document.select_all("div div").unwrap().len(), 1);
}

#[test]
fn item_titles_come_in_document_order() {
    let document = Document::new_from_xml_string(
        r#"<items><item id="1"><title>A</title></item><item id="2"><title>B</title></item></items>"#,
    )
    .unwrap();

    let titles: Vec<String> = document
        .select_all("item title")
        .unwrap()
        .iter()
        .map(|element| element.text().clone())
        .collect();
    assert_eq!(titles, vec!["A".to_string(), "B".to_string()]);
}

#[test]
fn attribute_selector_matches_only_the_exact_value() {
    let document = Document::new_from_xml_string(
        r#"<batch>
             <entry type="simple">yes</entry>
             <entry type="simpler">no</entry>
             <entry type="Simple">no</entry>
             <entry type="simple ">no</entry>
             <entry other="simple">no</entry>
           </batch>"#,
    )
    .unwrap();

    let found = document.select_all("[type=\"simple\"]").unwrap();
    assert_eq!(found.len(), 1);
    assert_eq!(found[0].text().as_str(), "yes");
}

#[test]
fn the_number_of_elements_counts_every_tag_once() {
    let document = Document::new_from_xml_string(
        "<a><b><c/><c/></b><b/><d>text</d></a>",
    )
    .unwrap();

    assert_eq!(document.number_of_elements(), 6);
}

#[test]
fn select_on_an_element_searches_its_subtree_only() {
    let document = Document::new_from_xml_string(
        "<top><left><leaf>l</leaf></left><right><leaf>r</leaf></right></top>",
    )
    .unwrap();

    let right = document.select("right").unwrap();
    let leaves = right.select_all("leaf").unwrap();
    assert_eq!(leaves.len(), 1);
    assert_eq!(leaves[0].text().as_str(), "r");
}
