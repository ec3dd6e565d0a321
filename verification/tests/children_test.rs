use rquery::Document;

#[test]
fn it_knows_its_combined_child_text_contents() {
    let document = Document::new_from_xml_string(
        "<root><div>N\u{ed} m\u{e9} an ar \u{c1}it an Phuint<!-- ceist --> n\u{f3} na gC\u{fa}ig D\u{e9}ag at\u{e1} m\u{e9} curtha?</div></root>",
    )
    .unwrap();
    let div = document.select("div").unwrap();

    assert_eq!(
        div.text().as_str(),
        "N\u{ed} m\u{e9} an ar \u{c1}it an Phuint n\u{f3} na gC\u{fa}ig D\u{e9}ag at\u{e1} m\u{e9} curtha?"
    );
}
