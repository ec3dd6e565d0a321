use rquery::Document;

fn fixture_document() -> Document {
    Document::new_from_xml_string(
        r#"<sample type="simple">
  This is some text
  <title ref="main-title">Sample Document</title>
  <note long="false">Some unrecognisable scribbling</note>
  <related>
    <item id="1">
      <title>Another Sample</title>
      <ref>http://path.to.somewhere</ref>
    </item>
    <item id="2">
      <title>Other Sample</title>
      <ref>http://some.other.path</ref>
    </item>
  </related>
</sample>"#,
    )
    .unwrap()
}

#[test]
fn css_selectors_test_it_supports_the_tag_selector() {
    let document = fixture_document();

    let notes = document.select_all("note").unwrap();
    assert_eq!(notes.len(), 1);
    assert_eq!(notes[0].text().as_str(), "Some unrecognisable scribbling");
}

#[test]
fn css_selectors_test_it_supports_the_nested_tag_selector() {
    let document = fixture_document();

    let titles = document.select_all("related title").unwrap();
    assert_eq!(titles.len(), 2);
    assert_eq!(titles[0].tag_name(), "title");
}

#[test]
fn css_selectors_test_it_supports_nesting_selectors() {
    let document = fixture_document();

    let related = document.select("related").unwrap();
    let titles = related.select_all("title").unwrap();
    assert_eq!(titles.len(), 2);
    assert_eq!(titles[0].tag_name(), "title");
}

#[test]
fn the_fixture_has_ten_elements() {
    assert_eq!(fixture_document().number_of_elements(), 10);
}
