use rquery::Document;
use rquery::SelectError;

fn sample_document() -> Document {
    Document::new_from_xml_string(
        r#"
<sample type="simple">
  This is some text
  <!-- This is a comment -->
  <title>Simple Sample</title>
  <note long="false">Some unrecognisable scribbling</note>

  <related>
    <!-- This is another comment -->
    <item id="1">
      <title>Another Sample</title>
      <ref>http://path.to.somewhere</ref>
    </item>

    <item id="2">
      <title>Other Sample</title>
      <ref>http://some.other.path</ref>
    </item>
  </related>

  <!-- div soup goodness -->
  <div></div>
  <div>
    <other>
      <div></div>
    </other>
    <div>
      <div></div>
      <div>
        <div></div>
        <div></div>
      </div>
    </div>
  </div>
</sample>
"#,
    )
    .unwrap()
}

#[test]
fn querying_by_selectors_test_it_supports_the_tag_selector() {
    let document = sample_document();

    let notes = document.select_all("note").unwrap();
    assert_eq!(notes.len(), 1);
    assert_eq!(notes[0].text().as_str(), "Some unrecognisable scribbling");
}

#[test]
fn querying_by_selectors_test_it_supports_the_nested_tag_selector() {
    let document = sample_document();

    let titles = document.select_all("related title").unwrap();
    assert_eq!(titles.len(), 2);
    assert_eq!(titles[0].text().as_str(), "Another Sample");
}

#[test]
fn querying_by_selectors_test_it_supports_nesting_selectors() {
    let document = sample_document();

    let related = document.select("related").unwrap();
    let titles = related.select_all("title").unwrap();
    assert_eq!(titles.len(), 2);
    assert_eq!(titles[1].text().as_str(), "Other Sample");
}

#[test]
fn it_supports_the_direct_child_tag_selector() {
    let document = sample_document();

    let titles = document.select_all("sample > title").unwrap();
    assert_eq!(titles.len(), 1);
    assert_eq!(titles[0].text().as_str(), "Simple Sample");
}

#[test]
fn it_returns_a_no_match_error_when_the_selector_does_not_match_any_element() {
    let document = sample_document();

    match document.select("nonexistentelement") {
        Err(SelectError::NoMatchError) => {}
        _ => panic!("The select did not result in an error!"),
    }
}

#[test]
fn it_returns_a_parse_error_when_the_selector_is_invalid() {
    let document = sample_document();

    match document.select("?") {
        Err(SelectError::ParseError(_)) => {}
        _ => panic!("The invalid selector did not result in an error!"),
    }
}

#[test]
fn it_supports_the_attribute_selector() {
    let document = sample_document();

    let notes = document.select_all("[long=\"false\"]").unwrap();
    assert_eq!(notes.len(), 1);
    assert_eq!(notes[0].text().as_str(), "Some unrecognisable scribbling");
}

#[test]
fn it_supports_the_id_selector() {
    let document = Document::new_from_xml_string(
        r#"<list>
             <item id="id-1">one</item>
             <item id="id-2">two</item>
           </list>"#,
    )
    .unwrap();

    let found = document.select("#id-1").unwrap();
    assert_eq!(found.tag_name(), "item");
    assert_eq!(found.attr("id").unwrap().as_str(), "id-1");
    assert_eq!(document.select_all("#id-1").unwrap().len(), 1);
}

#[test]
fn it_supports_the_compound_selectors() {
    let document = Document::new_from_xml_string(
        r#"<collection>
             <div type="one">first</div>
             <div type="two">second</div>
             <div type="three">third</div>
           </collection>"#,
    )
    .unwrap();

    let found = document.select("div[type=three]").unwrap();
    assert_eq!(found.tag_name(), "div");
    assert_eq!(found.attr("type").unwrap().as_str(), "three");
    assert_eq!(found.text().as_str(), "third");
}

#[test]
fn it_does_not_repeat_elements() {
    let document = sample_document();

    assert_eq!(document.select_all("div").unwrap().len(), 8);
    assert_eq!(document.select_all("div > div").unwrap().len(), 5);
    assert_eq!(document.select_all("div div").unwrap().len(), 6);
}
