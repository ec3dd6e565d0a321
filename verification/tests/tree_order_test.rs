use rquery::Document;

#[test]
fn it_assigns_node_indices_in_monotonically_increasing_order() {
    let document = Document::new_from_xml_string(
        r#"
<sample type="simple">
  This is some text
  <!-- This is a comment -->
  <title>Simple Sample</title>
  <note long="false">Some unrecognisable scribbling</note>

  <related>
    <!-- This is another comment -->
    <item id="1">
      <title>Another Sample</title>
      <ref>http://path.to.somewhere</ref>
    </item>

    <item id="2">
      <title>Other Sample</title>
      <ref>http://some.other.path</ref>
    </item>
  </related>

  <!-- div soup goodness -->
  <div></div>
  <div>
    <other>
      <div></div>
    </other>
    <div>
      <div></div>
      <div>
        <div></div>
        <div></div>
      </div>
    </div>
  </div>
</sample>
"#,
    )
    .unwrap();

    let root = document.root();
    assert_eq!(root.node_index(), 0);

    root.children_deep_iter().iter().fold(0, |index, child| {
        assert!(index < child.node_index());
        child.node_index()
    });
}
