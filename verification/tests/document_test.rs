use rquery::Document;

#[test]
fn document_test_it_captures_the_correct_number_of_elements() {
    let document = Document::new_from_xml_string(
        r#"<sample>
             <title>Simple Sample</title>
             <note long="false">Some unrecognisable scribbling</note>
             <related>
               <item id="1"><title>Another Sample</title></item>
               <item id="2"><title>Other Sample</title></item>
             </related>
           </sample>"#,
    )
    .unwrap();

    assert_eq!(document.number_of_elements(), 8);
}
