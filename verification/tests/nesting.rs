use rdf_triples::nesting::Nesting;
use rdf_triples::writer::Document;
use rdf_triples::xml::{Tag, XmlEvent};
use rdf_triples::{AbbrevRdfXmlFormatter, AbbrevRdfXmlFormatterConfig, FormatError, PrefixMap};

fn tag(name: &str) -> Tag {
    Tag::new(name.to_string())
}

#[test]
fn close_without_open_is_a_protocol_violation() {
    let mut nesting = Nesting::new();
    let mut out = Vec::new();
    let r = nesting.write_close(&mut out);
    assert!(matches!(r, Err(FormatError::CloseWithoutOpen)));
    assert_eq!(r.unwrap_err().message(), "close when no close is available");
    assert!(out.is_empty());
    assert_eq!(nesting.depth(), 0);
}

#[test]
fn close_of_a_pending_element_collapses_it() {
    let mut nesting = Nesting::new();
    let mut out = Vec::new();
    nesting.write_start(tag("a"), &mut out);
    assert!(out.is_empty());
    assert!(nesting.is_pending());
    assert_eq!(nesting.depth(), 1);
    nesting.write_close(&mut out).unwrap();
    assert_eq!(out, vec![XmlEvent::Empty(tag("a"))]);
    assert!(!nesting.is_pending());
    assert_eq!(nesting.depth(), 0);
}

#[test]
fn any_other_event_writes_the_pending_opening_first() {
    let mut nesting = Nesting::new();
    let mut out = Vec::new();
    nesting.write_start(tag("a"), &mut out);
    nesting.write_event(XmlEvent::Text("x".to_string()), &mut out);
    nesting.write_close(&mut out).unwrap();
    assert_eq!(
        out,
        vec![XmlEvent::Start(tag("a")), XmlEvent::Text("x".to_string()), XmlEvent::End("a".to_string())]
    );
}

#[test]
fn a_second_opening_writes_the_first() {
    let mut nesting = Nesting::new();
    let mut out = Vec::new();
    nesting.write_start(tag("a"), &mut out);
    nesting.write_start(tag("b"), &mut out);
    assert_eq!(out, vec![XmlEvent::Start(tag("a"))]);
    assert_eq!(nesting.depth(), 2);
    nesting.write_close(&mut out).unwrap();
    nesting.write_close(&mut out).unwrap();
    assert_eq!(
        out,
        vec![XmlEvent::Start(tag("a")), XmlEvent::Empty(tag("b")), XmlEvent::End("a".to_string())]
    );
    assert!(matches!(nesting.write_close(&mut out), Err(FormatError::CloseWithoutOpen)));
}

#[test]
fn flush_writes_a_pending_opening_once() {
    let mut nesting = Nesting::new();
    let mut out = Vec::new();
    nesting.flush(&mut out);
    assert!(out.is_empty());
    nesting.write_start(tag("a"), &mut out);
    nesting.flush(&mut out);
    nesting.flush(&mut out);
    assert_eq!(out, vec![XmlEvent::Start(tag("a"))]);
}

#[test]
fn tag_keeps_its_attributes_in_order() {
    let mut t = tag("a");
    t.push_attribute("k1", "v1");
    t.push_attribute("k2", "v2");
    assert_eq!(t.name, "a");
    assert_eq!(
        t.attributes,
        vec![("k1".to_string(), "v1".to_string()), ("k2".to_string(), "v2".to_string())]
    );
    assert_eq!(t.clone(), t);
}

#[test]
fn document_renders_events_with_margins() {
    let mut document = Document::new(2);
    let mut a = tag("a");
    a.push_attribute("k", "<v>");
    document
        .write_all(&vec![
            XmlEvent::Decl,
            XmlEvent::Start(a),
            XmlEvent::Empty(tag("b")),
            XmlEvent::Start(tag("c")),
            XmlEvent::Text("x & y".to_string()),
            XmlEvent::End("c".to_string()),
            XmlEvent::End("a".to_string()),
        ])
        .unwrap();
    assert_eq!(
        String::from_utf8(document.into_bytes()).unwrap(),
        "<?xml version=\"1.0\" encoding=\"UTF-8\"?>\n<a k=\"&lt;v&gt;\">\n  <b/>\n  <c>x &amp; y</c>\n</a>"
    );
}

#[test]
fn document_writes_one_event() {
    let mut document = Document::new(0);
    document.write(&XmlEvent::Text("'q'".to_string())).unwrap();
    assert_eq!(document.into_bytes(), b"&apos;q&apos;".to_vec());
}

#[test]
fn closing_more_than_was_opened_keeps_the_margin_at_zero() {
    let mut document = Document::new(4);
    document.write(&XmlEvent::End("a".to_string())).unwrap();
    document.write(&XmlEvent::End("b".to_string())).unwrap();
    assert_eq!(document.into_bytes(), b"</a>\n</b>".to_vec());
}

#[test]
fn indentation_beyond_what_a_vector_holds_is_too_deep() {
    let mut document = Document::new(usize::MAX);
    document.write(&XmlEvent::Decl).unwrap();
    let r = document.write(&XmlEvent::Start(tag("a")));
    assert!(matches!(r, Err(FormatError::TooDeep)));
    assert_eq!(r.unwrap_err().message(), "the indentation of the document is too deep");
    assert_eq!(document.into_bytes(), b"<?xml version=\"1.0\" encoding=\"UTF-8\"?>".to_vec());

    let mut config = AbbrevRdfXmlFormatterConfig::new();
    config.indentation = usize::MAX;
    assert!(matches!(AbbrevRdfXmlFormatter::new(config), Err(FormatError::TooDeep)));
}

#[test]
fn prefix_map_binds_and_rebinds() {
    let mut map = PrefixMap::new();
    assert_eq!(map.len(), 0);
    assert_eq!(map.get("http://a/"), None);
    map.insert("http://a/".to_string(), "a".to_string());
    map.insert("http://b/".to_string(), "b".to_string());
    assert_eq!(map.len(), 2);
    assert_eq!(map.get("http://a/"), Some("a"));
    assert_eq!(map.get("http://b/"), Some("b"));
    map.insert("http://a/".to_string(), "x".to_string());
    assert_eq!(map.len(), 2);
    assert_eq!(map.get("http://a/"), Some("x"));
    assert_eq!(map.namespace_at(0), "http://a/");
    assert_eq!(map.prefix_at(0), "x");
    assert_eq!(map.namespace_at(1), "http://b/");
    assert_eq!(map.clone(), map);
}

#[test]
fn configuration_starts_empty() {
    let config = AbbrevRdfXmlFormatterConfig::new();
    assert!(!config.bnode_contract);
    assert!(!config.typed_node);
    assert_eq!(config.indentation, 0);
    assert_eq!(config.prefix.len(), 0);
    let other = AbbrevRdfXmlFormatterConfig::default();
    assert_eq!(other.indentation, 0);
    assert_eq!(other.prefix, config.prefix);
    let mut third = config.clone();
    third.prefix.insert("http://a/".to_string(), "a".to_string());
    assert_eq!(config.prefix.len(), 0);
    assert_eq!(third.prefix.len(), 1);
}

#[test]
fn document_hands_out_what_was_written_since_the_last_time() {
    let mut document = Document::new(0);
    document.write(&XmlEvent::Start(tag("a"))).unwrap();
    let mut out = Vec::new();
    document.take(&mut out);
    assert_eq!(out, b"<a>".to_vec());
    document.write(&XmlEvent::Text("x".to_string())).unwrap();
    document.take(&mut out);
    assert_eq!(out, b"<a>x".to_vec());
    document.write(&XmlEvent::End("a".to_string())).unwrap();
    assert_eq!(document.into_bytes(), b"</a>".to_vec());
}

#[test]
fn document_tells_whether_events_fit() {
    let deep = Document::new(usize::MAX);
    assert!(deep.fits(&vec![XmlEvent::Decl, XmlEvent::Text("x".to_string()), XmlEvent::End("a".to_string())]));
    assert!(!deep.fits(&vec![XmlEvent::Decl, XmlEvent::Start(tag("a"))]));
    assert!(deep.fits(&vec![]));
    let flat = Document::new(2);
    assert!(flat.fits(&vec![XmlEvent::Start(tag("a")), XmlEvent::Start(tag("b")), XmlEvent::End("b".to_string())]));
}

#[test]
fn writing_stops_at_the_event_that_is_too_deep() {
    let mut document = Document::new(usize::MAX);
    let r = document.write_all(&vec![XmlEvent::Decl, XmlEvent::Start(tag("a")), XmlEvent::Text("x".to_string())]);
    assert!(matches!(r, Err(FormatError::TooDeep)));
    assert_eq!(document.into_bytes(), b"<?xml version=\"1.0\" encoding=\"UTF-8\"?>".to_vec());
}

#[test]
fn nesting_is_copied() {
    let mut nesting = Nesting::new();
    let mut out = Vec::new();
    nesting.write_start(tag("a"), &mut out);
    nesting.write_start(tag("b"), &mut out);
    let mut copy = nesting.clone();
    assert_eq!(copy.depth(), 2);
    assert!(copy.is_pending());
    let mut written = Vec::new();
    copy.write_close(&mut written).unwrap();
    copy.write_close(&mut written).unwrap();
    assert_eq!(written, vec![XmlEvent::Empty(tag("b")), XmlEvent::End("a".to_string())]);
    assert_eq!(nesting.depth(), 2);
}
