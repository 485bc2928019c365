use rdf_triples::{
    split_iri, AbbrevRdfXmlFormatter, AbbrevRdfXmlFormatterConfig, AsRefBlankNode, AsRefLiteral,
    AsRefNamedNode, AsRefNamedOrBlankNode, AsRefTerm, AsRefTriple,
};

const RDF_TYPE: &str = "http://www.w3.org/1999/02/22-rdf-syntax-ns#type";
const HEAD: &str = "<?xml version=\"1.0\" encoding=\"UTF-8\"?>\n<rdf:RDF xmlns:schema=\"http://schema.org/\" xmlns:rdf=\"http://www.w3.org/1999/02/22-rdf-syntax-ns#\">";

fn named(iri: &str) -> AsRefNamedNode {
    AsRefNamedNode { iri: iri.to_string() }
}

fn triple(subject: &str, predicate: &str, object: AsRefTerm) -> AsRefTriple {
    AsRefTriple {
        subject: AsRefNamedOrBlankNode::NamedNode(named(subject)),
        predicate: named(predicate),
        object,
    }
}

fn simple(value: &str) -> AsRefTerm {
    AsRefTerm::Literal(AsRefLiteral::Simple { value: value.to_string() })
}

fn schema_config(indentation: usize) -> AbbrevRdfXmlFormatterConfig {
    let mut config = AbbrevRdfXmlFormatterConfig::new();
    config.indentation = indentation;
    config.prefix.insert("http://schema.org/".to_string(), "schema".to_string());
    config
}

fn serialize(config: AbbrevRdfXmlFormatterConfig, triples: &[AsRefTriple]) -> String {
    let mut formatter = AbbrevRdfXmlFormatter::new(config).unwrap();
    for t in triples {
        formatter.format(t).unwrap();
    }
    String::from_utf8(formatter.finish().unwrap()).unwrap()
}

#[test]
fn split_iri_cuts_off_the_local_name() {
    assert_eq!(split_iri("http://schema.org/Person"), ("http://schema.org/", "Person"));
}

#[test]
fn split_iri_after_a_fragment_mark() {
    assert_eq!(split_iri(RDF_TYPE), ("http://www.w3.org/1999/02/22-rdf-syntax-ns#", "type"));
}

#[test]
fn split_iri_without_a_local_name() {
    assert_eq!(split_iri("http://schema.org/"), ("http://schema.org/", ""));
    assert_eq!(split_iri("http://example.com/123"), ("http://example.com/123", ""));
    assert_eq!(split_iri(""), ("", ""));
}

#[test]
fn split_iri_skips_what_cannot_begin_a_name() {
    assert_eq!(split_iri("http://example.com/1abc"), ("http://example.com/1", "abc"));
    assert_eq!(split_iri("http://example.com/-a.b"), ("http://example.com/-", "a.b"));
}

#[test]
fn split_iri_of_name_characters_only_is_all_namespace() {
    assert_eq!(split_iri("Person"), ("Person", ""));
}

#[test]
fn split_iri_counts_characters_not_bytes() {
    assert_eq!(split_iri("http://example.com/\u{e9}t\u{e9}"), ("http://example.com/", "\u{e9}t\u{e9}"));
    assert_eq!(split_iri("http://example.com/\u{2603}x"), ("http://example.com/\u{2603}", "x"));
}

#[test]
fn typed_subject_with_a_property() {
    let out = serialize(
        schema_config(0),
        &[
            triple("http://example.com/foo", RDF_TYPE, AsRefTerm::NamedNode(named("http://schema.org/Person"))),
            triple("http://example.com/foo", "http://schema.org/name", simple("Foo")),
        ],
    );
    let expected = format!(
        "{}\n<schema:Person rdf:about=\"http://example.com/foo\">\n<schema:name>Foo</schema:name>\n</schema:Person>\n</rdf:RDF>",
        HEAD
    );
    assert_eq!(out, expected);
    let flat: String = out.chars().filter(|c| *c != '\n').collect();
    assert!(flat.contains(
        "<schema:Person rdf:about=\"http://example.com/foo\"><schema:name>Foo</schema:name></schema:Person>"
    ));
    assert!(!flat.contains("rdf:Description"));
}

#[test]
fn typed_subject_alone_is_self_closed() {
    let out = serialize(
        schema_config(0),
        &[triple("http://example.com/foo", RDF_TYPE, AsRefTerm::NamedNode(named("http://schema.org/Person")))],
    );
    let expected = format!("{}\n<schema:Person rdf:about=\"http://example.com/foo\"/>\n</rdf:RDF>", HEAD);
    assert_eq!(out, expected);
}

#[test]
fn two_subjects_close_the_first_before_the_second() {
    let out = serialize(
        schema_config(2),
        &[
            triple("http://example.com/foo", "http://schema.org/name", simple("Foo")),
            triple("http://example.com/bar", "http://schema.org/name", simple("Bar")),
        ],
    );
    let expected = format!(
        "{}\n  <rdf:Description rdf:about=\"http://example.com/foo\">\n    <schema:name>Foo</schema:name>\n  </rdf:Description>\n  <rdf:Description rdf:about=\"http://example.com/bar\">\n    <schema:name>Bar</schema:name>\n  </rdf:Description>\n</rdf:RDF>",
        HEAD
    );
    assert_eq!(out, expected);
    assert_eq!(out.matches("<rdf:Description").count(), out.matches("</rdf:Description>").count());
    assert_eq!(out.matches("<schema:name>").count(), out.matches("</schema:name>").count());
    assert_eq!(out.matches("<rdf:RDF").count(), out.matches("</rdf:RDF>").count());
}

#[test]
fn empty_document() {
    let out = serialize(AbbrevRdfXmlFormatterConfig::new(), &[]);
    assert_eq!(
        out,
        "<?xml version=\"1.0\" encoding=\"UTF-8\"?>\n<rdf:RDF xmlns:rdf=\"http://www.w3.org/1999/02/22-rdf-syntax-ns#\">\n</rdf:RDF>"
    );
}

#[test]
fn rdf_prefix_is_always_rdf() {
    let mut config = AbbrevRdfXmlFormatterConfig::new();
    config.prefix.insert("http://www.w3.org/1999/02/22-rdf-syntax-ns#".to_string(), "r".to_string());
    let out = serialize(config, &[]);
    assert!(out.contains("xmlns:rdf=\"http://www.w3.org/1999/02/22-rdf-syntax-ns#\""));
    assert!(!out.contains("xmlns:r="));
}

#[test]
fn objects_that_are_resources_become_empty_elements() {
    let out = serialize(
        schema_config(0),
        &[
            triple("http://example.com/foo", "http://schema.org/knows", AsRefTerm::NamedNode(named("http://example.com/bar"))),
            triple(
                "http://example.com/foo",
                "http://schema.org/knows",
                AsRefTerm::BlankNode(AsRefBlankNode { id: "b1".to_string() }),
            ),
        ],
    );
    let expected = format!(
        "{}\n<rdf:Description rdf:about=\"http://example.com/foo\">\n<schema:knows rdf:resource=\"http://example.com/bar\"/>\n<schema:knows rdf:nodeID=\"b1\"/>\n</rdf:Description>\n</rdf:RDF>",
        HEAD
    );
    assert_eq!(out, expected);
}

#[test]
fn blank_subject_is_named_by_node_id() {
    let t = AsRefTriple {
        subject: AsRefNamedOrBlankNode::BlankNode(AsRefBlankNode { id: "s".to_string() }),
        predicate: named("http://schema.org/name"),
        object: simple("Foo"),
    };
    let out = serialize(schema_config(0), &[t]);
    assert!(out.contains("<rdf:Description rdf:nodeID=\"s\">"));
}

#[test]
fn literals_carry_language_or_datatype() {
    let out = serialize(
        schema_config(0),
        &[
            triple(
                "http://example.com/foo",
                "http://schema.org/name",
                AsRefTerm::Literal(AsRefLiteral::LanguageTaggedString {
                    value: "Foo".to_string(),
                    language: "en".to_string(),
                }),
            ),
            triple(
                "http://example.com/foo",
                "http://schema.org/age",
                AsRefTerm::Literal(AsRefLiteral::Typed {
                    value: "5".to_string(),
                    datatype: named("http://www.w3.org/2001/XMLSchema#integer"),
                }),
            ),
        ],
    );
    let expected = format!(
        "{}\n<rdf:Description rdf:about=\"http://example.com/foo\">\n<schema:name xml:lang=\"en\">Foo</schema:name>\n<schema:age rdf:datatype=\"http://www.w3.org/2001/XMLSchema#integer\">5</schema:age>\n</rdf:Description>\n</rdf:RDF>",
        HEAD
    );
    assert_eq!(out, expected);
}

#[test]
fn unregistered_namespace_is_declared_inline() {
    let out = serialize(
        AbbrevRdfXmlFormatterConfig::new(),
        &[triple("http://example.com/foo", "http://schema.org/name", simple("Foo"))],
    );
    assert!(out.contains("<name xmlns=\"http://schema.org/\">Foo</name>"));
}

#[test]
fn text_and_attributes_are_escaped() {
    let out = serialize(
        schema_config(0),
        &[triple("http://example.com/a?x=1&y=2", "http://schema.org/name", simple("a < b & \"c\" > 'd'"))],
    );
    assert!(out.contains("rdf:about=\"http://example.com/a?x=1&amp;y=2\""));
    assert!(out.contains("<schema:name>a &lt; b &amp; &quot;c&quot; &gt; &apos;d&apos;</schema:name>"));
}

#[test]
fn type_with_a_literal_object_is_an_ordinary_property() {
    let out = serialize(schema_config(0), &[triple("http://example.com/foo", RDF_TYPE, simple("Person"))]);
    let expected = format!(
        "{}\n<rdf:Description rdf:about=\"http://example.com/foo\">\n<rdf:type>Person</rdf:type>\n</rdf:Description>\n</rdf:RDF>",
        HEAD
    );
    assert_eq!(out, expected);
}

#[test]
fn scattered_subject_gets_separate_elements() {
    let out = serialize(
        schema_config(0),
        &[
            triple("http://example.com/foo", "http://schema.org/name", simple("Foo")),
            triple("http://example.com/bar", "http://schema.org/name", simple("Bar")),
            triple("http://example.com/foo", "http://schema.org/age", simple("5")),
        ],
    );
    assert_eq!(out.matches("<rdf:Description rdf:about=\"http://example.com/foo\">").count(), 2);
    assert_eq!(out.matches("<rdf:Description").count(), 3);
    assert_eq!(out.matches("</rdf:Description>").count(), 3);
}

#[test]
fn repeated_type_nests_and_stays_balanced() {
    let out = serialize(
        schema_config(0),
        &[
            triple("http://example.com/foo", RDF_TYPE, AsRefTerm::NamedNode(named("http://schema.org/Person"))),
            triple("http://example.com/foo", RDF_TYPE, AsRefTerm::NamedNode(named("http://schema.org/Agent"))),
        ],
    );
    let expected = format!(
        "{}\n<schema:Person rdf:about=\"http://example.com/foo\">\n<schema:Agent rdf:about=\"http://example.com/foo\"/>\n</schema:Person>\n</rdf:RDF>",
        HEAD
    );
    assert_eq!(out, expected);
}

#[test]
fn output_can_be_taken_step_by_step() {
    let triples = [
        triple("http://example.com/foo", RDF_TYPE, AsRefTerm::NamedNode(named("http://schema.org/Person"))),
        triple("http://example.com/foo", "http://schema.org/name", simple("Foo")),
        triple("http://example.com/bar", "http://schema.org/name", simple("Bar")),
    ];
    let whole = serialize(schema_config(1), &triples);

    let mut formatter = AbbrevRdfXmlFormatter::new(schema_config(1)).unwrap();
    let mut out = b"kept".to_vec();
    formatter.take_output(&mut out);
    assert_eq!(out, format!("kept{}", HEAD).into_bytes());
    let mut pieces = out[4..].to_vec();
    for t in &triples {
        formatter.format(t).unwrap();
        let mut piece = Vec::new();
        formatter.take_output(&mut piece);
        pieces.extend_from_slice(&piece);
        let mut nothing = Vec::new();
        formatter.take_output(&mut nothing);
        assert!(nothing.is_empty());
    }
    pieces.extend_from_slice(&formatter.finish().unwrap());
    assert_eq!(String::from_utf8(pieces).unwrap(), whole);
}

#[test]
fn a_type_that_is_pending_is_taken_with_the_next_step() {
    let mut formatter = AbbrevRdfXmlFormatter::new(schema_config(0)).unwrap();
    let mut head = Vec::new();
    formatter.take_output(&mut head);
    formatter
        .format(&triple("http://example.com/foo", RDF_TYPE, AsRefTerm::NamedNode(named("http://schema.org/Person"))))
        .unwrap();
    let mut piece = Vec::new();
    formatter.take_output(&mut piece);
    assert!(piece.is_empty());
    assert_eq!(
        String::from_utf8(formatter.finish().unwrap()).unwrap(),
        "\n<schema:Person rdf:about=\"http://example.com/foo\"/>\n</rdf:RDF>"
    );
}

#[test]
fn person_with_a_name_is_one_typed_element() {
    let out = serialize(
        schema_config(0),
        &[
            triple("ex:foo", RDF_TYPE, AsRefTerm::NamedNode(named("http://schema.org/Person"))),
            triple("ex:foo", "http://schema.org/name", simple("Foo")),
        ],
    );
    let flat: String = out.chars().filter(|c| *c != '\n').collect();
    assert_eq!(
        flat,
        format!(
            "{}<schema:Person rdf:about=\"ex:foo\"><schema:name>Foo</schema:name></schema:Person></rdf:RDF>",
            HEAD.replace('\n', "")
        )
    );
}

#[test]
fn person_alone_is_one_self_closed_element() {
    let out = serialize(
        schema_config(0),
        &[triple("ex:foo", RDF_TYPE, AsRefTerm::NamedNode(named("http://schema.org/Person")))],
    );
    let flat: String = out.chars().filter(|c| *c != '\n').collect();
    assert_eq!(
        flat,
        format!("{}<schema:Person rdf:about=\"ex:foo\"/></rdf:RDF>", HEAD.replace('\n', ""))
    );
}

#[test]
fn two_subjects_are_closed_in_turn() {
    let out = serialize(
        schema_config(0),
        &[
            triple("ex:foo", RDF_TYPE, AsRefTerm::NamedNode(named("http://schema.org/Person"))),
            triple("ex:bar", RDF_TYPE, AsRefTerm::NamedNode(named("http://schema.org/Person"))),
            triple("ex:bar", "http://schema.org/name", simple("Bar")),
        ],
    );
    let flat: String = out.chars().filter(|c| *c != '\n').collect();
    assert_eq!(
        flat,
        format!(
            "{}<schema:Person rdf:about=\"ex:foo\"/><schema:Person rdf:about=\"ex:bar\"><schema:name>Bar</schema:name></schema:Person></rdf:RDF>",
            HEAD.replace('\n', "")
        )
    );
}
