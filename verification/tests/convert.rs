use rdf_triples::chars::{chars_of, is_name_char, is_name_start_char};
use rdf_triples::config::str_eq;
use rdf_triples::writer::Document;
use rdf_triples::xml::XmlEvent;
use rdf_triples::{
    AsRefBlankNode, AsRefLiteral, AsRefNamedNode, AsRefNamedOrBlankNode, AsRefTerm, AsRefTriple,
    NTriplesParser, TurtleError, TurtleErrorKind,
};
use rio_api::model::{BlankNode, Literal, NamedNode, NamedOrBlankNode, Term, Triple};

#[test]
fn terms_of_rio_are_copied() {
    let t = Triple {
        subject: NamedOrBlankNode::BlankNode(BlankNode { id: "b" }),
        predicate: NamedNode { iri: "http://a/p" },
        object: Term::Literal(Literal::Typed { value: "5", datatype: NamedNode { iri: "http://a/t" } }),
    };
    let owned = AsRefTriple::from(t);
    assert_eq!(
        owned,
        AsRefTriple {
            subject: AsRefNamedOrBlankNode::BlankNode(AsRefBlankNode { id: "b".to_string() }),
            predicate: AsRefNamedNode { iri: "http://a/p".to_string() },
            object: AsRefTerm::Literal(AsRefLiteral::Typed {
                value: "5".to_string(),
                datatype: AsRefNamedNode { iri: "http://a/t".to_string() }
            }),
        }
    );
}

#[test]
fn literals_of_rio_keep_their_kind() {
    assert_eq!(
        AsRefLiteral::from(Literal::Simple { value: "x" }),
        AsRefLiteral::Simple { value: "x".to_string() }
    );
    assert_eq!(
        AsRefLiteral::from(Literal::LanguageTaggedString { value: "x", language: "en" }),
        AsRefLiteral::LanguageTaggedString { value: "x".to_string(), language: "en".to_string() }
    );
    assert_eq!(
        AsRefTerm::from(Term::NamedNode(NamedNode { iri: "http://a/o" })),
        AsRefTerm::NamedNode(AsRefNamedNode { iri: "http://a/o".to_string() })
    );
    assert_eq!(
        AsRefTerm::from(Term::BlankNode(BlankNode { id: "o" })),
        AsRefTerm::BlankNode(AsRefBlankNode { id: "o".to_string() })
    );
    assert_eq!(
        AsRefNamedOrBlankNode::from(NamedOrBlankNode::NamedNode(NamedNode { iri: "http://a/s" })),
        AsRefNamedOrBlankNode::NamedNode(AsRefNamedNode { iri: "http://a/s".to_string() })
    );
}

#[test]
fn subjects_are_the_same_by_kind_and_text() {
    let a = AsRefNamedOrBlankNode::NamedNode(AsRefNamedNode { iri: "x".to_string() });
    let b = AsRefNamedOrBlankNode::BlankNode(AsRefBlankNode { id: "x".to_string() });
    let c = AsRefNamedOrBlankNode::NamedNode(AsRefNamedNode { iri: "y".to_string() });
    assert!(a.same_as(&a.clone()));
    assert!(b.same_as(&b.clone()));
    assert!(!a.same_as(&b));
    assert!(!a.same_as(&c));
}

#[test]
fn name_characters() {
    assert!(is_name_start_char('a'));
    assert!(is_name_start_char('Z'));
    assert!(is_name_start_char('_'));
    assert!(is_name_start_char(':'));
    assert!(is_name_start_char('\u{e9}'));
    assert!(!is_name_start_char('1'));
    assert!(!is_name_start_char('-'));
    assert!(!is_name_start_char('.'));
    assert!(!is_name_start_char('\u{d7}'));
    assert!(is_name_char('1'));
    assert!(is_name_char('-'));
    assert!(is_name_char('.'));
    assert!(is_name_char('\u{b7}'));
    assert!(!is_name_char('/'));
    assert!(!is_name_char('#'));
    assert!(!is_name_char(' '));
}

#[test]
fn characters_and_equality_of_text() {
    assert_eq!(chars_of("a\u{e9}\u{1F600}"), vec!['a', '\u{e9}', '\u{1F600}']);
    assert!(str_eq("abc", "abc"));
    assert!(!str_eq("abc", "abd"));
}

#[test]
fn parse_all_reads_to_the_end() {
    let mut parser = NTriplesParser::new(b"# head\n<http://a/s> <http://a/p> \"x\" .\n\n_:b <http://a/p> <http://a/o> .".to_vec());
    let triples = parser.parse_all().unwrap();
    assert_eq!(triples.len(), 2);
    assert_eq!(triples[0].object, AsRefTerm::Literal(AsRefLiteral::Simple { value: "x".to_string() }));
    assert_eq!(triples[1].subject, AsRefNamedOrBlankNode::BlankNode(AsRefBlankNode { id: "b".to_string() }));
    assert!(parser.is_end());
    assert_eq!(parser.parse_all(), Ok(vec![]));
}

#[test]
fn parse_all_stops_at_the_first_violation() {
    let mut parser = NTriplesParser::new(b"<http://a/s> <http://a/p> \"x\" .\n<http://a/s> <http://a/p> .\n<http://a/s> <http://a/p> \"z\" .\n".to_vec());
    assert_eq!(
        parser.parse_all(),
        Err(TurtleError { kind: TurtleErrorKind::UnexpectedByte(b'.'), line_number: 2 })
    );
    parser.skip_line();
    assert_eq!(parser.parse_all().map(|v| v.len()), Ok(1));
}

#[test]
fn what_the_serializer_writes_of_a_term_reads_back() {
    for value in ["Foo", "caf\u{e9} au lait", "x=1;y=2", "http://example.com/a?b#c"] {
        let mut document = Document::new(0);
        document.write(&XmlEvent::Text(value.to_string())).unwrap();
        let written = String::from_utf8(document.into_bytes()).unwrap();
        assert_eq!(written, value);
        let line = format!("<http://a/s> <http://a/p> \"{}\"@en .", written);
        let t = NTriplesParser::new(line.into_bytes()).parse_step().unwrap().unwrap();
        assert_eq!(
            t.object,
            AsRefTerm::Literal(AsRefLiteral::LanguageTaggedString {
                value: value.to_string(),
                language: "en".to_string()
            })
        );
    }
    let iri = "http://example.com/a?b#c";
    let mut document = Document::new(0);
    document.write(&XmlEvent::Text(iri.to_string())).unwrap();
    let line = format!("<{}> <http://a/p> <http://a/o> .", String::from_utf8(document.into_bytes()).unwrap());
    let t = NTriplesParser::new(line.into_bytes()).parse_step().unwrap().unwrap();
    assert_eq!(t.subject, AsRefNamedOrBlankNode::NamedNode(AsRefNamedNode { iri: iri.to_string() }));
}

#[test]
fn a_backslash_does_not_read_back() {
    let mut document = Document::new(0);
    document.write(&XmlEvent::Text("a\\tb".to_string())).unwrap();
    let written = String::from_utf8(document.into_bytes()).unwrap();
    assert_eq!(written, "a\\tb");
    let line = format!("<http://a/s> <http://a/p> \"{}\" .", written);
    let t = NTriplesParser::new(line.into_bytes()).parse_step().unwrap().unwrap();
    assert_eq!(t.object, AsRefTerm::Literal(AsRefLiteral::Simple { value: "a\tb".to_string() }));
}

#[test]
fn reading_line_by_line_gives_what_reading_the_whole_gives() {
    let input: &[u8] = b"<http://a/s> <http://a/p> \"x\" .\n# c\n\n_:b <http://a/p> _:c.d .\r\n<http://a/s> <http://a/p> \"y\"@en\n<http://a/s> <http://a/p> <http://a/o> .";
    let mut whole = NTriplesParser::new(input.to_vec());
    let mut parts = NTriplesParser::new(Vec::new());
    let mut rest = input;
    while !rest.is_empty() {
        let end = rest.iter().position(|b| *b == b'\n').map(|p| p + 1).unwrap_or(rest.len());
        let mut line = rest[..end].to_vec();
        rest = &rest[end..];
        parts.refill(&mut line);
        let expected = whole.parse_step();
        assert_eq!(parts.parse_step(), expected);
        if expected.is_err() {
            whole.skip_line();
            parts.skip_line();
        }
        assert!(parts.is_end());
        assert_eq!(parts.line_number(), whole.line_number());
    }
    assert!(whole.is_end());
}
