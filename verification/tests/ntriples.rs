use rdf_triples::{
    parse_line, AsRefBlankNode, AsRefLiteral, AsRefNamedNode, AsRefNamedOrBlankNode, AsRefTerm,
    AsRefTriple, NTriplesParser, OneLookAheadLineByteReader, TurtleError, TurtleErrorKind,
};

fn named(iri: &str) -> AsRefNamedNode {
    AsRefNamedNode { iri: iri.to_string() }
}

fn blank(id: &str) -> AsRefBlankNode {
    AsRefBlankNode { id: id.to_string() }
}

fn statement(subject: &str, predicate: &str, object: AsRefTerm) -> AsRefTriple {
    AsRefTriple {
        subject: AsRefNamedOrBlankNode::NamedNode(named(subject)),
        predicate: named(predicate),
        object,
    }
}

fn simple(value: &str) -> AsRefTerm {
    AsRefTerm::Literal(AsRefLiteral::Simple { value: value.to_string() })
}

fn parse_all(input: &[u8]) -> Result<Vec<AsRefTriple>, TurtleError> {
    let mut parser = NTriplesParser::new(input.to_vec());
    let mut triples = Vec::new();
    while !parser.is_end() {
        if let Some(t) = parser.parse_step()? {
            triples.push(t);
        }
    }
    Ok(triples)
}

fn parse_one(line: &str) -> Result<Option<AsRefTriple>, TurtleError> {
    NTriplesParser::new(line.as_bytes().to_vec()).parse_step()
}

fn syntax_error(kind: TurtleErrorKind, line_number: usize) -> TurtleError {
    TurtleError { kind, line_number }
}

#[test]
fn counts_people() {
    let file = b"<http://example.com/foo> <http://www.w3.org/1999/02/22-rdf-syntax-ns#type> <http://schema.org/Person> .
<http://example.com/foo> <http://schema.org/name> \"Foo\" .
<http://example.com/bar> <http://www.w3.org/1999/02/22-rdf-syntax-ns#type> <http://schema.org/Person> .
<http://example.com/bar> <http://schema.org/name> \"Bar\" .";
    let rdf_type = named("http://www.w3.org/1999/02/22-rdf-syntax-ns#type");
    let schema_person = AsRefTerm::NamedNode(named("http://schema.org/Person"));
    let triples = parse_all(file).unwrap();
    assert_eq!(triples.len(), 4);
    let count = triples.iter().filter(|t| t.predicate == rdf_type && t.object == schema_person).count();
    assert_eq!(2, count);
    assert_eq!(triples[1], statement("http://example.com/foo", "http://schema.org/name", simple("Foo")));
}

#[test]
fn statement_with_identifier_object() {
    assert_eq!(
        parse_one("<http://a/s> <http://a/p> <http://a/o> .\n"),
        Ok(Some(statement("http://a/s", "http://a/p", AsRefTerm::NamedNode(named("http://a/o")))))
    );
}

#[test]
fn statement_with_blank_nodes() {
    let expected = AsRefTriple {
        subject: AsRefNamedOrBlankNode::BlankNode(blank("s1")),
        predicate: named("http://a/p"),
        object: AsRefTerm::BlankNode(blank("o-2")),
    };
    assert_eq!(parse_one("_:s1 <http://a/p> _:o-2 ."), Ok(Some(expected)));
}

#[test]
fn blank_node_label_keeps_inner_dots_only() {
    let t = parse_one("<http://a/s> <http://a/p> _:a.b.").unwrap().unwrap();
    assert_eq!(t.object, AsRefTerm::BlankNode(blank("a.b")));
    let t = parse_one("<http://a/s> <http://a/p> _:a.").unwrap().unwrap();
    assert_eq!(t.object, AsRefTerm::BlankNode(blank("a")));
}

#[test]
fn blank_node_label_needs_a_first_character() {
    assert_eq!(
        parse_one("_: <http://a/p> <http://a/o> ."),
        Err(syntax_error(TurtleErrorKind::UnexpectedByte(b' '), 1))
    );
    assert_eq!(parse_one("_x <http://a/p> <http://a/o> ."), Err(syntax_error(TurtleErrorKind::UnexpectedByte(b'x'), 1)));
}

#[test]
fn literal_with_language() {
    let t = parse_one("<http://a/s> <http://a/p> \"chat\"@fr-BE .").unwrap().unwrap();
    assert_eq!(
        t.object,
        AsRefTerm::Literal(AsRefLiteral::LanguageTaggedString {
            value: "chat".to_string(),
            language: "fr-BE".to_string()
        })
    );
}

#[test]
fn literal_with_datatype() {
    let t = parse_one("<http://a/s> <http://a/p> \"5\"^^<http://www.w3.org/2001/XMLSchema#integer> .")
        .unwrap()
        .unwrap();
    assert_eq!(
        t.object,
        AsRefTerm::Literal(AsRefLiteral::Typed {
            value: "5".to_string(),
            datatype: named("http://www.w3.org/2001/XMLSchema#integer")
        })
    );
}

#[test]
fn unicode_escape_decodes_to_its_character() {
    let t = parse_one("<http://a/\\u0041> <http://a/p> \"\\u0041\\U0001F600\\u00e9\" .").unwrap().unwrap();
    assert_eq!(t.subject, AsRefNamedOrBlankNode::NamedNode(named("http://a/A")));
    assert_eq!(t.object, simple("A\u{1F600}\u{e9}"));
}

#[test]
fn backslash_escape_decodes_to_a_backslash() {
    let t = parse_one("<http://a/s> <http://a/p> \"a\\\\b\" .").unwrap().unwrap();
    assert_eq!(t.object, simple("a\\b"));
}

#[test]
fn control_escapes_decode() {
    let t = parse_one("<http://a/s> <http://a/p> \"\\t\\b\\n\\r\\f\\\"\\'\" .").unwrap().unwrap();
    assert_eq!(t.object, simple("\t\u{8}\n\r\u{c}\"'"));
}

#[test]
fn text_without_escapes_is_kept_as_it_is() {
    let t = parse_one("<http://a/\u{e9}t\u{e9}?x=1&y=2> <http://a/p> \"caf\u{e9} <b> & 'x'\" .").unwrap().unwrap();
    assert_eq!(t.subject, AsRefNamedOrBlankNode::NamedNode(named("http://a/\u{e9}t\u{e9}?x=1&y=2")));
    assert_eq!(t.object, simple("caf\u{e9} <b> & 'x'"));
}

#[test]
fn unknown_escape_is_rejected() {
    assert_eq!(
        parse_one("<http://a/s> <http://a/p> \"\\x\" ."),
        Err(syntax_error(TurtleErrorKind::UnexpectedByte(b'x'), 1))
    );
    assert_eq!(
        parse_one("<http://a/s> <http://a/p> \"\\u00g1\" ."),
        Err(syntax_error(TurtleErrorKind::UnexpectedByte(b'g'), 1))
    );
}

#[test]
fn escape_of_a_surrogate_is_rejected() {
    assert_eq!(
        parse_one("<http://a/s> <http://a/p> \"\\uD800\" ."),
        Err(syntax_error(TurtleErrorKind::InvalidCodePoint(0xD800), 1))
    );
    assert_eq!(
        parse_one("<http://a/s> <http://a/p> \"\\U00110000\" ."),
        Err(syntax_error(TurtleErrorKind::InvalidCodePoint(0x110000), 1))
    );
}

#[test]
fn bytes_that_are_not_utf8_are_rejected() {
    let mut line = b"<http://a/s> <http://a/p> \"".to_vec();
    line.push(0xFF);
    line.extend_from_slice(b"\" .");
    assert_eq!(
        NTriplesParser::new(line).parse_step(),
        Err(syntax_error(TurtleErrorKind::InvalidUtf8, 1))
    );
}

#[test]
fn blank_and_comment_lines_give_no_triple() {
    let mut parser = NTriplesParser::new(b"\n   \t\n# a comment\n  # another\r\n<http://a/s> <http://a/p> \"x\" .\n".to_vec());
    assert_eq!(parser.parse_step(), Ok(None));
    assert_eq!(parser.parse_step(), Ok(None));
    assert_eq!(parser.parse_step(), Ok(None));
    assert_eq!(parser.parse_step(), Ok(None));
    assert!(!parser.is_end());
    assert_eq!(parser.parse_step(), Ok(Some(statement("http://a/s", "http://a/p", simple("x")))));
    assert!(parser.is_end());
    assert_eq!(parser.parse_step(), Ok(None));
    assert!(parser.is_end());
}

#[test]
fn comment_may_follow_a_statement() {
    assert_eq!(
        parse_all(b"<http://a/s> <http://a/p> \"x\" . # said\n<http://a/s> <http://a/p> \"y\".#again"),
        Ok(vec![
            statement("http://a/s", "http://a/p", simple("x")),
            statement("http://a/s", "http://a/p", simple("y"))
        ])
    );
}

#[test]
fn blanks_are_free() {
    assert_eq!(
        parse_one(" \t<http://a/s>\t\t<http://a/p>\"x\"  ^^  <http://a/t>.  \r\n"),
        Ok(Some(statement(
            "http://a/s",
            "http://a/p",
            AsRefTerm::Literal(AsRefLiteral::Typed { value: "x".to_string(), datatype: named("http://a/t") })
        )))
    );
}

#[test]
fn predicate_that_is_a_blank_node_is_rejected() {
    assert_eq!(
        parse_one("<http://a/s> _:p <http://a/o> ."),
        Err(syntax_error(TurtleErrorKind::UnexpectedByte(b'_'), 1))
    );
}

#[test]
fn predicate_that_is_a_literal_is_rejected() {
    assert_eq!(
        parse_one("_:s \"p\" \"o\" ."),
        Err(syntax_error(TurtleErrorKind::UnexpectedByte(b'"'), 1))
    );
}

#[test]
fn subject_that_is_a_literal_is_rejected() {
    assert_eq!(
        parse_one("\"s\" <http://a/p> <http://a/o> ."),
        Err(syntax_error(TurtleErrorKind::UnexpectedByte(b'"'), 1))
    );
}

#[test]
fn second_annotation_is_rejected() {
    assert_eq!(
        parse_one("<http://a/s> <http://a/p> \"x\"@en^^<http://a/t> ."),
        Err(syntax_error(TurtleErrorKind::UnexpectedByte(b'^'), 1))
    );
    assert_eq!(
        parse_one("<http://a/s> <http://a/p> \"x\"^^<http://a/t>@en ."),
        Err(syntax_error(TurtleErrorKind::UnexpectedByte(b'@'), 1))
    );
}

#[test]
fn missing_full_stop_is_rejected() {
    assert_eq!(
        parse_one("<http://a/s> <http://a/p> <http://a/o>\n"),
        Err(syntax_error(TurtleErrorKind::UnexpectedByte(b'\n'), 1))
    );
    assert_eq!(parse_one("<http://a/s> <http://a/p> <http://a/o>"), Err(syntax_error(TurtleErrorKind::PrematureEof, 1)));
}

#[test]
fn second_statement_on_a_line_is_rejected() {
    assert_eq!(
        parse_one("<http://a/s> <http://a/p> \"x\" . <http://a/s> <http://a/p> \"y\" ."),
        Err(syntax_error(TurtleErrorKind::UnexpectedByte(b'<'), 1))
    );
}

#[test]
fn identifier_may_not_hold_a_space_or_a_line_feed() {
    assert_eq!(
        parse_one("<http://a/ s> <http://a/p> \"x\" ."),
        Err(syntax_error(TurtleErrorKind::UnexpectedByte(b' '), 1))
    );
    assert_eq!(
        parse_one("<http://a/s\n> <http://a/p> \"x\" ."),
        Err(syntax_error(TurtleErrorKind::UnexpectedByte(b'\n'), 1))
    );
}

#[test]
fn string_may_not_hold_a_line_feed() {
    assert_eq!(
        parse_one("<http://a/s> <http://a/p> \"x\ny\" ."),
        Err(syntax_error(TurtleErrorKind::UnexpectedByte(b'\n'), 1))
    );
}

#[test]
fn input_that_ends_inside_a_term_is_rejected() {
    assert_eq!(parse_one("<http://a/s"), Err(syntax_error(TurtleErrorKind::PrematureEof, 1)));
    assert_eq!(parse_one("<http://a/s> <http://a/p> \"x"), Err(syntax_error(TurtleErrorKind::PrematureEof, 1)));
    assert_eq!(parse_one("<http://a/s> <http://a/p> \"x\\"), Err(syntax_error(TurtleErrorKind::PrematureEof, 1)));
    assert_eq!(parse_one("<http://a/s> <http://a/p> \"x\"@"), Err(syntax_error(TurtleErrorKind::PrematureEof, 1)));
}

#[test]
fn errors_carry_the_line_number() {
    let mut parser = NTriplesParser::new(
        b"<http://a/s> <http://a/p> \"x\" .\n# comment\n<http://a/s> _:p \"y\" .\n<http://a/s> <http://a/p> \"z\" .\n".to_vec(),
    );
    assert!(parser.parse_step().unwrap().is_some());
    assert_eq!(parser.parse_step(), Ok(None));
    assert_eq!(parser.parse_step(), Err(syntax_error(TurtleErrorKind::UnexpectedByte(b'_'), 3)));
    parser.skip_line();
    assert_eq!(parser.parse_step(), Ok(Some(statement("http://a/s", "http://a/p", simple("z")))));
    assert!(parser.is_end());
}

#[test]
fn error_message_names_the_kind() {
    let e = parse_one("<http://a/s> _:p \"y\" .").unwrap_err();
    assert_eq!(e.message(), "unexpected character");
}

#[test]
fn reader_shows_one_byte_at_a_time() {
    let mut read = OneLookAheadLineByteReader::new(b"a\nb".to_vec());
    assert_eq!(read.current(), Some(b'a'));
    assert_eq!(read.next(), Some(b'\n'));
    assert_eq!(read.line_number(), 1);
    assert_eq!(read.check_is_current(b'a'), Ok(()));
    assert_eq!(read.check_is_current(b'b'), Err(syntax_error(TurtleErrorKind::UnexpectedByte(b'a'), 1)));
    read.consume();
    assert_eq!(read.current(), Some(b'\n'));
    assert_eq!(read.line_number(), 1);
    read.consume();
    assert_eq!(read.current(), Some(b'b'));
    assert_eq!(read.line_number(), 2);
    assert_eq!(read.unexpected_char_error(), syntax_error(TurtleErrorKind::UnexpectedByte(b'b'), 2));
    read.consume();
    assert_eq!(read.current(), None);
    read.consume();
    assert_eq!(read.current(), None);
    assert_eq!(read.next(), None);
    assert_eq!(read.unexpected_char_error(), syntax_error(TurtleErrorKind::PrematureEof, 2));
}

#[test]
fn parse_line_leaves_the_source_behind_the_line() {
    let mut read = OneLookAheadLineByteReader::new(b"  # only a comment\n<http://a/s> <http://a/p> \"x\" .\nrest".to_vec());
    let (mut s, mut p, mut o, mut a) = (Vec::new(), Vec::new(), Vec::new(), Vec::new());
    assert_eq!(parse_line(&mut read, &mut s, &mut p, &mut o, &mut a), Ok(None));
    assert_eq!(read.current(), Some(b'<'));
    assert_eq!(read.line_number(), 2);
    assert_eq!(
        parse_line(&mut read, &mut s, &mut p, &mut o, &mut a),
        Ok(Some(statement("http://a/s", "http://a/p", simple("x"))))
    );
    assert_eq!(read.current(), Some(b'r'));
    assert_eq!(read.line_number(), 3);
}

#[test]
fn buffers_are_used_again_for_every_line() {
    let mut read = OneLookAheadLineByteReader::new(
        b"<http://a/a-long-subject> <http://a/p> \"a long value\" .\n<http://a/s> <http://a/p> \"x\" .\n".to_vec(),
    );
    let (mut s, mut p, mut o, mut a) = (Vec::new(), Vec::new(), Vec::new(), Vec::new());
    parse_line(&mut read, &mut s, &mut p, &mut o, &mut a).unwrap();
    let capacity = s.capacity();
    assert_eq!(
        parse_line(&mut read, &mut s, &mut p, &mut o, &mut a),
        Ok(Some(statement("http://a/s", "http://a/p", simple("x"))))
    );
    assert_eq!(s, b"http://a/s".to_vec());
    assert_eq!(s.capacity(), capacity);
}

#[test]
fn lines_are_counted_across_refills() {
    let mut parser = NTriplesParser::new(b"<http://a/s> <http://a/p> \"x\" .\n".to_vec());
    assert_eq!(parser.line_number(), 1);
    assert!(parser.parse_step().unwrap().is_some());
    assert!(parser.is_end());
    assert_eq!(parser.line_number(), 2);
    let mut line = b"# comment\n".to_vec();
    parser.refill(&mut line);
    assert_eq!(line, b"<http://a/s> <http://a/p> \"x\" .\n".to_vec());
    assert!(!parser.is_end());
    assert_eq!(parser.parse_step(), Ok(None));
    line.clear();
    line.extend_from_slice(b"<http://a/s> _:p \"y\" .\n");
    parser.refill(&mut line);
    assert_eq!(line, b"# comment\n".to_vec());
    assert_eq!(parser.parse_step(), Err(syntax_error(TurtleErrorKind::UnexpectedByte(b'_'), 3)));
    parser.skip_line();
    assert!(parser.is_end());
    assert_eq!(parser.line_number(), 4);
    line.clear();
    parser.refill(&mut line);
    assert!(parser.is_end());
    assert_eq!(parser.parse_step(), Ok(None));
}

#[test]
fn reader_goes_on_with_the_next_part() {
    let mut read = OneLookAheadLineByteReader::new(b"a\n".to_vec());
    read.consume();
    read.consume();
    assert_eq!(read.current(), None);
    let mut part = b"b\nc".to_vec();
    read.refill(&mut part);
    assert_eq!(part, b"a\n".to_vec());
    assert_eq!(read.current(), Some(b'b'));
    assert_eq!(read.line_number(), 2);
    read.consume();
    read.consume();
    assert_eq!(read.current(), Some(b'c'));
    assert_eq!(read.unexpected_char_error(), syntax_error(TurtleErrorKind::UnexpectedByte(b'c'), 3));
}

#[test]
fn identifier_without_a_scheme_is_rejected() {
    assert_eq!(
        parse_one("<s> <http://a/p> <http://a/o> ."),
        Err(syntax_error(TurtleErrorKind::RelativeIdentifier, 1))
    );
    assert_eq!(
        parse_one("<http://a/s> </p> <http://a/o> ."),
        Err(syntax_error(TurtleErrorKind::RelativeIdentifier, 1))
    );
    assert_eq!(
        parse_one("<http://a/s> <http://a/p> \"x\"^^<1t:a> ."),
        Err(syntax_error(TurtleErrorKind::RelativeIdentifier, 1))
    );
    assert_eq!(parse_one("<> <http://a/p> <http://a/o> ."), Err(syntax_error(TurtleErrorKind::RelativeIdentifier, 1)));
    assert_eq!(
        parse_one("<http//a> <http://a/p> <http://a/o> ."),
        Err(syntax_error(TurtleErrorKind::RelativeIdentifier, 1))
    );
}

#[test]
fn identifier_with_any_scheme_is_accepted() {
    let t = parse_one("<urn:isbn:0451450523> <a+b-c.d:x> <mailto:a@b.c> .").unwrap().unwrap();
    assert_eq!(t.subject, AsRefNamedOrBlankNode::NamedNode(named("urn:isbn:0451450523")));
    assert_eq!(t.predicate, named("a+b-c.d:x"));
    assert_eq!(t.object, AsRefTerm::NamedNode(named("mailto:a@b.c")));
    let e = parse_one("<s> <http://a/p> <http://a/o> .").unwrap_err();
    assert_eq!(e.message(), "identifier without a scheme");
}

#[test]
fn a_term_that_does_not_begin_leaves_its_buffer_as_it_was() {
    use_buffers(b"\"s\" <http://a/p> .", |read, buffer, annotation| {
        assert!(rdf_triples::ntriples::parse_named_or_blank_node(read, buffer).is_err());
        assert_eq!(buffer, &b"kept".to_vec());
        assert_eq!(read.current(), Some(b'"'));
        assert!(rdf_triples::ntriples::parse_iriref(read, buffer).is_err());
        assert_eq!(buffer, &b"kept".to_vec());
        let _ = annotation;
    });
    use_buffers(b"x", |read, buffer, annotation| {
        assert!(rdf_triples::ntriples::parse_term(read, buffer, annotation).is_err());
        assert!(rdf_triples::ntriples::parse_literal(read, buffer, annotation).is_err());
        assert_eq!(buffer, &b"kept".to_vec());
        assert_eq!(annotation, &b"note".to_vec());
        assert_eq!(read.current(), Some(b'x'));
    });
}

#[test]
fn a_violation_behind_the_first_byte_empties_the_buffers() {
    use_buffers(b"<http://a/ b>", |read, buffer, _| {
        assert!(rdf_triples::ntriples::parse_iriref(read, buffer).is_err());
        assert!(buffer.is_empty());
    });
    use_buffers(b"<relative>", |read, buffer, _| {
        assert!(rdf_triples::ntriples::parse_named_or_blank_node(read, buffer).is_err());
        assert!(buffer.is_empty());
    });
    use_buffers(b"_:", |read, buffer, annotation| {
        assert!(rdf_triples::ntriples::parse_term(read, buffer, annotation).is_err());
        assert!(buffer.is_empty());
        assert!(annotation.is_empty());
    });
    use_buffers(b"\"abc\"^^<x>", |read, buffer, annotation| {
        assert!(rdf_triples::ntriples::parse_literal(read, buffer, annotation).is_err());
        assert!(buffer.is_empty());
        assert!(annotation.is_empty());
    });
    use_buffers(b"\"abc\\q\"", |read, buffer, annotation| {
        assert!(rdf_triples::ntriples::parse_term(read, buffer, annotation).is_err());
        assert!(buffer.is_empty());
        assert!(annotation.is_empty());
    });
}

#[test]
fn a_simple_literal_leaves_the_annotation_as_it_was() {
    use_buffers(b"\"abc\" .", |read, buffer, annotation| {
        assert!(rdf_triples::ntriples::parse_literal(read, buffer, annotation).is_ok());
        assert_eq!(buffer, &b"abc".to_vec());
        assert_eq!(annotation, &b"note".to_vec());
    });
}

#[test]
fn a_line_without_a_triple_leaves_the_buffers_as_they_were() {
    for line in ["", "\n", "  \t \r\n", "# only a comment\n", " #x"] {
        let mut read = OneLookAheadLineByteReader::new(line.as_bytes().to_vec());
        let (mut s, mut p, mut o, mut a) = (b"1".to_vec(), b"2".to_vec(), b"3".to_vec(), b"4".to_vec());
        assert_eq!(parse_line(&mut read, &mut s, &mut p, &mut o, &mut a), Ok(None));
        assert_eq!((s, p, o, a), (b"1".to_vec(), b"2".to_vec(), b"3".to_vec(), b"4".to_vec()));
        assert_eq!(read.current(), None);
    }
}

#[test]
fn a_line_on_which_no_subject_begins_leaves_the_buffers_as_they_were() {
    for line in ["x", "  \"s\" <http://a/p> <http://a/o> .", "\t. "] {
        let mut read = OneLookAheadLineByteReader::new(line.as_bytes().to_vec());
        let (mut s, mut p, mut o, mut a) = (b"1".to_vec(), b"2".to_vec(), b"3".to_vec(), b"4".to_vec());
        assert!(parse_line(&mut read, &mut s, &mut p, &mut o, &mut a).is_err());
        assert_eq!((s, p, o, a), (b"1".to_vec(), b"2".to_vec(), b"3".to_vec(), b"4".to_vec()));
    }
}

#[test]
fn a_line_at_fault_leaves_the_buffers_empty() {
    for line in [
        "<x",
        "_",
        "<http://a/s> x",
        "<http://a/s> <http://a/p> \"abc\"@en-",
        "<http://a/s> <http://a/p> \"abc\"@en x",
        "<http://a/s> <http://a/p> \"abc\"^^<http://a/t> . x",
        "<http://a/s> <http://a/p> <o> .",
    ] {
        let mut read = OneLookAheadLineByteReader::new(line.as_bytes().to_vec());
        let (mut s, mut p, mut o, mut a) = (b"1".to_vec(), b"2".to_vec(), b"3".to_vec(), b"4".to_vec());
        assert!(parse_line(&mut read, &mut s, &mut p, &mut o, &mut a).is_err());
        assert!(s.is_empty() && p.is_empty() && o.is_empty() && a.is_empty());
    }
}

fn use_buffers(input: &[u8], check: fn(&mut OneLookAheadLineByteReader, &mut Vec<u8>, &mut Vec<u8>)) {
    let mut read = OneLookAheadLineByteReader::new(input.to_vec());
    let mut buffer = b"kept".to_vec();
    let mut annotation = b"note".to_vec();
    check(&mut read, &mut buffer, &mut annotation);
}
