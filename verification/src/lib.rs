//! Streaming N-Triples parsing and abbreviated RDF/XML serialization over a
//! shared triple model, with their behaviour stated in contracts and proved.
//!
//! The parser turns lines of bytes into triples: `grammar` says what a line
//! states, `ntriples` reads it from a `reader`, `locality` shows that a line
//! is read from its bytes alone, and `sizes` that what is gathered of a line
//! is shorter than the line. The serializer turns a stream of triples
//! into a document of nested elements: `formatter` groups the triples of a
//! subject and plans the events, `nesting` holds back the opening tag of an
//! element until it is known whether the element stays empty, `abbrev` and
//! `config` shorten identifiers by prefixes, and `writer` has the events
//! written by `quick_xml`. `roundtrip` relates what the one writes to what
//! the other reads.

pub mod abbrev;
pub mod ascii;
pub mod chars;
pub mod config;
pub mod convert;
pub mod error;
pub mod formatter;
pub mod grammar;
pub mod locality;
pub mod model;
pub mod nesting;
pub mod ntriples;
pub mod reader;
pub mod roundtrip;
pub mod sizes;
pub mod writer;
pub mod xml;

pub use abbrev::split_iri;
pub use config::{AbbrevRdfXmlFormatterConfig, PrefixMap};
pub use error::{FormatError, TurtleError, TurtleErrorKind};
pub use formatter::AbbrevRdfXmlFormatter;
pub use model::{
    AsRefBlankNode, AsRefLiteral, AsRefNamedNode, AsRefNamedOrBlankNode, AsRefTerm, AsRefTriple,
};
pub use ntriples::{parse_line, NTriplesParser};
pub use reader::OneLookAheadLineByteReader;
