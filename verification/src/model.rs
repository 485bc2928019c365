//! The triple data model shared by the parser and the serializer.
//!
//! Every term owns its text. The mathematical model of a term is its *view*:
//! the same shape with each string replaced by its sequence of characters.

use vstd::prelude::*;

verus! {

/// An absolute identifier.
#[derive(Eq, PartialEq, Ord, PartialOrd, Debug, Hash)]
pub struct AsRefNamedNode {
    pub iri: String,
}

/// A blank node, named by a label that is local to one document.
#[derive(Eq, PartialEq, Ord, PartialOrd, Debug, Hash)]
pub struct AsRefBlankNode {
    pub id: String,
}

/// A literal value: plain, tagged with a language, or typed by a datatype.
/// The variants exclude one another, so no literal carries both a language
/// tag and a datatype.
#[derive(Eq, PartialEq, Ord, PartialOrd, Debug, Hash)]
pub enum AsRefLiteral {
    Simple { value: String },
    LanguageTaggedString { value: String, language: String },
    Typed { value: String, datatype: AsRefNamedNode },
}

/// What may stand as the subject of a triple.
#[derive(Eq, PartialEq, Ord, PartialOrd, Debug, Hash)]
pub enum AsRefNamedOrBlankNode {
    NamedNode(AsRefNamedNode),
    BlankNode(AsRefBlankNode),
}

/// What may stand as the object of a triple.
#[derive(Eq, PartialEq, Ord, PartialOrd, Debug, Hash)]
pub enum AsRefTerm {
    NamedNode(AsRefNamedNode),
    BlankNode(AsRefBlankNode),
    Literal(AsRefLiteral),
}

/// One statement. The predicate is always a named node.
#[derive(Eq, PartialEq, Debug)]
pub struct AsRefTriple {
    pub subject: AsRefNamedOrBlankNode,
    pub predicate: AsRefNamedNode,
    pub object: AsRefTerm,
}

/// The model of a literal.
pub enum LiteralView {
    Simple { value: Seq<char> },
    LanguageTaggedString { value: Seq<char>, language: Seq<char> },
    Typed { value: Seq<char>, datatype: Seq<char> },
}

/// The model of a subject.
pub enum NamedOrBlankNodeView {
    NamedNode(Seq<char>),
    BlankNode(Seq<char>),
}

/// The model of an object.
pub enum TermView {
    NamedNode(Seq<char>),
    BlankNode(Seq<char>),
    Literal(LiteralView),
}

/// The model of a triple.
pub struct TripleView {
    pub subject: NamedOrBlankNodeView,
    pub predicate: Seq<char>,
    pub object: TermView,
}

impl LiteralView {
    /// The text of the literal.
    pub open spec fn value(self) -> Seq<char> {
        match self {
            LiteralView::Simple { value } => value,
            LiteralView::LanguageTaggedString { value, language } => value,
            LiteralView::Typed { value, datatype } => value,
        }
    }

    /// Whether the literal has a language tag or a datatype.
    pub open spec fn is_annotated(self) -> bool {
        !(self is Simple)
    }

    /// The language tag or the datatype of the literal; empty where it has
    /// neither.
    pub open spec fn annotation(self) -> Seq<char> {
        match self {
            LiteralView::Simple { value } => Seq::empty(),
            LiteralView::LanguageTaggedString { value, language } => language,
            LiteralView::Typed { value, datatype } => datatype,
        }
    }
}

impl NamedOrBlankNodeView {
    /// The identifier or the label.
    pub open spec fn text(self) -> Seq<char> {
        match self {
            NamedOrBlankNodeView::NamedNode(iri) => iri,
            NamedOrBlankNodeView::BlankNode(id) => id,
        }
    }
}

impl TermView {
    /// The identifier, the label, or the text of the literal.
    pub open spec fn text(self) -> Seq<char> {
        match self {
            TermView::NamedNode(iri) => iri,
            TermView::BlankNode(id) => id,
            TermView::Literal(l) => l.value(),
        }
    }

    /// Whether the term is a literal with a language tag or a datatype.
    pub open spec fn is_annotated(self) -> bool {
        self matches TermView::Literal(l) && l.is_annotated()
    }

    /// The language tag or the datatype of a literal; empty for any other
    /// term.
    pub open spec fn annotation(self) -> Seq<char> {
        match self {
            TermView::Literal(l) => l.annotation(),
            _ => Seq::empty(),
        }
    }
}

impl View for AsRefNamedNode {
    type V = Seq<char>;

    open spec fn view(&self) -> Seq<char> {
        self.iri@
    }
}

impl View for AsRefBlankNode {
    type V = Seq<char>;

    open spec fn view(&self) -> Seq<char> {
        self.id@
    }
}

impl View for AsRefLiteral {
    type V = LiteralView;

    open spec fn view(&self) -> LiteralView {
        match self {
            AsRefLiteral::Simple { value } => LiteralView::Simple { value: value@ },
            AsRefLiteral::LanguageTaggedString { value, language } => {
                LiteralView::LanguageTaggedString { value: value@, language: language@ }
            },
            AsRefLiteral::Typed { value, datatype } => {
                LiteralView::Typed { value: value@, datatype: datatype@ }
            },
        }
    }
}

impl View for AsRefNamedOrBlankNode {
    type V = NamedOrBlankNodeView;

    open spec fn view(&self) -> NamedOrBlankNodeView {
        match self {
            AsRefNamedOrBlankNode::NamedNode(n) => NamedOrBlankNodeView::NamedNode(n@),
            AsRefNamedOrBlankNode::BlankNode(n) => NamedOrBlankNodeView::BlankNode(n@),
        }
    }
}

impl View for AsRefTerm {
    type V = TermView;

    open spec fn view(&self) -> TermView {
        match self {
            AsRefTerm::NamedNode(n) => TermView::NamedNode(n@),
            AsRefTerm::BlankNode(n) => TermView::BlankNode(n@),
            AsRefTerm::Literal(l) => TermView::Literal(l@),
        }
    }
}

impl View for AsRefTriple {
    type V = TripleView;

    open spec fn view(&self) -> TripleView {
        TripleView { subject: self.subject@, predicate: self.predicate@, object: self.object@ }
    }
}

impl Clone for AsRefNamedNode {
    fn clone(&self) -> (r: Self)
        ensures
            r == *self,
    {
        AsRefNamedNode { iri: self.iri.clone() }
    }
}

impl Clone for AsRefBlankNode {
    fn clone(&self) -> (r: Self)
        ensures
            r == *self,
    {
        AsRefBlankNode { id: self.id.clone() }
    }
}

impl Clone for AsRefLiteral {
    fn clone(&self) -> (r: Self)
        ensures
            r == *self,
    {
        match self {
            AsRefLiteral::Simple { value } => AsRefLiteral::Simple { value: value.clone() },
            AsRefLiteral::LanguageTaggedString { value, language } => {
                AsRefLiteral::LanguageTaggedString {
                    value: value.clone(),
                    language: language.clone(),
                }
            },
            AsRefLiteral::Typed { value, datatype } => {
                AsRefLiteral::Typed { value: value.clone(), datatype: datatype.clone() }
            },
        }
    }
}

impl Clone for AsRefNamedOrBlankNode {
    fn clone(&self) -> (r: Self)
        ensures
            r == *self,
    {
        match self {
            AsRefNamedOrBlankNode::NamedNode(n) => AsRefNamedOrBlankNode::NamedNode(n.clone()),
            AsRefNamedOrBlankNode::BlankNode(n) => AsRefNamedOrBlankNode::BlankNode(n.clone()),
        }
    }
}

impl Clone for AsRefTerm {
    fn clone(&self) -> (r: Self)
        ensures
            r == *self,
    {
        match self {
            AsRefTerm::NamedNode(n) => AsRefTerm::NamedNode(n.clone()),
            AsRefTerm::BlankNode(n) => AsRefTerm::BlankNode(n.clone()),
            AsRefTerm::Literal(l) => AsRefTerm::Literal(l.clone()),
        }
    }
}

impl Clone for AsRefTriple {
    fn clone(&self) -> (r: Self)
        ensures
            r == *self,
    {
        AsRefTriple {
            subject: self.subject.clone(),
            predicate: self.predicate.clone(),
            object: self.object.clone(),
        }
    }
}

impl AsRefNamedOrBlankNode {
    /// Whether two subjects are of the same kind and spell the same text.
    pub fn same_as(&self, other: &AsRefNamedOrBlankNode) -> (r: bool)
        ensures
            r == (self@ == other@),
    {
        match (self, other) {
            (AsRefNamedOrBlankNode::NamedNode(a), AsRefNamedOrBlankNode::NamedNode(b)) => {
                a.iri == b.iri
            },
            (AsRefNamedOrBlankNode::BlankNode(a), AsRefNamedOrBlankNode::BlankNode(b)) => {
                a.id == b.id
            },
            _ => false,
        }
    }
}

} // verus!
