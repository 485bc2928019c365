//! Conversions from the borrowed terms of `rio_api` into the owning model.
//!
//! Each conversion copies the text it is given and keeps the shape: the view
//! of the result spells exactly what the borrowed term spells.

use vstd::prelude::*;
use vstd::std_specs::convert::FromSpecImpl;
use rio_api::model::{BlankNode, Literal, NamedNode, NamedOrBlankNode, Term, Triple};
use crate::model::{
    AsRefBlankNode, AsRefLiteral, AsRefNamedNode, AsRefNamedOrBlankNode, AsRefTerm, AsRefTriple,
    LiteralView, NamedOrBlankNodeView, TermView, TripleView,
};

verus! {

/// `rio_api::model::NamedNode`, read with its identifier.
#[verifier::external_type_specification]
pub struct ExNamedNode<'a>(NamedNode<'a>);

/// `rio_api::model::BlankNode`, read with its label.
#[verifier::external_type_specification]
pub struct ExBlankNode<'a>(BlankNode<'a>);

/// `rio_api::model::Literal`, read with its variants.
#[verifier::external_type_specification]
pub struct ExLiteral<'a>(Literal<'a>);

/// `rio_api::model::NamedOrBlankNode`, read with its variants.
#[verifier::external_type_specification]
pub struct ExNamedOrBlankNode<'a>(NamedOrBlankNode<'a>);

/// `rio_api::model::Term`, read with its variants.
#[verifier::external_type_specification]
pub struct ExTerm<'a>(Term<'a>);

/// `rio_api::model::Triple`, read with its three terms.
#[verifier::external_type_specification]
pub struct ExTriple<'a>(Triple<'a>);

/// What a borrowed literal spells.
pub open spec fn literal_model(l: Literal<'_>) -> LiteralView {
    match l {
        Literal::Simple { value } => LiteralView::Simple { value: value@ },
        Literal::LanguageTaggedString { value, language } => {
            LiteralView::LanguageTaggedString { value: value@, language: language@ }
        },
        Literal::Typed { value, datatype } => {
            LiteralView::Typed { value: value@, datatype: datatype.iri@ }
        },
    }
}

/// What a borrowed subject spells.
pub open spec fn named_or_blank_node_model(n: NamedOrBlankNode<'_>) -> NamedOrBlankNodeView {
    match n {
        NamedOrBlankNode::NamedNode(n) => NamedOrBlankNodeView::NamedNode(n.iri@),
        NamedOrBlankNode::BlankNode(n) => NamedOrBlankNodeView::BlankNode(n.id@),
    }
}

/// What a borrowed object spells.
pub open spec fn term_model(t: Term<'_>) -> TermView {
    match t {
        Term::NamedNode(n) => TermView::NamedNode(n.iri@),
        Term::BlankNode(n) => TermView::BlankNode(n.id@),
        Term::Literal(l) => TermView::Literal(literal_model(l)),
    }
}

/// What a borrowed triple spells.
pub open spec fn triple_model(t: Triple<'_>) -> TripleView {
    TripleView {
        subject: named_or_blank_node_model(t.subject),
        predicate: t.predicate.iri@,
        object: term_model(t.object),
    }
}

// Owned strings have no constructor in specifications, so none of the
// conversions below names its result as a specification function: each states
// the view of the result in its own `ensures`.

impl<'a> FromSpecImpl<NamedNode<'a>> for AsRefNamedNode {
    open spec fn obeys_from_spec() -> bool {
        false
    }

    open spec fn from_spec(v: NamedNode<'a>) -> Self {
        arbitrary()
    }
}

impl<'a> From<NamedNode<'a>> for AsRefNamedNode {
    fn from(nn: NamedNode<'a>) -> (r: Self)
        ensures
            r@ == nn.iri@,
    {
        let iri: String = nn.iri.to_owned();
        AsRefNamedNode { iri }
    }
}

impl<'a> FromSpecImpl<BlankNode<'a>> for AsRefBlankNode {
    open spec fn obeys_from_spec() -> bool {
        false
    }

    open spec fn from_spec(v: BlankNode<'a>) -> Self {
        arbitrary()
    }
}

impl<'a> From<BlankNode<'a>> for AsRefBlankNode {
    fn from(bn: BlankNode<'a>) -> (r: Self)
        ensures
            r@ == bn.id@,
    {
        AsRefBlankNode { id: bn.id.to_owned() }
    }
}

impl<'a> FromSpecImpl<Literal<'a>> for AsRefLiteral {
    open spec fn obeys_from_spec() -> bool {
        false
    }

    open spec fn from_spec(v: Literal<'a>) -> Self {
        arbitrary()
    }
}

impl<'a> From<Literal<'a>> for AsRefLiteral {
    fn from(l: Literal<'a>) -> (r: Self)
        ensures
            r@ == literal_model(l),
    {
        match l {
            Literal::Simple { value } => AsRefLiteral::Simple { value: value.to_owned() },
            Literal::LanguageTaggedString { value, language } => {
                AsRefLiteral::LanguageTaggedString {
                    value: value.to_owned(),
                    language: language.to_owned(),
                }
            },
            Literal::Typed { value, datatype } => {
                AsRefLiteral::Typed {
                    value: value.to_owned(),
                    datatype: AsRefNamedNode::from(datatype),
                }
            },
        }
    }
}

impl<'a> FromSpecImpl<NamedOrBlankNode<'a>> for AsRefNamedOrBlankNode {
    open spec fn obeys_from_spec() -> bool {
        false
    }

    open spec fn from_spec(v: NamedOrBlankNode<'a>) -> Self {
        arbitrary()
    }
}

impl<'a> From<NamedOrBlankNode<'a>> for AsRefNamedOrBlankNode {
    fn from(nbn: NamedOrBlankNode<'a>) -> (r: Self)
        ensures
            r@ == named_or_blank_node_model(nbn),
    {
        match nbn {
            NamedOrBlankNode::NamedNode(nn) => {
                AsRefNamedOrBlankNode::NamedNode(AsRefNamedNode::from(nn))
            },
            NamedOrBlankNode::BlankNode(bn) => {
                AsRefNamedOrBlankNode::BlankNode(AsRefBlankNode::from(bn))
            },
        }
    }
}

impl<'a> FromSpecImpl<Term<'a>> for AsRefTerm {
    open spec fn obeys_from_spec() -> bool {
        false
    }

    open spec fn from_spec(v: Term<'a>) -> Self {
        arbitrary()
    }
}

impl<'a> From<Term<'a>> for AsRefTerm {
    fn from(t: Term<'a>) -> (r: Self)
        ensures
            r@ == term_model(t),
    {
        match t {
            Term::NamedNode(nn) => AsRefTerm::NamedNode(AsRefNamedNode::from(nn)),
            Term::BlankNode(bn) => AsRefTerm::BlankNode(AsRefBlankNode::from(bn)),
            Term::Literal(l) => AsRefTerm::Literal(AsRefLiteral::from(l)),
        }
    }
}

impl<'a> FromSpecImpl<Triple<'a>> for AsRefTriple {
    open spec fn obeys_from_spec() -> bool {
        false
    }

    open spec fn from_spec(v: Triple<'a>) -> Self {
        arbitrary()
    }
}

impl<'a> From<Triple<'a>> for AsRefTriple {
    fn from(t: Triple<'a>) -> (r: Self)
        ensures
            r@ == triple_model(t),
    {
        AsRefTriple {
            subject: AsRefNamedOrBlankNode::from(t.subject),
            predicate: AsRefNamedNode::from(t.predicate),
            object: AsRefTerm::from(t.object),
        }
    }
}

} // verus!
