//! The abbreviating serializer: a stream of triples becomes a document of
//! nested elements.
//!
//! Consecutive triples of one subject are grouped under one element. A type
//! triple whose object is a named node opens an element that is named after
//! the type; any other triple becomes a property element inside the element
//! of its subject, which is a generic description where no type opened one.

use vstd::prelude::*;
use vstd::string::StringExecFns;
use crate::abbrev::{split_iri, split_point};
use crate::config::{bound, lookup, str_eq, AbbrevRdfXmlFormatterConfig};
use crate::error::FormatError;
use crate::model::{
    AsRefLiteral, AsRefNamedOrBlankNode, AsRefTerm, AsRefTriple, LiteralView,
    NamedOrBlankNodeView, TermView, TripleView,
};
use crate::nesting::{
    balanced, lemma_replay_concat, lemma_replay_inside, lemma_replay_one, replay, Nesting,
    NestingView,
};
use crate::writer::{
    layout_after_all, lemma_indent_bound, lemma_no_start_fits, lemma_rendered_concat,
    lemma_room_fits,
    lemma_starts_concat, lemma_starts_one, overflows_at, rendered, starts, too_deep, Document,
    Layout,
};
use crate::xml::{events_view, push_event, Tag, TagView, XmlEvent, XmlEventView};

verus! {

/// The namespace of the RDF vocabulary.
pub open spec fn rdf_namespace() -> Seq<char> {
    "http://www.w3.org/1999/02/22-rdf-syntax-ns#"@
}

/// The identifier of the type predicate.
pub open spec fn rdf_type() -> Seq<char> {
    "http://www.w3.org/1999/02/22-rdf-syntax-ns#type"@
}

/// The tag that stands for an identifier. The identifier is split into a
/// namespace and a local name. Where the namespace has a prefix, the tag is
/// named by the prefix, a colon and the local name; where it has none, the
/// tag is named by the local name alone and declares the namespace in an
/// attribute.
pub open spec fn abbreviated(prefixes: Seq<(Seq<char>, Seq<char>)>, iri: Seq<char>) -> TagView {
    let namespace = iri.take(split_point(iri));
    let local = iri.skip(split_point(iri));
    match lookup(prefixes, namespace) {
        Some(prefix) => TagView::named(prefix + ":"@ + local),
        None => TagView::named(local).with_attribute("xmlns"@, namespace),
    }
}

/// A tag with the attribute that names the resource it is about.
pub open spec fn identified(tag: TagView, subject: NamedOrBlankNodeView) -> TagView {
    match subject {
        NamedOrBlankNodeView::NamedNode(iri) => tag.with_attribute("rdf:about"@, iri),
        NamedOrBlankNodeView::BlankNode(id) => tag.with_attribute("rdf:nodeID"@, id),
    }
}

/// The attributes that declare the prefixes of a table, in its order.
pub open spec fn namespace_attributes(prefixes: Seq<(Seq<char>, Seq<char>)>) -> Seq<
    (Seq<char>, Seq<char>),
> {
    Seq::new(prefixes.len(), |i: int| ("xmlns:"@ + prefixes[i].1, prefixes[i].0))
}

/// The opening tag of the root element.
pub open spec fn root_tag(prefixes: Seq<(Seq<char>, Seq<char>)>) -> TagView {
    TagView { name: "rdf:RDF"@, attributes: namespace_attributes(prefixes) }
}

/// The events that begin a document.
pub open spec fn opening_events(prefixes: Seq<(Seq<char>, Seq<char>)>) -> Seq<XmlEventView> {
    seq![XmlEventView::Decl, XmlEventView::Start(root_tag(prefixes))]
}

/// The tag of a property element whose content is the literal `l`.
pub open spec fn literal_tag(property: TagView, l: LiteralView) -> TagView {
    match l {
        LiteralView::Simple { value } => property,
        LiteralView::LanguageTaggedString { value, language } => property.with_attribute(
            "xml:lang"@,
            language,
        ),
        LiteralView::Typed { value, datatype } => property.with_attribute(
            "rdf:datatype"@,
            datatype,
        ),
    }
}

/// A nesting state and the events written to reach it.
pub struct Plan {
    pub nesting: NestingView,
    pub events: Seq<XmlEventView>,
}

impl Plan {
    /// Nothing written yet.
    pub open spec fn begin(nesting: NestingView) -> Plan {
        Plan { nesting, events: Seq::empty() }
    }

    /// Then an element is decided to open.
    pub open spec fn start(self, tag: TagView) -> Plan {
        Plan {
            nesting: self.nesting.started(tag),
            events: self.events + self.nesting.flush_events(),
        }
    }

    /// Then an event is written.
    pub open spec fn event(self, ev: XmlEventView) -> Plan {
        Plan {
            nesting: self.nesting.flushed(),
            events: (self.events + self.nesting.flush_events()).push(ev),
        }
    }

    /// Then the innermost element is closed.
    pub open spec fn close(self) -> Plan {
        Plan {
            nesting: self.nesting.closed(),
            events: self.events + self.nesting.close_events(),
        }
    }
}

/// The model of a serializer: its prefixes, the subject of the triple that
/// was written last, and its nesting state.
pub struct FormatterView {
    pub prefixes: Seq<(Seq<char>, Seq<char>)>,
    pub subject: Option<NamedOrBlankNodeView>,
    pub nesting: NestingView,
}

impl FormatterView {
    /// The state of a serializer that has written no triple.
    pub open spec fn initial(prefixes: Seq<(Seq<char>, Seq<char>)>) -> FormatterView {
        FormatterView { prefixes, subject: None, nesting: NestingView::idle() }
    }

    /// Once a triple was written, the element of its subject waits to be
    /// closed; before that, no tag is pending.
    pub open spec fn wf(self) -> bool {
        &&& self.nesting.wf()
        &&& self.subject is Some ==> self.nesting.close.len() > 0
        &&& self.subject is None ==> self.nesting.pending is None
    }

    /// Whether `t` is written as a typed element.
    pub open spec fn opens_typed_element(t: TripleView) -> bool {
        t.predicate == rdf_type() && t.object is NamedNode
    }

    /// What is written for a triple whose subject is not the last one: the
    /// element of the last subject is closed.
    pub open spec fn turn_plan(self, t: TripleView) -> Plan {
        if self.subject != Some(t.subject) && self.subject is Some {
            Plan::begin(self.nesting).close()
        } else {
            Plan::begin(self.nesting)
        }
    }

    /// What is written for a triple that opens no typed element, behind
    /// what `turned` holds: the generic description of the subject is opened
    /// where the subject is not the last one; then comes the property
    /// element, which is empty and points to the object where the object is
    /// a resource, and holds the text of the object where it is a literal.
    pub open spec fn property_plan(self, turned: Plan, t: TripleView) -> Plan {
        let described = if self.subject != Some(t.subject) {
            turned.start(identified(TagView::named("rdf:Description"@), t.subject))
        } else {
            turned
        };
        let property = abbreviated(self.prefixes, t.predicate);
        match t.object {
            TermView::NamedNode(iri) => described.event(
                XmlEventView::Empty(property.with_attribute("rdf:resource"@, iri)),
            ),
            TermView::BlankNode(id) => described.event(
                XmlEventView::Empty(property.with_attribute("rdf:nodeID"@, id)),
            ),
            TermView::Literal(l) => described.start(literal_tag(property, l)).event(
                XmlEventView::Text(l.value()),
            ).close(),
        }
    }

    /// What is written for the triple `t`, and the nesting it leaves.
    pub open spec fn format_plan(self, t: TripleView) -> Plan {
        let turned = self.turn_plan(t);
        if Self::opens_typed_element(t) {
            turned.start(identified(abbreviated(self.prefixes, t.object->NamedNode_0), t.subject))
        } else {
            self.property_plan(turned, t)
        }
    }

    /// The state after the triple `t`.
    pub open spec fn after(self, t: TripleView) -> FormatterView {
        FormatterView {
            prefixes: self.prefixes,
            subject: Some(t.subject),
            nesting: self.format_plan(t).nesting,
        }
    }

    /// What is written to end the document: every open element is closed,
    /// innermost first, and then the root element.
    pub open spec fn finish_events(self) -> Seq<XmlEventView> {
        self.nesting.drain_events().push(XmlEventView::End("rdf:RDF"@))
    }
}

/// The state of a serializer after it has written `triples` in order.
pub open spec fn state_after(
    prefixes: Seq<(Seq<char>, Seq<char>)>,
    triples: Seq<TripleView>,
) -> FormatterView
    decreases triples.len(),
{
    if triples.len() == 0 {
        FormatterView::initial(prefixes)
    } else {
        state_after(prefixes, triples.drop_last()).after(triples.last())
    }
}

/// The events that a serializer writes for `triples` in order.
pub open spec fn body_events(
    prefixes: Seq<(Seq<char>, Seq<char>)>,
    triples: Seq<TripleView>,
) -> Seq<XmlEventView>
    decreases triples.len(),
{
    if triples.len() == 0 {
        Seq::empty()
    } else {
        body_events(prefixes, triples.drop_last()) + state_after(
            prefixes,
            triples.drop_last(),
        ).format_plan(triples.last()).events
    }
}

/// The events of a document before it is ended: the opening and the events
/// of its triples.
pub open spec fn events_so_far(
    prefixes: Seq<(Seq<char>, Seq<char>)>,
    triples: Seq<TripleView>,
) -> Seq<XmlEventView> {
    opening_events(prefixes) + body_events(prefixes, triples)
}

/// The events of the whole document of `triples`.
pub open spec fn document_events(
    prefixes: Seq<(Seq<char>, Seq<char>)>,
    triples: Seq<TripleView>,
) -> Seq<XmlEventView> {
    events_so_far(prefixes, triples) + state_after(prefixes, triples).finish_events()
}

impl Plan {
    /// The plan goes on from the state `from` in order: its state is well
    /// formed, and its events, replayed on the elements that were open in
    /// `from`, leave open the elements that its state says.
    pub open spec fn nested_from(self, from: NestingView) -> bool {
        &&& self.nesting.wf()
        &&& replay(from.open_elements(), self.events) == Some(self.nesting.open_elements())
    }

    /// A plan with nothing written goes on from its own state in order.
    pub proof fn lemma_begin(nesting: NestingView)
        requires
            nesting.wf(),
        ensures
            Plan::begin(nesting).nested_from(nesting),
    {
    }

    /// Deciding to open an element keeps a plan in order.
    pub proof fn lemma_start(self, from: NestingView, tag: TagView)
        requires
            self.nested_from(from),
        ensures
            self.start(tag).nested_from(from),
            self.start(tag).nesting.close.len() > 0,
    {
        self.nesting.lemma_started(tag);
        lemma_replay_concat(from.open_elements(), self.events, self.nesting.flush_events());
    }

    /// Writing an event that neither opens nor closes an element keeps a
    /// plan in order.
    pub proof fn lemma_event(self, from: NestingView, ev: XmlEventView)
        requires
            self.nested_from(from),
            !(ev is Start),
            !(ev is End),
        ensures
            self.event(ev).nested_from(from),
            self.event(ev).nesting.close == self.nesting.close,
    {
        self.nesting.lemma_flushed(ev);
        assert((self.events + self.nesting.flush_events()).push(ev) =~= self.events
            + self.nesting.flush_events().push(ev));
        lemma_replay_concat(
            from.open_elements(),
            self.events,
            self.nesting.flush_events().push(ev),
        );
    }

    /// Closing the innermost element keeps a plan in order.
    pub proof fn lemma_close(self, from: NestingView)
        requires
            self.nested_from(from),
            self.nesting.close.len() > 0,
        ensures
            self.close().nested_from(from),
            self.close().nesting.close == self.nesting.close.drop_last(),
    {
        self.nesting.lemma_closed();
        lemma_replay_concat(from.open_elements(), self.events, self.nesting.close_events());
    }
}

impl FormatterView {
    /// Writing a triple keeps the state in order, and what is written for
    /// it fits the elements that are open: each closing tag closes the
    /// innermost open element, and the elements left open are those that
    /// the new state says.
    pub proof fn lemma_format_nested(self, t: TripleView)
        requires
            self.wf(),
        ensures
            self.after(t).wf(),
            self.format_plan(t).nested_from(self.nesting),
    {
        let from = self.nesting;
        let turned = self.turn_plan(t);
        Plan::lemma_begin(from);
        if self.subject != Some(t.subject) && self.subject is Some {
            Plan::begin(from).lemma_close(from);
        }
        if Self::opens_typed_element(t) {
            turned.lemma_start(
                from,
                identified(abbreviated(self.prefixes, t.object->NamedNode_0), t.subject),
            );
        } else {
            let described = if self.subject != Some(t.subject) {
                turned.start(identified(TagView::named("rdf:Description"@), t.subject))
            } else {
                turned
            };
            if self.subject != Some(t.subject) {
                turned.lemma_start(from, identified(TagView::named("rdf:Description"@), t.subject));
            }
            let property = abbreviated(self.prefixes, t.predicate);
            match t.object {
                TermView::NamedNode(iri) => {
                    described.lemma_event(
                        from,
                        XmlEventView::Empty(property.with_attribute("rdf:resource"@, iri)),
                    );
                },
                TermView::BlankNode(id) => {
                    described.lemma_event(
                        from,
                        XmlEventView::Empty(property.with_attribute("rdf:nodeID"@, id)),
                    );
                },
                TermView::Literal(l) => {
                    let tag = literal_tag(property, l);
                    described.lemma_start(from, tag);
                    described.start(tag).lemma_event(from, XmlEventView::Text(l.value()));
                    described.start(tag).event(XmlEventView::Text(l.value())).lemma_close(
                        from,
                    );
                    assert(described.nesting.close.push(tag.name).drop_last()
                        =~= described.nesting.close);
                },
            }
        }
    }
}

/// The state after any triples is in order, and the events written for
/// them fit: replayed from the start, they leave open the elements that the
/// state says.
pub proof fn lemma_body_nested(prefixes: Seq<(Seq<char>, Seq<char>)>, triples: Seq<TripleView>)
    ensures
        state_after(prefixes, triples).wf(),
        replay(Seq::empty(), body_events(prefixes, triples)) == Some(
            state_after(prefixes, triples).nesting.open_elements(),
        ),
    decreases triples.len(),
{
    if triples.len() > 0 {
        let before = state_after(prefixes, triples.drop_last());
        lemma_body_nested(prefixes, triples.drop_last());
        before.lemma_format_nested(triples.last());
        lemma_replay_concat(
            Seq::empty(),
            body_events(prefixes, triples.drop_last()),
            before.format_plan(triples.last()).events,
        );
    }
}

/// The events of a whole document are balanced, whatever the triples and
/// in whatever order they come: every opening tag is followed by the
/// closing tag of its element, elements close innermost first, and none is
/// left open at the end.
pub proof fn lemma_document_balanced(
    prefixes: Seq<(Seq<char>, Seq<char>)>,
    triples: Seq<TripleView>,
)
    ensures
        balanced(document_events(prefixes, triples)),
{
    let root = seq!["rdf:RDF"@];
    let last = state_after(prefixes, triples);
    let opening = opening_events(prefixes);
    let body = body_events(prefixes, triples);
    let drain = last.nesting.drain_events();
    let none = Seq::<Seq<char>>::empty();
    assert(replay(none, opening) == Some(root)) by {
        assert(opening.drop_last() =~= seq![XmlEventView::Decl]);
        lemma_replay_one(none, XmlEventView::Decl);
        assert(none.push("rdf:RDF"@) =~= root);
    }
    lemma_body_nested(prefixes, triples);
    lemma_replay_inside(root, none, body);
    assert(root + none =~= root);
    lemma_replay_concat(none, opening, body);
    last.nesting.lemma_drained();
    lemma_replay_inside(root, last.nesting.open_elements(), drain);
    assert(root + none =~= root);
    lemma_replay_concat(none, opening + body, drain);
    lemma_replay_one(root, XmlEventView::End("rdf:RDF"@));
    assert(root.drop_last() =~= none);
    assert(last.finish_events() =~= drain + seq![XmlEventView::End("rdf:RDF"@)]);
    lemma_replay_concat(none, opening + body, last.finish_events());
    lemma_replay_concat(
        root + last.nesting.open_elements(),
        drain,
        seq![XmlEventView::End("rdf:RDF"@)],
    );
}

impl Plan {
    /// Deciding to open an element writes an opening tag exactly where one
    /// was pending.
    pub proof fn lemma_start_opens(self, tag: TagView)
        ensures
            starts(self.start(tag).events) == starts(self.events) + if self.nesting.pending
                is Some {
                1nat
            } else {
                0nat
            },
    {
        lemma_starts_concat(self.events, self.nesting.flush_events());
        match self.nesting.pending {
            Some(t) => lemma_starts_one(XmlEventView::Start(t)),
            None => lemma_starts_one(XmlEventView::Decl),
        }
    }

    /// Writing an event that opens no element writes an opening tag exactly
    /// where one was pending.
    pub proof fn lemma_event_opens(self, ev: XmlEventView)
        requires
            !(ev is Start),
        ensures
            starts(self.event(ev).events) == starts(self.events) + if self.nesting.pending
                is Some {
                1nat
            } else {
                0nat
            },
    {
        let flushed = self.events + self.nesting.flush_events();
        lemma_starts_concat(self.events, self.nesting.flush_events());
        assert(flushed.push(ev).drop_last() =~= flushed);
        assert(flushed.push(ev).last() == ev);
        match self.nesting.pending {
            Some(t) => lemma_starts_one(XmlEventView::Start(t)),
            None => lemma_starts_one(XmlEventView::Decl),
        }
    }

    /// Closing an element writes no opening tag.
    pub proof fn lemma_close_opens(self)
        ensures
            starts(self.close().events) == starts(self.events),
    {
        lemma_starts_concat(self.events, self.nesting.close_events());
        match self.nesting.pending {
            Some(t) => lemma_starts_one(XmlEventView::Empty(t)),
            None => lemma_starts_one(XmlEventView::End(self.nesting.close.last())),
        }
    }
}

impl FormatterView {
    /// A triple opens two elements at most: that of its subject and that of
    /// its property.
    pub proof fn lemma_format_opens_two(self, t: TripleView)
        requires
            self.wf(),
        ensures
            starts(self.format_plan(t).events) <= 2,
    {
        let begun = Plan::begin(self.nesting);
        let turned = self.turn_plan(t);
        if self.subject != Some(t.subject) && self.subject is Some {
            begun.lemma_close_opens();
        }
        assert(starts(turned.events) == 0);
        if Self::opens_typed_element(t) {
            turned.lemma_start_opens(
                identified(abbreviated(self.prefixes, t.object->NamedNode_0), t.subject),
            );
        } else {
            let description = identified(TagView::named("rdf:Description"@), t.subject);
            let described = if self.subject != Some(t.subject) {
                turned.start(description)
            } else {
                turned
            };
            if self.subject != Some(t.subject) {
                turned.lemma_start_opens(description);
            }
            let property = abbreviated(self.prefixes, t.predicate);
            match t.object {
                TermView::NamedNode(iri) => {
                    described.lemma_event_opens(
                        XmlEventView::Empty(property.with_attribute("rdf:resource"@, iri)),
                    );
                },
                TermView::BlankNode(id) => {
                    described.lemma_event_opens(
                        XmlEventView::Empty(property.with_attribute("rdf:nodeID"@, id)),
                    );
                },
                TermView::Literal(l) => {
                    let tag = literal_tag(property, l);
                    described.lemma_start_opens(tag);
                    described.start(tag).lemma_event_opens(XmlEventView::Text(l.value()));
                    described.start(tag).event(XmlEventView::Text(l.value())).lemma_close_opens();
                },
            }
        }
    }

    /// A triple can be written wherever the indentation has room for two
    /// more levels.
    pub proof fn lemma_format_fits(self, l: Layout, t: TripleView)
        requires
            self.wf(),
            l.indent + 2 * l.step <= isize::MAX,
        ensures
            !too_deep(l, self.format_plan(t).events),
    {
        self.lemma_format_opens_two(t);
        let n = starts(self.format_plan(t).events);
        assert(n * l.step <= 2 * l.step) by (nonlinear_arith)
            requires
                n <= 2,
        ;
        lemma_room_fits(l, self.format_plan(t).events);
    }
}

/// The tag of a property element whose content is a literal has the name
/// of the property and, behind the attributes of the property, the one
/// annotation of the literal: `xml:lang` for a language tag, `rdf:datatype`
/// for a datatype, and nothing for a literal without either.
pub proof fn lemma_literal_tag(property: TagView, l: LiteralView)
    ensures
        literal_tag(property, l).name == property.name,
        literal_tag(property, l).attributes == match l {
            LiteralView::Simple { value } => property.attributes,
            LiteralView::LanguageTaggedString { value, language } => property.attributes.push(
                ("xml:lang"@, language),
            ),
            LiteralView::Typed { value, datatype } => property.attributes.push(
                ("rdf:datatype"@, datatype),
            ),
        },
{
}

impl FormatterView {
    /// A type triple whose object is a named node opens one element and
    /// writes nothing of its own: the element is named after the type and
    /// says which resource it is about; its tag is held back, and its name
    /// is the one name that the close stack gains. What is written is what
    /// closes the element of the last subject, where the subject is a new
    /// one, and the tag that was pending, where there was one: no
    /// description and no property element.
    pub proof fn lemma_typed_plan(self, t: TripleView)
        requires
            self.wf(),
            Self::opens_typed_element(t),
        ensures
            ({
                let turned = self.turn_plan(t);
                let named = abbreviated(self.prefixes, t.object->NamedNode_0);
                let tag = identified(named, t.subject);
                let plan = self.format_plan(t);
                &&& tag.name == named.name
                &&& tag.attributes == named.attributes.push(
                    match t.subject {
                        NamedOrBlankNodeView::NamedNode(iri) => ("rdf:about"@, iri),
                        NamedOrBlankNodeView::BlankNode(id) => ("rdf:nodeID"@, id),
                    },
                )
                &&& plan.nesting.pending == Some(tag)
                &&& plan.nesting.close == turned.nesting.close.push(tag.name)
                &&& plan.events == turned.events + turned.nesting.flush_events()
                &&& forall|i: int|
                    turned.events.len() <= i < plan.events.len() ==> #[trigger] plan.events[i]
                        == XmlEventView::Start(turned.nesting.pending->Some_0)
            }),
    {
    }

    /// A triple whose object is a literal, and which opens no typed element,
    /// writes the opening tag of the element of its subject, where that was
    /// not written yet, then the opening tag of the property element, the
    /// text of the literal and the closing tag of the property element, and
    /// nothing else. The element of the subject is a description that this
    /// triple decides to open, where the subject is a new one, and the
    /// element that was pending otherwise. Afterwards no tag is pending, and
    /// the element of the subject is the innermost one that waits to be
    /// closed.
    pub proof fn lemma_literal_property_plan(self, t: TripleView)
        requires
            self.wf(),
            !Self::opens_typed_element(t),
            t.object is Literal,
        ensures
            ({
                let l = t.object->Literal_0;
                let turned = self.turn_plan(t);
                let property = literal_tag(abbreviated(self.prefixes, t.predicate), l);
                let said = seq![
                    XmlEventView::Start(property),
                    XmlEventView::Text(l.value()),
                    XmlEventView::End(property.name),
                ];
                let description = identified(TagView::named("rdf:Description"@), t.subject);
                let plan = self.format_plan(t);
                &&& plan.nesting.pending is None
                &&& plan.nesting.close.len() > 0
                &&& if self.subject != Some(t.subject) {
                    &&& plan.events == turned.events + seq![XmlEventView::Start(description)]
                        + said
                    &&& plan.nesting.close == turned.nesting.close.push(description.name)
                } else {
                    &&& plan.nesting.close == self.nesting.close
                    &&& match self.nesting.pending {
                        Some(wrapper) => plan.events == seq![XmlEventView::Start(wrapper)] + said
                            && plan.nesting.close.last() == wrapper.name,
                        None => plan.events == said,
                    }
                }
            }),
    {
        let l = t.object->Literal_0;
        let turned = self.turn_plan(t);
        let property = literal_tag(abbreviated(self.prefixes, t.predicate), l);
        let said = seq![
            XmlEventView::Start(property),
            XmlEventView::Text(l.value()),
            XmlEventView::End(property.name),
        ];
        let description = identified(TagView::named("rdf:Description"@), t.subject);
        let plan = self.format_plan(t);
        if self.subject != Some(t.subject) {
            assert(turned.nesting.pending is None);
            assert(plan.events =~= turned.events + seq![XmlEventView::Start(description)] + said);
            assert(plan.nesting.close =~= turned.nesting.close.push(description.name));
        } else {
            assert(turned == Plan::begin(self.nesting));
            assert(plan.nesting.close =~= self.nesting.close);
            match self.nesting.pending {
                Some(wrapper) => {
                    assert(plan.events =~= seq![XmlEventView::Start(wrapper)] + said);
                },
                None => {
                    assert(plan.events =~= said);
                },
            }
        }
    }
}

/// Where the subject changes, the element of the last subject is closed
/// before anything is written for the new one: the events of the triple
/// begin with the closing of the innermost element.
pub proof fn lemma_subject_change_closes_first(st: FormatterView, t: TripleView)
    requires
        st.wf(),
        st.subject is Some,
        st.subject != Some(t.subject),
    ensures
        st.format_plan(t).events.len() > 0,
        st.format_plan(t).events[0] == st.nesting.close_events()[0],
        !(st.format_plan(t).events[0] is Start),
{
    let turned = st.turn_plan(t);
    assert(turned.events =~= st.nesting.close_events());
    assert(turned.events[0] == st.nesting.close_events()[0]);
}

/// A subject of which nothing but its type is said becomes a single empty
/// element: the document of one type triple is the opening, the empty
/// element that is named after the type, and the closing tag of the root.
pub proof fn lemma_type_alone_is_empty_element(
    prefixes: Seq<(Seq<char>, Seq<char>)>,
    t: TripleView,
)
    requires
        FormatterView::opens_typed_element(t),
    ensures
        document_events(prefixes, seq![t]) == opening_events(prefixes) + seq![
            XmlEventView::Empty(
                identified(abbreviated(prefixes, t.object->NamedNode_0), t.subject),
            ),
            XmlEventView::End("rdf:RDF"@),
        ],
{
    let triples = seq![t];
    let first = FormatterView::initial(prefixes);
    let tag = identified(abbreviated(prefixes, t.object->NamedNode_0), t.subject);
    assert(triples.drop_last() =~= Seq::<TripleView>::empty());
    assert(state_after(prefixes, triples.drop_last()) == first);
    assert(body_events(prefixes, triples.drop_last()) =~= Seq::<XmlEventView>::empty());
    assert(first.format_plan(t).events =~= Seq::<XmlEventView>::empty());
    let last = state_after(prefixes, triples);
    assert(last.nesting.close =~= seq![tag.name]);
    assert(last.nesting.closed().close =~= Seq::<Seq<char>>::empty());
    assert(last.nesting.closed().drain_events() =~= Seq::<XmlEventView>::empty());
    assert(last.nesting.drain_events() =~= seq![XmlEventView::Empty(tag)]);
    assert(document_events(prefixes, triples) =~= opening_events(prefixes) + seq![
        XmlEventView::Empty(tag),
        XmlEventView::End("rdf:RDF"@),
    ]);
}

/// A subject with a type and, next, a property whose object is a literal
/// becomes one element that is named after the type and holds the property
/// element with its text; no generic description is written.
pub proof fn lemma_typed_subject_holds_its_property(
    prefixes: Seq<(Seq<char>, Seq<char>)>,
    typed: TripleView,
    said: TripleView,
)
    requires
        FormatterView::opens_typed_element(typed),
        !FormatterView::opens_typed_element(said),
        said.subject == typed.subject,
        said.object is Literal,
    ensures
        ({
            let element = identified(
                abbreviated(prefixes, typed.object->NamedNode_0),
                typed.subject,
            );
            let property = literal_tag(
                abbreviated(prefixes, said.predicate),
                said.object->Literal_0,
            );
            document_events(prefixes, seq![typed, said]) == opening_events(prefixes) + seq![
                XmlEventView::Start(element),
                XmlEventView::Start(property),
                XmlEventView::Text(said.object->Literal_0.value()),
                XmlEventView::End(property.name),
                XmlEventView::End(element.name),
                XmlEventView::End("rdf:RDF"@),
            ]
        }),
{
    let triples = seq![typed, said];
    let one = seq![typed];
    let element = identified(abbreviated(prefixes, typed.object->NamedNode_0), typed.subject);
    let property = literal_tag(abbreviated(prefixes, said.predicate), said.object->Literal_0);
    let text = XmlEventView::Text(said.object->Literal_0.value());
    let first = FormatterView::initial(prefixes);
    assert(triples.drop_last() =~= one);
    assert(one.drop_last() =~= Seq::<TripleView>::empty());
    assert(state_after(prefixes, one.drop_last()) == first);
    assert(body_events(prefixes, one.drop_last()) =~= Seq::<XmlEventView>::empty());
    assert(first.format_plan(typed).events =~= Seq::<XmlEventView>::empty());
    let middle = state_after(prefixes, one);
    assert(middle.nesting.close =~= seq![element.name]);
    assert(middle.nesting.pending == Some(element));
    assert(body_events(prefixes, one) =~= Seq::<XmlEventView>::empty());
    let plan = middle.format_plan(said);
    assert(middle.turn_plan(said) == Plan::begin(middle.nesting));
    assert(plan.events =~= seq![
        XmlEventView::Start(element),
        XmlEventView::Start(property),
        text,
        XmlEventView::End(property.name),
    ]);
    assert(plan.nesting.close =~= seq![element.name]);
    assert(plan.nesting.pending is None);
    let last = state_after(prefixes, triples);
    assert(last.nesting == plan.nesting);
    assert(last.nesting.closed().close =~= Seq::<Seq<char>>::empty());
    assert(last.nesting.closed().drain_events() =~= Seq::<XmlEventView>::empty());
    assert(last.nesting.drain_events() =~= seq![XmlEventView::End(element.name)]);
    assert(body_events(prefixes, triples) =~= plan.events);
    assert(document_events(prefixes, triples) =~= opening_events(prefixes) + seq![
        XmlEventView::Start(element),
        XmlEventView::Start(property),
        text,
        XmlEventView::End(property.name),
        XmlEventView::End(element.name),
        XmlEventView::End("rdf:RDF"@),
    ]);
}

/// The serializer. It writes the document into a buffer of bytes, which
/// `finish` hands out.
pub struct AbbrevRdfXmlFormatter {
    document: Document,
    config: AbbrevRdfXmlFormatterConfig,
    current_subject: Option<AsRefNamedOrBlankNode>,
    nesting: Nesting,
    history: Ghost<Seq<TripleView>>,
}

impl View for AbbrevRdfXmlFormatter {
    type V = FormatterView;

    closed spec fn view(&self) -> FormatterView {
        FormatterView {
            prefixes: self.config.prefix.entries(),
            subject: match self.current_subject {
                Some(s) => Some(s@),
                None => None,
            },
            nesting: self.nesting@,
        }
    }
}

impl AbbrevRdfXmlFormatter {
    /// The triples written so far, in order.
    pub closed spec fn history(&self) -> Seq<TripleView> {
        self.history@
    }

    /// The number of spaces by which a nested element is indented.
    pub closed spec fn indentation(&self) -> nat {
        self.config.indentation as nat
    }

    /// The document writer is in order, the state is the one that the
    /// triples written so far lead to, and what was written is the opening
    /// of the document and the events of those triples.
    pub closed spec fn wf(&self) -> bool {
        &&& self.document.wf()
        &&& self@ == state_after(self@.prefixes, self.history@)
        &&& self.document.written() == rendered(
            Layout::initial(self.config.indentation as nat),
            events_so_far(self@.prefixes, self.history@),
        )
        &&& self.document.layout() == layout_after_all(
            Layout::initial(self.config.indentation as nat),
            events_so_far(self@.prefixes, self.history@),
        )
    }

    /// A serializer in order has a well-formed state, and has written the
    /// opening of its document and the events of its triples.
    pub proof fn lemma_wf(&self)
        requires
            self.wf(),
        ensures
            self@.wf(),
            self@ == state_after(self@.prefixes, self.history()),
            self.written() == rendered(
                Layout::initial(self.indentation()),
                events_so_far(self@.prefixes, self.history()),
            ),
            self.layout() == layout_after_all(
                Layout::initial(self.indentation()),
                events_so_far(self@.prefixes, self.history()),
            ),
    {
        lemma_body_nested(self@.prefixes, self.history@);
    }

    /// A serializer that does not indent can write every triple.
    pub proof fn lemma_fits_without_indentation(&self, t: TripleView)
        requires
            self.wf(),
            self.indentation() == 0,
        ensures
            !too_deep(self.layout(), self@.format_plan(t).events),
    {
        let so_far = events_so_far(self@.prefixes, self.history@);
        lemma_body_nested(self@.prefixes, self.history@);
        lemma_indent_bound(Layout::initial(0), so_far);
        assert(starts(so_far) * 0 == 0) by (nonlinear_arith);
        self@.lemma_format_fits(self.layout(), t);
    }

    /// The bytes written so far, from the start of the document.
    pub closed spec fn written(&self) -> Seq<u8> {
        self.document.written()
    }

    /// The bytes that were handed out: what was written up to the last
    /// `take_output`.
    pub closed spec fn taken(&self) -> Seq<u8> {
        self.document.taken()
    }

    /// How the next tag is laid out.
    pub closed spec fn layout(&self) -> Layout {
        self.document.layout()
    }

    /// Begins a document: the declaration, and the opening tag of the root
    /// element with one namespace declaration for each prefix. The RDF
    /// namespace is bound to the prefix `rdf`, whatever the configuration
    /// bound it to. Fails, with `TooDeep`, exactly where the indentation is
    /// of more than `isize::MAX` spaces.
    pub fn new(config: AbbrevRdfXmlFormatterConfig) -> (r: Result<Self, FormatError>)
        ensures
            match r {
                Ok(f) => {
                    let prefixes = bound(config.prefix.entries(), rdf_namespace(), "rdf"@);
                    &&& f.wf()
                    &&& f@ == FormatterView::initial(prefixes)
                    &&& f.indentation() == config.indentation
                    &&& f.history() == Seq::<TripleView>::empty()
                    &&& f.taken() == Seq::<u8>::empty()
                    &&& f.written() == rendered(
                        Layout::initial(config.indentation as nat),
                        opening_events(prefixes),
                    )
                },
                Err(e) => e is TooDeep,
            },
            r is Ok <==> config.indentation <= isize::MAX,
    {
        let mut config = config;
        config.prefix.insert(
            String::from_str("http://www.w3.org/1999/02/22-rdf-syntax-ns#"),
            String::from_str("rdf"),
        );
        let f = AbbrevRdfXmlFormatter {
            document: Document::new(config.indentation),
            config,
            current_subject: None,
            nesting: Nesting::new(),
            history: Ghost(Seq::empty()),
        };
        f.write_declaration()
    }

    /// Writes the declaration and the opening tag of the root element.
    fn write_declaration(self) -> (r: Result<Self, FormatError>)
        requires
            self.document.wf(),
            self.document.written() == Seq::<u8>::empty(),
            self.document.layout() == Layout::initial(self.config.indentation as nat),
            self@ == FormatterView::initial(self@.prefixes),
            self.history@ == Seq::<TripleView>::empty(),
        ensures
            match r {
                Ok(f) => {
                    &&& f.wf()
                    &&& f@ == self@
                    &&& f.indentation() == self.indentation()
                    &&& f.history() == self.history()
                    &&& f.taken() == self.taken()
                    &&& f.written() == rendered(
                        Layout::initial(self.config.indentation as nat),
                        opening_events(self@.prefixes),
                    )
                },
                Err(e) => e is TooDeep,
            },
            r is Ok <==> self.config.indentation <= isize::MAX,
    {
        let mut f = self;
        let mut rdf_open = Tag::new(String::from_str("rdf:RDF"));
        f.write_prefix(&mut rdf_open);
        let mut out: Vec<XmlEvent> = Vec::new();
        push_event(&mut out, XmlEvent::Decl);
        push_event(&mut out, XmlEvent::Start(rdf_open));
        assert(events_view(out@) =~= opening_events(self@.prefixes));
        proof {
            let l = self.layout();
            let events = events_view(out@);
            assert(events.take(1).drop_last() =~= Seq::empty());
            assert(layout_after_all(l, events.take(1).drop_last()) == l);
            assert(events.take(1).last() == XmlEventView::Decl);
            assert(layout_after_all(l, events.take(1)).indent == 0);
            assert(events[1] is Start);
            assert(too_deep(l, events) <==> self.config.indentation > isize::MAX) by {
                if too_deep(l, events) {
                    let i = choose|i: int| overflows_at(l, events, i);
                    assert(i == 1);
                }
                if self.config.indentation > isize::MAX {
                    assert(overflows_at(l, events, 1));
                }
            }
        }
        match f.document.write_all(&out) {
            Ok(()) => {
                proof {
                    let opening = opening_events(self@.prefixes);
                    assert(events_so_far(self@.prefixes, Seq::empty()) =~= opening);
                    assert(Seq::<u8>::empty() + rendered(self.document.layout(), opening)
                        =~= rendered(self.document.layout(), opening));
                }
                Ok(f)
            },
            Err(e) => Err(e),
        }
    }

    /// Gives the root element one namespace declaration for each prefix, in
    /// the order of the table.
    fn write_prefix(&self, rdf_open: &mut Tag)
        requires
            old(rdf_open)@.attributes.len() == 0,
        ensures
            final(rdf_open)@ == (TagView {
                name: old(rdf_open)@.name,
                attributes: namespace_attributes(self@.prefixes),
            }),
    {
        let mut i: usize = 0;
        while i < self.config.prefix.len()
            invariant
                i <= self.config.prefix.entries().len(),
                rdf_open@.name == old(rdf_open)@.name,
                rdf_open@.attributes == namespace_attributes(self@.prefixes).take(i as int),
            decreases self.config.prefix.entries().len() - i,
        {
            let mut ns = String::from_str("xmlns:");
            ns.append(self.config.prefix.prefix_at(i));
            rdf_open.push_attribute(ns.as_str(), self.config.prefix.namespace_at(i));
            assert(rdf_open@.attributes =~= namespace_attributes(self@.prefixes).take(i + 1));
            i += 1;
        }
        assert(rdf_open@.attributes =~= namespace_attributes(self@.prefixes));
    }

    /// The tag that stands for an identifier: abbreviated by a prefix where
    /// its namespace has one, with the namespace declared in place where it
    /// has none.
    fn bytes_for_iri(&self, iri: &str) -> (r: Tag)
        ensures
            r@ == abbreviated(self@.prefixes, iri@),
    {
        let (iri_prefix, iri_value) = split_iri(iri);
        match self.config.prefix.get(iri_prefix) {
            Some(iri_ns_prefix) => {
                let mut name = String::from_str(iri_ns_prefix);
                name.append(":");
                name.append(iri_value);
                Tag::new(name)
            },
            None => {
                let mut bs = Tag::new(String::from_str(iri_value));
                bs.push_attribute("xmlns", iri_prefix);
                bs
            },
        }
    }

    /// Writes one triple.
    ///
    /// Where the subject is not that of the triple before, the element of
    /// that triple's subject is closed first. On success the bytes of the
    /// events of `format_plan` stand behind what was written before. The
    /// step fails, with `TooDeep`, exactly where the content of an element
    /// that it opens would be indented by more than `isize::MAX` spaces; it
    /// then writes nothing and leaves the serializer as it was.
    pub fn format(&mut self, triple: &AsRefTriple) -> (r: Result<(), FormatError>)
        requires
            old(self).wf(),
        ensures
            final(self).wf(),
            final(self).indentation() == old(self).indentation(),
            final(self).taken() == old(self).taken(),
            r is Ok <==> !too_deep(old(self).layout(), old(self)@.format_plan(triple@).events),
            match r {
                Ok(()) => {
                    &&& final(self)@ == old(self)@.after(triple@)
                    &&& final(self).history() == old(self).history().push(triple@)
                    &&& final(self).written() == old(self).written() + rendered(
                        old(self).layout(),
                        old(self)@.format_plan(triple@).events,
                    )
                    &&& final(self).layout() == layout_after_all(
                        old(self).layout(),
                        old(self)@.format_plan(triple@).events,
                    )
                },
                Err(e) => {
                    &&& e is TooDeep
                    &&& final(self)@ == old(self)@
                    &&& final(self).history() == old(self).history()
                    &&& final(self).written() == old(self).written()
                    &&& final(self).layout() == old(self).layout()
                },
            },
    {
        let saved = self.nesting.clone();
        let mut out: Vec<XmlEvent> = Vec::new();
        assert(events_view(out@) =~= Seq::empty());
        proof {
            lemma_body_nested(self@.prefixes, self.history@);
        }
        let changed = match &self.current_subject {
            Some(last) => !last.same_as(&triple.subject),
            None => true,
        };
        if changed && self.current_subject.is_some() {
            let closed = self.nesting.write_close(&mut out);
            assert(closed is Ok);
        }
        assert(events_view(out@) =~= old(self)@.turn_plan(triple@).events);
        let typed = str_eq(
            triple.predicate.iri.as_str(),
            "http://www.w3.org/1999/02/22-rdf-syntax-ns#type",
        );
        let mut done = false;
        if typed {
            if let AsRefTerm::NamedNode(nn) = &triple.object {
                let mut open = self.bytes_for_iri(nn.iri.as_str());
                about(&mut open, &triple.subject);
                self.nesting.write_start(open, &mut out);
                done = true;
            }
        }
        if !done {
            self.format_normal(triple, changed, &mut out);
        }
        if !self.document.fits(&out) {
            self.nesting = saved;
            return Err(FormatError::TooDeep);
        }
        self.current_subject = Some(triple.subject.clone());
        proof {
            let prefixes = old(self)@.prefixes;
            let before = old(self).history@;
            let now = before.push(triple@);
            let plan = old(self)@.format_plan(triple@).events;
            self.history@ = now;
            assert(now.drop_last() =~= before);
            assert(events_so_far(prefixes, now) =~= events_so_far(prefixes, before) + plan);
            lemma_rendered_concat(
                Layout::initial(self.config.indentation as nat),
                events_so_far(prefixes, before),
                plan,
            );
        }
        self.document.write_all(&out)
    }

    /// Plans the events of a triple that opens no typed element: the
    /// description of the subject, where `changed` says that the subject is
    /// not the last one, and the property element.
    fn format_normal(&mut self, triple: &AsRefTriple, changed: bool, out: &mut Vec<XmlEvent>)
        requires
            !FormatterView::opens_typed_element(triple@),
            changed == (old(self)@.subject != Some(triple@.subject)),
            old(self)@.nesting.wf(),
            !changed ==> old(self)@.nesting.close.len() > 0,
        ensures
            final(self).document == old(self).document,
            final(self).history == old(self).history,
            final(self).config == old(self).config,
            final(self)@.prefixes == old(self)@.prefixes,
            final(self)@.subject == old(self)@.subject,
            final(self)@.nesting.wf(),
            final(self)@.nesting.close.len() > 0,
            (Plan { nesting: final(self)@.nesting, events: events_view(final(out)@) })
                == old(self)@.property_plan(
                (Plan { nesting: old(self)@.nesting, events: events_view(old(out)@) }),
                triple@,
            ),
    {
        let mut property_open = self.bytes_for_iri(triple.predicate.iri.as_str());
        if changed {
            let mut description_open = Tag::new(String::from_str("rdf:Description"));
            about(&mut description_open, &triple.subject);
            self.nesting.write_start(description_open, out);
        }
        match &triple.object {
            AsRefTerm::NamedNode(n) => {
                property_open.push_attribute("rdf:resource", n.iri.as_str());
                self.nesting.write_event(XmlEvent::Empty(property_open), out);
            },
            AsRefTerm::BlankNode(n) => {
                property_open.push_attribute("rdf:nodeID", n.id.as_str());
                self.nesting.write_event(XmlEvent::Empty(property_open), out);
            },
            AsRefTerm::Literal(l) => {
                let content = match l {
                    AsRefLiteral::Simple { value } => value,
                    AsRefLiteral::LanguageTaggedString { value, language } => {
                        property_open.push_attribute("xml:lang", language.as_str());
                        value
                    },
                    AsRefLiteral::Typed { value, datatype } => {
                        property_open.push_attribute("rdf:datatype", datatype.iri.as_str());
                        value
                    },
                };
                self.nesting.write_start(property_open, out);
                self.nesting.write_event(XmlEvent::Text(content.clone()), out);
                let closed = self.nesting.write_close(out);
                assert(closed is Ok);
            },
        }
    }

    /// Hands out what was written since the last `take_output`: the bytes
    /// are moved behind those that `out` holds. Nothing else changes.
    pub fn take_output(&mut self, out: &mut Vec<u8>)
        requires
            old(self).wf(),
        ensures
            final(self).wf(),
            final(self)@ == old(self)@,
            final(self).indentation() == old(self).indentation(),
            final(self).history() == old(self).history(),
            final(self).written() == old(self).written(),
            final(self).layout() == old(self).layout(),
            final(self).taken() == old(self).written(),
            old(self).taken() + (final(out)@.skip(old(out)@.len() as int)) == old(self).written(),
            final(out)@.take(old(out)@.len() as int) == old(out)@,
            final(out)@.len() >= old(out)@.len(),
    {
        self.document.take(out);
    }

    /// Ends the document and hands out the bytes that were not handed out
    /// before: every element that is still open is closed, innermost first,
    /// and then the root element. All the bytes that the serializer handed
    /// out, in order, are the document of the triples that it was given.
    /// Ending a document always succeeds.
    pub fn finish(self) -> (r: Result<Vec<u8>, FormatError>)
        requires
            self.wf(),
        ensures
            match r {
                Ok(bytes) => {
                    &&& self.taken() + bytes@ == self.written() + rendered(
                        self.layout(),
                        self@.finish_events(),
                    )
                    &&& self.taken() + bytes@ == rendered(
                        Layout::initial(self.indentation()),
                        document_events(self@.prefixes, self.history()),
                    )
                },
                Err(e) => false,
            },
    {
        proof {
            lemma_body_nested(self@.prefixes, self.history@);
            lemma_rendered_concat(
                Layout::initial(self.config.indentation as nat),
                events_so_far(self@.prefixes, self.history@),
                self@.finish_events(),
            );
        }
        let mut f = self;
        let mut out: Vec<XmlEvent> = Vec::new();
        assert(events_view(out@) =~= Seq::empty());
        while f.nesting.depth() > 0
            invariant
                f.document == self.document,
                f@.nesting.wf(),
                events_view(out@) + f@.nesting.drain_events() == self@.nesting.drain_events(),
                forall|i: int|
                    0 <= i < events_view(out@).len() ==> !(#[trigger] events_view(out@)[i]
                        is Start),
            decreases f@.nesting.close.len(),
        {
            let ghost before = events_view(out@);
            let ghost n = f@.nesting;
            let closed = f.nesting.write_close(&mut out);
            assert(before + n.drain_events() =~= (before + n.close_events())
                + n.closed().drain_events());
        }
        assert(events_view(out@) =~= self@.nesting.drain_events());
        f.nesting.write_event(XmlEvent::End(String::from_str("rdf:RDF")), &mut out);
        assert(events_view(out@) =~= self@.finish_events());
        proof {
            let events = events_view(out@);
            assert forall|i: int| 0 <= i < events.len() implies !(#[trigger] events[i]
                is Start) by {}
            lemma_no_start_fits(f.document.layout(), events);
        }
        match f.document.write_all(&out) {
            Ok(()) => Ok(f.document.into_bytes()),
            Err(e) => Err(e),
        }
    }
}

/// Adds the attribute that names the resource an element is about.
fn about(tag: &mut Tag, subject: &AsRefNamedOrBlankNode)
    ensures
        final(tag)@ == identified(old(tag)@, subject@),
{
    match subject {
        AsRefNamedOrBlankNode::NamedNode(n) => tag.push_attribute("rdf:about", n.iri.as_str()),
        AsRefNamedOrBlankNode::BlankNode(n) => tag.push_attribute("rdf:nodeID", n.id.as_str()),
    }
}

} // verus!
