//! The events of a tagged document: tags with their attributes, and the
//! events that open, close and fill elements.

use vstd::prelude::*;

verus! {

/// An element's tag: its name and its attributes in the order in which they
/// are written. Attribute values are held as plain text, not yet escaped.
#[derive(Debug, PartialEq, Eq)]
pub struct Tag {
    pub name: String,
    pub attributes: Vec<(String, String)>,
}

/// The model of a tag.
pub struct TagView {
    pub name: Seq<char>,
    pub attributes: Seq<(Seq<char>, Seq<char>)>,
}

/// One event of a tagged document.
#[derive(Debug, PartialEq, Eq)]
pub enum XmlEvent {
    /// The document declaration: version 1.0, encoding UTF-8.
    Decl,
    /// An element is opened.
    Start(Tag),
    /// The element of this name is closed.
    End(String),
    /// An element without content: opened and closed at once.
    Empty(Tag),
    /// Text content, not yet escaped.
    Text(String),
}

/// The model of an event.
pub enum XmlEventView {
    Decl,
    Start(TagView),
    End(Seq<char>),
    Empty(TagView),
    Text(Seq<char>),
}

/// The model of a list of attributes.
pub open spec fn attributes_view(a: Seq<(String, String)>) -> Seq<(Seq<char>, Seq<char>)> {
    Seq::new(a.len(), |i: int| (a[i].0@, a[i].1@))
}

/// The model of a list of events.
pub open spec fn events_view(events: Seq<XmlEvent>) -> Seq<XmlEventView> {
    Seq::new(events.len(), |i: int| events[i]@)
}

impl View for Tag {
    type V = TagView;

    open spec fn view(&self) -> TagView {
        TagView { name: self.name@, attributes: attributes_view(self.attributes@) }
    }
}

impl View for XmlEvent {
    type V = XmlEventView;

    open spec fn view(&self) -> XmlEventView {
        match self {
            XmlEvent::Decl => XmlEventView::Decl,
            XmlEvent::Start(t) => XmlEventView::Start(t@),
            XmlEvent::End(n) => XmlEventView::End(n@),
            XmlEvent::Empty(t) => XmlEventView::Empty(t@),
            XmlEvent::Text(s) => XmlEventView::Text(s@),
        }
    }
}

impl TagView {
    /// This tag with one more attribute behind the others.
    pub open spec fn with_attribute(self, key: Seq<char>, value: Seq<char>) -> TagView {
        TagView { name: self.name, attributes: self.attributes.push((key, value)) }
    }

    /// The tag of this name without attributes.
    pub open spec fn named(name: Seq<char>) -> TagView {
        TagView { name, attributes: Seq::empty() }
    }
}

impl Tag {
    /// A tag of the given name without attributes.
    pub fn new(name: String) -> (r: Tag)
        ensures
            r@ == TagView::named(name@),
    {
        let r = Tag { name, attributes: Vec::new() };
        assert(r@.attributes =~= Seq::empty());
        r
    }

    /// Adds an attribute behind those that the tag has.
    pub fn push_attribute(&mut self, key: &str, value: &str)
        ensures
            final(self)@ == old(self)@.with_attribute(key@, value@),
    {
        self.attributes.push((key.to_owned(), value.to_owned()));
        assert(self@.attributes =~= old(self)@.attributes.push((key@, value@)));
    }
}

impl Clone for Tag {
    fn clone(&self) -> (r: Self)
        ensures
            r@ == self@,
    {
        let mut attributes: Vec<(String, String)> = Vec::new();
        let mut i: usize = 0;
        while i < self.attributes.len()
            invariant
                i <= self.attributes.len(),
                attributes.len() == i,
                forall|k: int|
                    0 <= k < i ==> (#[trigger] attributes[k]).0@ == self.attributes[k].0@
                        && attributes[k].1@ == self.attributes[k].1@,
            decreases self.attributes.len() - i,
        {
            attributes.push((self.attributes[i].0.clone(), self.attributes[i].1.clone()));
            i += 1;
        }
        let r = Tag { name: self.name.clone(), attributes };
        assert(r@.attributes =~= self@.attributes);
        r
    }
}

/// Appends one event to a list of events.
pub fn push_event(out: &mut Vec<XmlEvent>, ev: XmlEvent)
    ensures
        events_view(final(out)@) == events_view(old(out)@).push(ev@),
{
    out.push(ev);
    assert(events_view(out@) =~= events_view(old(out)@).push(ev@));
}

} // verus!
