//! The nesting state of a document under construction.
//!
//! Opening an element is split in two: deciding to open it, and writing its
//! opening tag. A decided opening is held back as the one *pending* tag. If
//! the element is closed while its tag is still pending, a single empty
//! element is written in place of an opening and a closing tag. Any other
//! event first writes the pending tag as a genuine opening.

use vstd::prelude::*;
use crate::error::FormatError;
use crate::xml::{events_view, push_event, Tag, TagView, XmlEvent, XmlEventView};

verus! {

/// The elements that wait to be closed, innermost last, and the opening tag
/// that is held back, if any.
pub struct Nesting {
    current_close: Vec<String>,
    maybe_empty_open: Option<Tag>,
}

/// The model of a nesting state.
pub struct NestingView {
    /// The names of the elements to close, innermost last: one for each
    /// element that was opened and not closed, the pending one included.
    pub close: Seq<Seq<char>>,
    /// The opening tag that is decided and not written.
    pub pending: Option<TagView>,
}

impl NestingView {
    /// No element is open and no tag is pending.
    pub open spec fn idle() -> NestingView {
        NestingView { close: Seq::empty(), pending: None }
    }

    /// A pending tag belongs to the innermost element to close.
    pub open spec fn wf(self) -> bool {
        self.pending matches Some(t) ==> self.close.len() > 0 && self.close.last() == t.name
    }

    /// The names of the elements whose opening tag was written and whose
    /// closing tag was not, innermost last.
    pub open spec fn open_elements(self) -> Seq<Seq<char>> {
        if self.pending is Some {
            self.close.drop_last()
        } else {
            self.close
        }
    }

    /// What is written to get a pending tag out of the way.
    pub open spec fn flush_events(self) -> Seq<XmlEventView> {
        match self.pending {
            Some(t) => seq![XmlEventView::Start(t)],
            None => Seq::empty(),
        }
    }

    /// The state after a pending tag was written.
    pub open spec fn flushed(self) -> NestingView {
        NestingView { close: self.close, pending: None }
    }

    /// The state after the decision to open `tag`.
    pub open spec fn started(self, tag: TagView) -> NestingView {
        NestingView { close: self.close.push(tag.name), pending: Some(tag) }
    }

    /// What is written to close the innermost element.
    pub open spec fn close_events(self) -> Seq<XmlEventView> {
        match self.pending {
            Some(t) => seq![XmlEventView::Empty(t)],
            None => seq![XmlEventView::End(self.close.last())],
        }
    }

    /// The state after the innermost element was closed.
    pub open spec fn closed(self) -> NestingView {
        NestingView { close: self.close.drop_last(), pending: None }
    }

    /// What is written to close every element, innermost first.
    pub open spec fn drain_events(self) -> Seq<XmlEventView>
        decreases self.close.len(),
    {
        if self.close.len() == 0 {
            Seq::empty()
        } else {
            self.close_events() + self.closed().drain_events()
        }
    }
}

/// The model of a list of names.
pub open spec fn names_view(names: Seq<String>) -> Seq<Seq<char>> {
    Seq::new(names.len(), |i: int| names[i]@)
}

impl View for Nesting {
    type V = NestingView;

    closed spec fn view(&self) -> NestingView {
        NestingView {
            close: names_view(self.current_close@),
            pending: match self.maybe_empty_open {
                Some(t) => Some(t@),
                None => None,
            },
        }
    }
}

impl Nesting {
    /// A state in which no element is open.
    pub fn new() -> (r: Nesting)
        ensures
            r@ == NestingView::idle(),
    {
        let r = Nesting { current_close: Vec::new(), maybe_empty_open: None };
        assert(r@.close =~= Seq::empty());
        r
    }

    /// The number of elements that wait to be closed.
    pub fn depth(&self) -> (r: usize)
        ensures
            r == self@.close.len(),
    {
        self.current_close.len()
    }

    /// Whether an opening tag is held back.
    pub fn is_pending(&self) -> (r: bool)
        ensures
            r == self@.pending is Some,
    {
        self.maybe_empty_open.is_some()
    }

    /// Writes the pending tag, if there is one, as a genuine opening.
    pub fn flush(&mut self, out: &mut Vec<XmlEvent>)
        ensures
            final(self)@ == old(self)@.flushed(),
            events_view(final(out)@) == events_view(old(out)@) + old(self)@.flush_events(),
    {
        let pending = self.maybe_empty_open.take();
        match pending {
            Some(tag) => {
                assert(events_view(old(out)@).push(XmlEventView::Start(tag@)) =~= events_view(
                    old(out)@,
                ) + old(self)@.flush_events());
                push_event(out, XmlEvent::Start(tag));
            },
            None => {
                assert(events_view(old(out)@) =~= events_view(old(out)@) + old(
                    self,
                )@.flush_events());
            },
        }
    }

    /// Decides to open an element. A tag that was pending is written first;
    /// the new tag is held back until the next event shows whether the element
    /// has content.
    pub fn write_start(&mut self, tag: Tag, out: &mut Vec<XmlEvent>)
        ensures
            final(self)@ == old(self)@.started(tag@),
            events_view(final(out)@) == events_view(old(out)@) + old(self)@.flush_events(),
    {
        self.flush(out);
        self.current_close.push(tag.name.clone());
        self.maybe_empty_open = Some(tag);
        assert(self@.close =~= old(self)@.close.push(tag@.name));
    }

    /// Writes an event that is neither the opening nor the closing of a
    /// tracked element. A pending tag is written first.
    pub fn write_event(&mut self, event: XmlEvent, out: &mut Vec<XmlEvent>)
        ensures
            final(self)@ == old(self)@.flushed(),
            events_view(final(out)@) == (events_view(old(out)@) + old(self)@.flush_events()).push(
                event@,
            ),
    {
        self.flush(out);
        push_event(out, event);
    }

    /// Closes the innermost element: as an empty element where its opening
    /// tag is still pending, with a closing tag otherwise. Fails, and changes
    /// nothing, exactly where no element waits to be closed.
    pub fn write_close(&mut self, out: &mut Vec<XmlEvent>) -> (r: Result<(), FormatError>)
        ensures
            old(self)@.close.len() == 0 ==> r == Err::<(), FormatError>(
                FormatError::CloseWithoutOpen,
            ) && *final(self) == *old(self) && *final(out) == *old(out),
            old(self)@.close.len() > 0 ==> r is Ok && final(self)@ == old(self)@.closed()
                && events_view(final(out)@) == events_view(old(out)@) + old(self)@.close_events(),
    {
        if self.current_close.len() == 0 {
            return Err(FormatError::CloseWithoutOpen);
        }
        let close = self.current_close.pop().unwrap();
        assert(self@.close =~= old(self)@.close.drop_last());
        let pending = self.maybe_empty_open.take();
        match pending {
            Some(empty) => {
                assert(events_view(old(out)@).push(XmlEventView::Empty(empty@)) =~= events_view(
                    old(out)@,
                ) + old(self)@.close_events());
                push_event(out, XmlEvent::Empty(empty));
            },
            None => {
                assert(events_view(old(out)@).push(XmlEventView::End(close@)) =~= events_view(
                    old(out)@,
                ) + old(self)@.close_events());
                push_event(out, XmlEvent::End(close));
            },
        }
        Ok(())
    }
}

impl Clone for Nesting {
    fn clone(&self) -> (r: Self)
        ensures
            r@ == self@,
    {
        let mut current_close: Vec<String> = Vec::new();
        let mut i: usize = 0;
        while i < self.current_close.len()
            invariant
                i <= self.current_close.len(),
                current_close.len() == i,
                forall|k: int|
                    0 <= k < i ==> (#[trigger] current_close[k])@ == self.current_close[k]@,
            decreases self.current_close.len() - i,
        {
            current_close.push(self.current_close[i].clone());
            i += 1;
        }
        let maybe_empty_open = match &self.maybe_empty_open {
            Some(tag) => Some(tag.clone()),
            None => None,
        };
        let r = Nesting { current_close, maybe_empty_open };
        assert(r@.close =~= self@.close);
        r
    }
}

/// The elements that are open after one event, given those that were open
/// before it, innermost last. An opening tag opens its element; a closing
/// tag closes the innermost element, whose name it must bear; nothing else
/// opens or closes. `None` where a closing tag does not fit.
pub open spec fn nest(open: Seq<Seq<char>>, ev: XmlEventView) -> Option<Seq<Seq<char>>> {
    match ev {
        XmlEventView::Start(t) => Some(open.push(t.name)),
        XmlEventView::End(name) => if open.len() > 0 && open.last() == name {
            Some(open.drop_last())
        } else {
            None
        },
        _ => Some(open),
    }
}

/// The elements that are open after a list of events, or `None` where some
/// closing tag does not fit the element that is innermost when it comes.
pub open spec fn replay(open: Seq<Seq<char>>, events: Seq<XmlEventView>) -> Option<
    Seq<Seq<char>>,
>
    decreases events.len(),
{
    if events.len() == 0 {
        Some(open)
    } else {
        match replay(open, events.drop_last()) {
            Some(inner) => nest(inner, events.last()),
            None => None,
        }
    }
}

/// Events are balanced where each closing tag fits and no element is left
/// open.
pub open spec fn balanced(events: Seq<XmlEventView>) -> bool {
    replay(Seq::empty(), events) == Some(Seq::<Seq<char>>::empty())
}

/// Replaying two lists in a row is replaying the second from where the
/// first ends.
pub proof fn lemma_replay_concat(
    open: Seq<Seq<char>>,
    a: Seq<XmlEventView>,
    b: Seq<XmlEventView>,
)
    ensures
        replay(open, a + b) == match replay(open, a) {
            Some(inner) => replay(inner, b),
            None => None,
        },
    decreases b.len(),
{
    if b.len() == 0 {
        assert(a + b =~= a);
    } else {
        assert((a + b).drop_last() =~= a + b.drop_last());
        assert((a + b).last() == b.last());
        lemma_replay_concat(open, a, b.drop_last());
    }
}

/// Replaying one event.
pub proof fn lemma_replay_one(open: Seq<Seq<char>>, ev: XmlEventView)
    ensures
        replay(open, seq![ev]) == nest(open, ev),
        replay(open, Seq::empty()) == Some(open),
{
    assert(seq![ev].drop_last() =~= Seq::<XmlEventView>::empty());
}

/// Events that fit also fit inside elements that are open around them.
pub proof fn lemma_replay_inside(
    around: Seq<Seq<char>>,
    open: Seq<Seq<char>>,
    events: Seq<XmlEventView>,
)
    ensures
        replay(open, events) matches Some(after) ==> replay(around + open, events) == Some(
            around + after,
        ),
    decreases events.len(),
{
    if events.len() == 0 {
    } else {
        lemma_replay_inside(around, open, events.drop_last());
        match replay(open, events.drop_last()) {
            Some(inner) => {
                match events.last() {
                    XmlEventView::Start(t) => {
                        assert((around + inner).push(t.name) =~= around + inner.push(t.name));
                    },
                    XmlEventView::End(name) => {
                        if inner.len() > 0 && inner.last() == name {
                            assert((around + inner).drop_last() =~= around + inner.drop_last());
                        }
                    },
                    _ => {},
                }
            },
            None => {},
        }
    }
}

impl NestingView {
    /// Deciding to open an element keeps the state in order, and what is
    /// written for it leaves open the elements that the new state says.
    pub proof fn lemma_started(self, tag: TagView)
        requires
            self.wf(),
        ensures
            self.started(tag).wf(),
            replay(self.open_elements(), self.flush_events()) == Some(
                self.started(tag).open_elements(),
            ),
    {
        assert(self.close.push(tag.name).drop_last() =~= self.close);
        match self.pending {
            Some(t) => {
                lemma_replay_one(self.open_elements(), XmlEventView::Start(t));
                assert(self.close.drop_last().push(t.name) =~= self.close);
            },
            None => {},
        }
    }

    /// Writing an event that neither opens nor closes an element keeps the
    /// state in order and leaves open the elements that the new state says.
    pub proof fn lemma_flushed(self, ev: XmlEventView)
        requires
            self.wf(),
            !(ev is Start),
            !(ev is End),
        ensures
            self.flushed().wf(),
            replay(self.open_elements(), self.flush_events().push(ev)) == Some(
                self.flushed().open_elements(),
            ),
    {
        assert(self.flush_events().push(ev) =~= self.flush_events() + seq![ev]);
        lemma_replay_concat(self.open_elements(), self.flush_events(), seq![ev]);
        lemma_replay_one(self.close, ev);
        match self.pending {
            Some(t) => {
                lemma_replay_one(self.open_elements(), XmlEventView::Start(t));
                assert(self.close.drop_last().push(t.name) =~= self.close);
            },
            None => {},
        }
    }

    /// Closing the innermost element keeps the state in order and leaves
    /// open the elements that the new state says.
    pub proof fn lemma_closed(self)
        requires
            self.wf(),
            self.close.len() > 0,
        ensures
            self.closed().wf(),
            replay(self.open_elements(), self.close_events()) == Some(
                self.closed().open_elements(),
            ),
    {
        match self.pending {
            Some(t) => {
                lemma_replay_one(self.open_elements(), XmlEventView::Empty(t));
            },
            None => {
                lemma_replay_one(self.open_elements(), XmlEventView::End(self.close.last()));
            },
        }
    }

    /// Closing every element leaves none open.
    pub proof fn lemma_drained(self)
        requires
            self.wf(),
        ensures
            replay(self.open_elements(), self.drain_events()) == Some(
                Seq::<Seq<char>>::empty(),
            ),
            forall|i: int|
                0 <= i < self.drain_events().len() ==> !(#[trigger] self.drain_events()[i]
                    is Start),
        decreases self.close.len(),
    {
        if self.close.len() == 0 {
            assert(self.open_elements() =~= Seq::<Seq<char>>::empty());
        } else {
            self.lemma_closed();
            self.closed().lemma_drained();
            lemma_replay_concat(
                self.open_elements(),
                self.close_events(),
                self.closed().drain_events(),
            );
        }
    }
}

} // verus!
