//! Writing events as bytes with `quick_xml`.
//!
//! The document writer of `quick_xml` is held as it is. What it has written,
//! and how it lays out the next tag, are named here; the contracts of the
//! calls into `quick_xml` say over those names what its source does. On top
//! of them, verified code turns an event of this library into the bytes that
//! the writer appends.

use vstd::prelude::*;
use vstd::string::StringSliceAdditionalSpecFns;
use vstd::utf8::encode_utf8;
use quick_xml::events::{BytesDecl, BytesEnd, BytesStart, BytesText, Event};
use quick_xml::Writer;
use crate::ascii::{AMPERSAND, APOSTROPHE, GREATER, LESS, LINE_FEED, QUOTE, SPACE};
use crate::error::FormatError;
use crate::xml::{events_view, Tag, TagView, XmlEvent, XmlEventView};

verus! {

/// The document writer of `quick_xml`, `Writer`, over a buffer of bytes.
/// Nothing is known of what it holds but what the contracts below say.
#[verifier::external_body]
pub struct DocumentWriter {
    inner: Writer<Vec<u8>>,
}

/// `quick_xml::events::BytesStart`, an opening tag, carried as it is.
#[verifier::external_type_specification]
#[verifier::external_body]
pub struct ExBytesStart<'a>(BytesStart<'a>);

/// `quick_xml::events::BytesEnd`, a closing tag, carried as it is.
#[verifier::external_type_specification]
#[verifier::external_body]
pub struct ExBytesEnd<'a>(BytesEnd<'a>);

/// `quick_xml::events::BytesText`, a text, carried as it is.
#[verifier::external_type_specification]
#[verifier::external_body]
pub struct ExBytesText<'a>(BytesText<'a>);

/// `quick_xml::events::BytesDecl`, a declaration, carried as it is.
#[verifier::external_type_specification]
#[verifier::external_body]
pub struct ExBytesDecl<'a>(BytesDecl<'a>);

/// `quick_xml::events::Event`, read with its variants.
#[verifier::external_type_specification]
pub struct ExEvent<'a>(Event<'a>);

/// The bytes that a writer has put into its buffer.
pub uninterp spec fn written(w: DocumentWriter) -> Seq<u8>;

/// Whether a writer begins the next tag on a new line.
pub uninterp spec fn line_break_due(w: DocumentWriter) -> bool;

/// The number of bytes by which a writer indents the next tag.
pub uninterp spec fn indent_width(w: DocumentWriter) -> nat;

/// The number of bytes by which a writer indents an element more than the
/// element around it.
pub uninterp spec fn indent_step(w: DocumentWriter) -> nat;

/// Whether a writer indents, and does so with spaces.
pub uninterp spec fn indents_with_spaces(w: DocumentWriter) -> bool;

/// The bytes of an opening tag between its angle brackets: the name and the
/// attributes.
pub uninterp spec fn start_content(e: BytesStart<'_>) -> Seq<u8>;

/// The name in a closing tag.
pub uninterp spec fn end_content(e: BytesEnd<'_>) -> Seq<u8>;

/// The bytes of a text event, escaped.
pub uninterp spec fn text_content(e: BytesText<'_>) -> Seq<u8>;

/// The bytes of a declaration between `<?` and `?>`.
pub uninterp spec fn decl_content(e: BytesDecl<'_>) -> Seq<u8>;

/// How a writer lays out the next tag.
pub struct Layout {
    /// Whether the next tag begins on a new line.
    pub breaks: bool,
    /// The number of spaces before the next tag.
    pub indent: nat,
    /// The number of spaces by which nesting indents.
    pub step: nat,
}

/// The layout of a writer.
pub open spec fn layout_of(w: DocumentWriter) -> Layout {
    Layout { breaks: line_break_due(w), indent: indent_width(w), step: indent_step(w) }
}

impl Layout {
    /// The layout of a writer that has written nothing.
    pub open spec fn initial(step: nat) -> Layout {
        Layout { breaks: false, indent: 0, step }
    }

    /// What stands before a tag: a line feed and the indentation, where a
    /// line break is due.
    pub open spec fn margin(self) -> Seq<u8> {
        if self.breaks {
            seq![LINE_FEED] + Seq::new(self.indent, |i: int| SPACE)
        } else {
            Seq::empty()
        }
    }

    /// The layout with one level of indentation more.
    pub open spec fn grown(self) -> Layout {
        Layout { breaks: self.breaks, indent: self.indent + self.step, step: self.step }
    }

    /// The layout with one level of indentation less, and none at the least.
    pub open spec fn shrunk(self) -> Layout {
        Layout {
            breaks: self.breaks,
            indent: if self.indent >= self.step {
                (self.indent - self.step) as nat
            } else {
                0
            },
            step: self.step,
        }
    }

    /// The layout with a line break due or not.
    pub open spec fn breaking(self, breaks: bool) -> Layout {
        Layout { breaks, indent: self.indent, step: self.step }
    }
}

/// What replaces a byte of text in a document: an entity for each of the
/// five special characters, the byte itself otherwise.
pub open spec fn escaped_byte(b: u8) -> Seq<u8> {
    if b == LESS {
        "&lt;".spec_bytes()
    } else if b == GREATER {
        "&gt;".spec_bytes()
    } else if b == APOSTROPHE {
        "&apos;".spec_bytes()
    } else if b == AMPERSAND {
        "&amp;".spec_bytes()
    } else if b == QUOTE {
        "&quot;".spec_bytes()
    } else {
        seq![b]
    }
}

/// Text with each byte escaped.
pub open spec fn escaped(s: Seq<u8>) -> Seq<u8>
    decreases s.len(),
{
    if s.len() == 0 {
        Seq::empty()
    } else {
        escaped(s.drop_last()) + escaped_byte(s.last())
    }
}

/// One attribute as it stands in a tag: a space, the key, and the escaped
/// value between double quotes.
pub open spec fn attribute_bytes(key: Seq<char>, value: Seq<char>) -> Seq<u8> {
    " ".spec_bytes() + encode_utf8(key) + "=\"".spec_bytes() + escaped(encode_utf8(value))
        + "\"".spec_bytes()
}

/// The attributes of a tag, in order.
pub open spec fn attributes_bytes(attributes: Seq<(Seq<char>, Seq<char>)>) -> Seq<u8>
    decreases attributes.len(),
{
    if attributes.len() == 0 {
        Seq::empty()
    } else {
        attributes_bytes(attributes.drop_last()) + attribute_bytes(
            attributes.last().0,
            attributes.last().1,
        )
    }
}

/// A tag between its angle brackets.
pub open spec fn tag_bytes(tag: TagView) -> Seq<u8> {
    encode_utf8(tag.name) + attributes_bytes(tag.attributes)
}

/// The bytes of an event without what stands before it.
pub open spec fn event_body(ev: XmlEventView) -> Seq<u8> {
    match ev {
        XmlEventView::Decl => "<?".spec_bytes() + "xml version=\"".spec_bytes()
            + "1.0".spec_bytes() + "\" encoding=\"".spec_bytes() + "UTF-8".spec_bytes()
            + "\"".spec_bytes() + "?>".spec_bytes(),
        XmlEventView::Start(t) => "<".spec_bytes() + tag_bytes(t) + ">".spec_bytes(),
        XmlEventView::End(n) => "</".spec_bytes() + encode_utf8(n) + ">".spec_bytes(),
        XmlEventView::Empty(t) => "<".spec_bytes() + tag_bytes(t) + "/>".spec_bytes(),
        XmlEventView::Text(s) => escaped(encode_utf8(s)),
    }
}

/// The bytes that a writer in layout `l` appends for an event. Text follows
/// what was written last; a tag begins after the margin; a closing tag stands
/// one level further out than the content that it closes.
pub open spec fn event_bytes(l: Layout, ev: XmlEventView) -> Seq<u8> {
    match ev {
        XmlEventView::Text(_) => event_body(ev),
        XmlEventView::End(_) => l.shrunk().margin() + event_body(ev),
        _ => l.margin() + event_body(ev),
    }
}

/// The layout of a writer after an event.
pub open spec fn layout_after(l: Layout, ev: XmlEventView) -> Layout {
    match ev {
        XmlEventView::Text(_) => l.breaking(false),
        XmlEventView::End(_) => l.shrunk().breaking(true),
        XmlEventView::Start(_) => l.grown().breaking(true),
        _ => l.breaking(true),
    }
}

/// `Writer::new_with_indent` on an empty buffer, with the space as the
/// indentation character: the writer has written nothing, indents by
/// `indent_size` spaces for each level, and starts without indentation and
/// without a line break due.
#[verifier::external_body]
fn new_writer(indent_size: usize) -> (w: DocumentWriter)
    ensures
        written(w) == Seq::<u8>::empty(),
        indents_with_spaces(w),
        !line_break_due(w),
        indent_width(w) == 0,
        indent_step(w) == indent_size,
{
    DocumentWriter { inner: Writer::new_with_indent(Vec::new(), b' ', indent_size) }
}

/// `Writer::inner`: lends the buffer with what was written. What the
/// borrower leaves in the buffer is what the writer has written from then
/// on; the layout of the writer is not touched.
#[verifier::external_body]
fn buffer_of(w: &mut DocumentWriter) -> (r: &mut Vec<u8>)
    ensures
        r@ == written(*old(w)),
        written(*final(w)) == final(r)@,
        indents_with_spaces(*final(w)) == indents_with_spaces(*old(w)),
        line_break_due(*final(w)) == line_break_due(*old(w)),
        indent_width(*final(w)) == indent_width(*old(w)),
        indent_step(*final(w)) == indent_step(*old(w)),
{
    w.inner.inner()
}

/// `Writer::into_inner`: hands out the buffer with what was written.
#[verifier::external_body]
fn into_bytes(w: DocumentWriter) -> (r: Vec<u8>)
    ensures
        r@ == written(w),
{
    w.inner.into_inner()
}

/// `BytesStart::owned_name`: an opening tag that holds the name and no
/// attribute.
#[verifier::external_body]
fn start_named(name: &str) -> (r: BytesStart<'static>)
    ensures
        start_content(r) == name.spec_bytes(),
{
    BytesStart::owned_name(name.as_bytes())
}

/// `BytesStart::push_attribute` with a key and a value given as text: the
/// tag grows by a space, the key, `="`, the escaped value, and `"`.
#[verifier::external_body]
fn push_attribute(start: &mut BytesStart<'static>, key: &str, value: &str)
    ensures
        start_content(*final(start)) == start_content(*old(start)) + attribute_bytes(
            key@,
            value@,
        ),
{
    start.push_attribute((key, value))
}

/// `BytesEnd::owned`: a closing tag that holds the name.
#[verifier::external_body]
fn end_named(name: &str) -> (r: BytesEnd<'static>)
    ensures
        end_content(r) == name.spec_bytes(),
{
    BytesEnd::owned(name.as_bytes().to_vec())
}

/// `BytesText::from_plain_str`: a text event that holds the escaped text.
#[verifier::external_body]
fn text_plain<'a>(content: &'a str) -> (r: BytesText<'a>)
    ensures
        text_content(r) == escaped(content.spec_bytes()),
{
    BytesText::from_plain_str(content)
}

/// `BytesDecl::new` with a version and an encoding and without a standalone
/// mark: the declaration reads `xml version="`, the version, `" encoding="`,
/// the encoding, and `"`.
#[verifier::external_body]
fn declaration(version: &str, encoding: &str) -> (r: BytesDecl<'static>)
    ensures
        decl_content(r) == "xml version=\"".spec_bytes() + version.spec_bytes()
            + "\" encoding=\"".spec_bytes() + encoding.spec_bytes() + "\"".spec_bytes(),
{
    BytesDecl::new(version.as_bytes(), Some(encoding.as_bytes()), None)
}

/// The bytes of an event of `quick_xml` without what stands before it.
pub open spec fn raw_event_body(ev: Event<'_>) -> Seq<u8> {
    match ev {
        Event::Start(e) => "<".spec_bytes() + start_content(e) + ">".spec_bytes(),
        Event::End(e) => "</".spec_bytes() + end_content(e) + ">".spec_bytes(),
        Event::Empty(e) => "<".spec_bytes() + start_content(e) + "/>".spec_bytes(),
        Event::Text(e) => text_content(e),
        Event::Decl(e) => "<?".spec_bytes() + decl_content(e) + "?>".spec_bytes(),
        _ => Seq::empty(),
    }
}

/// `Writer::write_event` for an opening, closing or empty tag, a text or a
/// declaration, on a writer that indents with spaces.
///
/// An opening tag adds a level of indentation after it is written, a
/// closing tag takes one off before it is written, and a line break is due
/// after anything but text. The buffer grows by the margin (not for text)
/// and the event between its delimiters. The write succeeds: the writer
/// fails only where its buffer refuses bytes, and its buffer here is a
/// vector, to which bytes are appended. The writer keeps its indentation in
/// a vector of bytes, so the indentation after an opening tag must not
/// exceed the length that a vector can have.
#[verifier::external_body]
fn write_event(w: &mut DocumentWriter, ev: Event<'_>) -> (r: Result<(), quick_xml::Error>)
    requires
        indents_with_spaces(*old(w)),
        ev is Start || ev is End || ev is Empty || ev is Text || ev is Decl,
        ev is Start ==> indent_width(*old(w)) + indent_step(*old(w)) <= isize::MAX,
    ensures
        indents_with_spaces(*final(w)),
        indent_step(*final(w)) == indent_step(*old(w)),
        line_break_due(*final(w)) == !(ev is Text),
        indent_width(*final(w)) == (match ev {
            Event::Start(_) => layout_of(*old(w)).grown().indent,
            Event::End(_) => layout_of(*old(w)).shrunk().indent,
            _ => indent_width(*old(w)),
        }),
        r is Ok,
        written(*final(w)) == written(*old(w)) + (match ev {
            Event::End(_) => layout_of(*old(w)).shrunk().margin(),
            Event::Text(_) => Seq::<u8>::empty(),
            _ => layout_of(*old(w)).margin(),
        }) + raw_event_body(ev),
{
    w.inner.write_event(ev)
}

/// The bytes that a writer in layout `l` appends for a list of events.
pub open spec fn rendered(l: Layout, events: Seq<XmlEventView>) -> Seq<u8>
    decreases events.len(),
{
    if events.len() == 0 {
        Seq::empty()
    } else {
        rendered(l, events.drop_last()) + event_bytes(
            layout_after_all(l, events.drop_last()),
            events.last(),
        )
    }
}

/// The layout of a writer after a list of events.
pub open spec fn layout_after_all(l: Layout, events: Seq<XmlEventView>) -> Layout
    decreases events.len(),
{
    if events.len() == 0 {
        l
    } else {
        layout_after(layout_after_all(l, events.drop_last()), events.last())
    }
}

/// Whether `events[k]` opens an element whose content would be indented by
/// more spaces than a vector of bytes can hold.
pub open spec fn overflows_at(l: Layout, events: Seq<XmlEventView>, k: int) -> bool {
    0 <= k < events.len() && events[k] is Start && layout_after_all(l, events.take(k)).indent
        + l.step > isize::MAX
}

/// Whether the content of some element that `events` open would be indented
/// by more spaces than a vector of bytes can hold, in a writer that starts
/// in layout `l`.
pub open spec fn too_deep(l: Layout, events: Seq<XmlEventView>) -> bool {
    exists|k: int| overflows_at(l, events, k)
}

/// Whether `events[k]` is the first event that cannot be written because
/// the indentation runs out.
pub open spec fn stops_at(l: Layout, events: Seq<XmlEventView>, k: int) -> bool {
    overflows_at(l, events, k) && forall|j: int| 0 <= j < k ==> !overflows_at(l, events, j)
}

/// The number of events that open an element.
pub open spec fn starts(events: Seq<XmlEventView>) -> nat
    decreases events.len(),
{
    if events.len() == 0 {
        0
    } else if events.last() is Start {
        starts(events.drop_last()) + 1
    } else {
        starts(events.drop_last())
    }
}

/// One event is one opening or none.
pub proof fn lemma_starts_one(ev: XmlEventView)
    ensures
        starts(seq![ev]) == if ev is Start {
            1nat
        } else {
            0nat
        },
        starts(Seq::<XmlEventView>::empty()) == 0,
{
    let one = seq![ev];
    assert(one.drop_last() =~= Seq::<XmlEventView>::empty());
    assert(one.last() == ev);
    assert(starts(one.drop_last()) == 0);
}

/// The openings of two lists in a row are those of the one and those of the
/// other.
pub proof fn lemma_starts_concat(a: Seq<XmlEventView>, b: Seq<XmlEventView>)
    ensures
        starts(a + b) == starts(a) + starts(b),
    decreases b.len(),
{
    if b.len() == 0 {
        assert(a + b =~= a);
    } else {
        assert((a + b).drop_last() =~= a + b.drop_last());
        assert((a + b).last() == b.last());
        lemma_starts_concat(a, b.drop_last());
    }
}

/// Events indent by one level at most for each element that they open.
pub proof fn lemma_indent_bound(l: Layout, events: Seq<XmlEventView>)
    ensures
        layout_after_all(l, events).step == l.step,
        layout_after_all(l, events).indent <= l.indent + starts(events) * l.step,
    decreases events.len(),
{
    if events.len() > 0 {
        let n = starts(events.drop_last());
        lemma_indent_bound(l, events.drop_last());
        assert((n + 1) * l.step == n * l.step + l.step) by (nonlinear_arith);
    } else {
        assert(0 * l.step == 0) by (nonlinear_arith);
    }
}

/// Events can be written where the indentation has room for one level for
/// each element that they open.
pub proof fn lemma_room_fits(l: Layout, events: Seq<XmlEventView>)
    requires
        l.indent + starts(events) * l.step <= isize::MAX,
    ensures
        !too_deep(l, events),
{
    assert forall|k: int| !overflows_at(l, events, k) by {
        if 0 <= k < events.len() && events[k] is Start {
            let before = events.take(k);
            let upto = events.take(k + 1);
            let after = events.skip(k + 1);
            lemma_indent_bound(l, before);
            assert(upto.drop_last() =~= before);
            assert(upto.last() == events[k]);
            assert(upto + after =~= events);
            lemma_starts_concat(upto, after);
            let n = starts(before);
            let m = starts(events);
            assert(n + 1 <= m);
            assert((n + 1) * l.step <= m * l.step) by (nonlinear_arith)
                requires
                    n + 1 <= m,
            ;
            assert((n + 1) * l.step == n * l.step + l.step) by (nonlinear_arith);
        }
    }
}

/// Events that open no element never run out of indentation.
pub proof fn lemma_no_start_fits(l: Layout, events: Seq<XmlEventView>)
    requires
        forall|i: int| 0 <= i < events.len() ==> !(#[trigger] events[i] is Start),
    ensures
        !too_deep(l, events),
{
}

/// Rendering two lists in a row is rendering the second in the layout that
/// the first leaves.
pub proof fn lemma_rendered_concat(l: Layout, a: Seq<XmlEventView>, b: Seq<XmlEventView>)
    ensures
        rendered(l, a + b) == rendered(l, a) + rendered(layout_after_all(l, a), b),
        layout_after_all(l, a + b) == layout_after_all(layout_after_all(l, a), b),
    decreases b.len(),
{
    if b.len() == 0 {
        assert(a + b =~= a);
        assert(rendered(l, a) + Seq::<u8>::empty() =~= rendered(l, a));
    } else {
        assert((a + b).drop_last() =~= a + b.drop_last());
        assert((a + b).last() == b.last());
        lemma_rendered_concat(l, a, b.drop_last());
        let m = layout_after_all(l, a);
        assert(rendered(l, a + b) =~= rendered(l, a) + (rendered(m, b.drop_last()) + event_bytes(
            layout_after_all(m, b.drop_last()),
            b.last(),
        )));
    }
}

/// Laying out events leaves the width of one level of indentation as it is.
pub proof fn lemma_layout_keeps_step(l: Layout, events: Seq<XmlEventView>)
    ensures
        layout_after_all(l, events).step == l.step,
    decreases events.len(),
{
    if events.len() > 0 {
        lemma_layout_keeps_step(l, events.drop_last());
    }
}

/// The opening tag of `quick_xml` for a tag of this library.
fn to_start(tag: &Tag) -> (r: BytesStart<'static>)
    ensures
        start_content(r) == tag_bytes(tag@),
{
    let mut start = start_named(tag.name.as_str());
    let mut i: usize = 0;
    assert(tag@.attributes.take(0) =~= Seq::empty());
    while i < tag.attributes.len()
        invariant
            i <= tag.attributes.len(),
            start_content(start) == encode_utf8(tag@.name) + attributes_bytes(
                tag@.attributes.take(i as int),
            ),
        decreases tag.attributes.len() - i,
    {
        push_attribute(&mut start, tag.attributes[i].0.as_str(), tag.attributes[i].1.as_str());
        proof {
            let a = tag@.attributes.take(i + 1);
            assert(a.drop_last() =~= tag@.attributes.take(i as int));
            assert(a.last() == tag@.attributes[i as int]);
            assert(start_content(start) =~= encode_utf8(tag@.name) + attributes_bytes(a));
        }
        i += 1;
    }
    assert(tag@.attributes.take(i as int) =~= tag@.attributes);
    start
}

/// Has the writer write one event of this library: the event is put in
/// the terms of `quick_xml` and handed over.
#[verifier::rlimit(40)]
fn send(w: &mut DocumentWriter, event: &XmlEvent) -> (r: Result<(), quick_xml::Error>)
    requires
        indents_with_spaces(*old(w)),
        event@ is Start ==> indent_width(*old(w)) + indent_step(*old(w)) <= isize::MAX,
    ensures
        indents_with_spaces(*final(w)),
        layout_of(*final(w)) == layout_after(layout_of(*old(w)), event@),
        r is Ok,
        written(*final(w)) == written(*old(w)) + event_bytes(layout_of(*old(w)), event@),
{
    match event {
        XmlEvent::Decl => write_event(w, Event::Decl(declaration("1.0", "UTF-8"))),
        XmlEvent::Start(tag) => write_event(w, Event::Start(to_start(tag))),
        XmlEvent::End(name) => write_event(w, Event::End(end_named(name.as_str()))),
        XmlEvent::Empty(tag) => write_event(w, Event::Empty(to_start(tag))),
        XmlEvent::Text(text) => write_event(w, Event::Text(text_plain(text.as_str()))),
    }
}

/// A document under construction: the writer with what it has written, and
/// the width of its indentation.
pub struct Document {
    writer: DocumentWriter,
    indent: usize,
    step: usize,
    taken: Ghost<Seq<u8>>,
}

impl Document {
    /// The writer indents with spaces, and the two widths that are kept
    /// beside it are its own.
    pub closed spec fn wf(&self) -> bool {
        &&& indents_with_spaces(self.writer)
        &&& self.indent <= isize::MAX
        &&& self.indent == indent_width(self.writer)
        &&& self.step == indent_step(self.writer)
    }

    /// The bytes written so far, from the start of the document.
    pub closed spec fn written(&self) -> Seq<u8> {
        self.taken@ + written(self.writer)
    }

    /// The bytes that were handed out: what was written up to the last
    /// `take`.
    pub closed spec fn taken(&self) -> Seq<u8> {
        self.taken@
    }

    /// How the next tag is laid out.
    pub closed spec fn layout(&self) -> Layout {
        layout_of(self.writer)
    }

    /// The widths of a document's indentation fit a `usize`.
    pub proof fn lemma_widths_fit(&self)
        requires
            self.wf(),
        ensures
            self.layout().indent <= isize::MAX,
            self.layout().step <= usize::MAX,
    {
    }

    /// An empty document whose nested elements are indented by `step` spaces.
    pub fn new(step: usize) -> (r: Document)
        ensures
            r.wf(),
            r.written() == Seq::<u8>::empty(),
            r.taken() == Seq::<u8>::empty(),
            r.layout() == Layout::initial(step as nat),
    {
        let r = Document { writer: new_writer(step), indent: 0, step, taken: Ghost(Seq::empty()) };
        assert(r.written() =~= Seq::empty());
        r
    }

    /// Hands out what was written since the last `take`: the bytes are
    /// moved behind those that `out` holds.
    pub fn take(&mut self, out: &mut Vec<u8>)
        requires
            old(self).wf(),
        ensures
            final(self).wf(),
            final(self).written() == old(self).written(),
            final(self).layout() == old(self).layout(),
            final(self).taken() == old(self).written(),
            old(self).taken() + (final(out)@.skip(old(out)@.len() as int)) == old(self).written(),
            final(out)@.take(old(out)@.len() as int) == old(out)@,
            final(out)@.len() >= old(out)@.len(),
    {
        let ghost pending = written(self.writer);
        let buffer = buffer_of(&mut self.writer);
        out.append(buffer);
        proof {
            self.taken@ = self.taken@ + pending;
            assert(out@.skip(old(out)@.len() as int) =~= pending);
            assert(out@.take(old(out)@.len() as int) =~= old(out)@);
            assert(self.taken@ + written(self.writer) =~= old(self).written());
            assert(self.taken@ =~= old(self).written());
        }
    }

    /// Whether a list of events can be written: whether none of them opens
    /// an element whose content would be indented by more than `isize::MAX`
    /// spaces.
    pub fn fits(&self, events: &Vec<XmlEvent>) -> (r: bool)
        requires
            self.wf(),
        ensures
            r == !too_deep(self.layout(), events_view(events@)),
    {
        let ghost l = self.layout();
        let ghost all = events_view(events@);
        let mut indent: usize = self.indent;
        let mut i: usize = 0;
        assert(all.take(0) =~= Seq::empty());
        while i < events.len()
            invariant
                i <= events.len(),
                self.wf(),
                l == self.layout(),
                all == events_view(events@),
                indent <= isize::MAX,
                indent == layout_after_all(l, all.take(i as int)).indent,
                forall|k: int| 0 <= k < i ==> !overflows_at(l, all, k),
            decreases events.len() - i,
        {
            proof {
                lemma_layout_keeps_step(l, all.take(i as int));
                let a = all.take(i + 1);
                assert(a.drop_last() =~= all.take(i as int));
                assert(a.last() == events[i as int]@);
            }
            match &events[i] {
                XmlEvent::Start(_) => {
                    if self.step > isize::MAX as usize - indent {
                        assert(overflows_at(l, all, i as int));
                        return false;
                    }
                    indent = indent + self.step;
                },
                XmlEvent::End(_) => {
                    indent = if indent >= self.step {
                        indent - self.step
                    } else {
                        0
                    };
                },
                _ => {},
            }
            i += 1;
        }
        true
    }

    /// Writes one event. Fails with `TooDeep`, and changes nothing, exactly
    /// where the event opens an element whose content would be indented by
    /// more than `isize::MAX` spaces.
    pub fn write(&mut self, event: &XmlEvent) -> (r: Result<(), FormatError>)
        requires
            old(self).wf(),
        ensures
            final(self).wf(),
            final(self).taken() == old(self).taken(),
            r is Ok <==> !(event@ is Start && old(self).layout().indent + old(
                self,
            ).layout().step > isize::MAX),
            match r {
                Ok(()) => {
                    &&& final(self).written() == old(self).written() + event_bytes(
                        old(self).layout(),
                        event@,
                    )
                    &&& final(self).layout() == layout_after(old(self).layout(), event@)
                },
                Err(e) => {
                    &&& e is TooDeep
                    &&& final(self).written() == old(self).written()
                    &&& final(self).layout() == old(self).layout()
                },
            },
    {
        match event {
            XmlEvent::Start(_) => {
                if self.step > isize::MAX as usize - self.indent {
                    return Err(FormatError::TooDeep);
                }
                self.indent = self.indent + self.step;
            },
            XmlEvent::End(_) => {
                self.indent = if self.indent >= self.step {
                    self.indent - self.step
                } else {
                    0
                };
            },
            _ => {},
        }
        let done = send(&mut self.writer, event);
        proof {
            assert(self.taken@ + (written(old(self).writer) + event_bytes(
                layout_of(old(self).writer),
                event@,
            )) =~= old(self).written() + event_bytes(old(self).layout(), event@));
        }
        match done {
            Ok(()) => Ok(()),
            Err(e) => Err(FormatError::Write(e)),
        }
    }

    /// Writes a list of events in order, up to the first that cannot be
    /// written because the indentation runs out. All are written, and the
    /// result is `Ok`, exactly where none is too deep.
    pub fn write_all(&mut self, events: &Vec<XmlEvent>) -> (r: Result<(), FormatError>)
        requires
            old(self).wf(),
        ensures
            final(self).wf(),
            final(self).taken() == old(self).taken(),
            r is Ok <==> !too_deep(old(self).layout(), events_view(events@)),
            match r {
                Ok(()) => {
                    &&& final(self).written() == old(self).written() + rendered(
                        old(self).layout(),
                        events_view(events@),
                    )
                    &&& final(self).layout() == layout_after_all(
                        old(self).layout(),
                        events_view(events@),
                    )
                },
                Err(e) => {
                    &&& e is TooDeep
                    &&& exists|k: int|
                        {
                            &&& #[trigger] stops_at(old(self).layout(), events_view(events@), k)
                            &&& final(self).written() == old(self).written() + rendered(
                                old(self).layout(),
                                events_view(events@).take(k),
                            )
                            &&& final(self).layout() == layout_after_all(
                                old(self).layout(),
                                events_view(events@).take(k),
                            )
                        }
                },
            },
    {
        let ghost all = events_view(events@);
        let ghost l = old(self).layout();
        let mut i: usize = 0;
        assert(all.take(0) =~= Seq::empty());
        assert(old(self).written() + rendered(l, all.take(0)) =~= old(self).written());
        while i < events.len()
            invariant
                i <= events.len(),
                all == events_view(events@),
                l == old(self).layout(),
                self.wf(),
                self.taken() == old(self).taken(),
                self.written() == old(self).written() + rendered(l, all.take(i as int)),
                self.layout() == layout_after_all(l, all.take(i as int)),
                forall|k: int| 0 <= k < i ==> !overflows_at(l, all, k),
            decreases events.len() - i,
        {
            proof {
                lemma_layout_keeps_step(l, all.take(i as int));
            }
            match self.write(&events[i]) {
                Ok(()) => {},
                Err(e) => {
                    assert(stops_at(l, all, i as int));
                    return Err(e);
                },
            }
            proof {
                let a = all.take(i + 1);
                assert(a.drop_last() =~= all.take(i as int));
                assert(a.last() == events[i as int]@);
                assert(self.written() =~= old(self).written() + rendered(l, a));
            }
            i += 1;
        }
        assert(all.take(i as int) =~= all);
        Ok(())
    }

    /// The bytes of the document that were not handed out before.
    pub fn into_bytes(self) -> (r: Vec<u8>)
        ensures
            self.taken() + r@ == self.written(),
    {
        into_bytes(self.writer)
    }
}

} // verus!
