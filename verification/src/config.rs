//! The configuration of the serializer and its table of namespace prefixes.

use vstd::prelude::*;

verus! {

/// The prefix that the first entry at or after index `i` binds to the
/// namespace `ns`, if there is such an entry.
pub open spec fn lookup_from(
    entries: Seq<(Seq<char>, Seq<char>)>,
    ns: Seq<char>,
    i: int,
) -> Option<Seq<char>>
    decreases entries.len() - i,
{
    if i < 0 || i >= entries.len() {
        None
    } else if entries[i].0 == ns {
        Some(entries[i].1)
    } else {
        lookup_from(entries, ns, i + 1)
    }
}

/// The prefix that `entries` binds to the namespace `ns`.
pub open spec fn lookup(entries: Seq<(Seq<char>, Seq<char>)>, ns: Seq<char>) -> Option<
    Seq<char>,
> {
    lookup_from(entries, ns, 0)
}

/// No namespace is bound twice.
pub open spec fn distinct_namespaces(entries: Seq<(Seq<char>, Seq<char>)>) -> bool {
    forall|i: int, j: int|
        0 <= i < j < entries.len() ==> (#[trigger] entries[i]).0 != (#[trigger] entries[j]).0
}

/// The entries after `ns` was bound to `prefix`: the entry of `ns` is
/// replaced where there is one, and a new entry stands last otherwise.
pub open spec fn bound(
    entries: Seq<(Seq<char>, Seq<char>)>,
    ns: Seq<char>,
    prefix: Seq<char>,
) -> Seq<(Seq<char>, Seq<char>)>
    decreases entries.len(),
{
    if entries.len() == 0 {
        seq![(ns, prefix)]
    } else if entries[0].0 == ns {
        seq![(ns, prefix)] + entries.skip(1)
    } else {
        seq![entries[0]] + bound(entries.skip(1), ns, prefix)
    }
}

/// The model of a list of entries.
pub open spec fn pairs(entries: Seq<(String, String)>) -> Seq<(Seq<char>, Seq<char>)> {
    Seq::new(entries.len(), |i: int| (entries[i].0@, entries[i].1@))
}

/// A table from namespaces to prefixes that keeps its entries in the order
/// in which their namespaces were first bound. It is a vector and no hash
/// map: of a hash map with strings for keys nothing can be proved, since
/// vstd gives strings no model as keys.
#[derive(Debug, PartialEq, Eq)]
pub struct PrefixMap {
    entries: Vec<(String, String)>,
}

impl PrefixMap {
    /// The namespaces with their prefixes, in order.
    pub closed spec fn entries(&self) -> Seq<(Seq<char>, Seq<char>)> {
        pairs(self.entries@)
    }

    /// No table binds a namespace twice.
    #[verifier::type_invariant]
    spec fn bound_once(&self) -> bool {
        distinct_namespaces(self.entries())
    }

    /// A table without entries.
    pub fn new() -> (r: PrefixMap)
        ensures
            r.entries() == Seq::<(Seq<char>, Seq<char>)>::empty(),
            distinct_namespaces(r.entries()),
    {
        assert(pairs(Seq::<(String, String)>::empty()) =~= Seq::empty());
        let r = PrefixMap { entries: Vec::new() };
        assert(r.entries() =~= Seq::empty());
        r
    }

    /// The number of namespaces that are bound, each of them once.
    pub fn len(&self) -> (r: usize)
        ensures
            r == self.entries().len(),
            distinct_namespaces(self.entries()),
    {
        proof {
            use_type_invariant(self);
        }
        self.entries.len()
    }

    /// The namespace of the entry at `index`.
    pub fn namespace_at(&self, index: usize) -> (r: &str)
        requires
            index < self.entries().len(),
        ensures
            r@ == self.entries()[index as int].0,
    {
        self.entries[index].0.as_str()
    }

    /// The prefix of the entry at `index`.
    pub fn prefix_at(&self, index: usize) -> (r: &str)
        requires
            index < self.entries().len(),
        ensures
            r@ == self.entries()[index as int].1,
    {
        self.entries[index].1.as_str()
    }

    /// The prefix that is bound to `namespace`, if any.
    pub fn get(&self, namespace: &str) -> (r: Option<&str>)
        ensures
            match r {
                Some(p) => lookup(self.entries(), namespace@) == Some(p@),
                None => lookup(self.entries(), namespace@).is_none(),
            },
    {
        let mut i: usize = 0;
        while i < self.entries.len()
            invariant
                i <= self.entries.len(),
                lookup(self.entries(), namespace@) == lookup_from(
                    self.entries(),
                    namespace@,
                    i as int,
                ),
            decreases self.entries.len() - i,
        {
            if str_eq(self.entries[i].0.as_str(), namespace) {
                return Some(self.entries[i].1.as_str());
            }
            i += 1;
        }
        None
    }

    /// Binds `namespace` to `prefix`. A namespace that was bound keeps its
    /// place and gets the new prefix.
    pub fn insert(&mut self, namespace: String, prefix: String)
        ensures
            final(self).entries() == bound(old(self).entries(), namespace@, prefix@),
            distinct_namespaces(final(self).entries()),
    {
        proof {
            use_type_invariant(&*self);
            lemma_bound_distinct(self.entries(), namespace@, prefix@);
        }
        let ghost before = self.entries();
        let ghost ns = namespace@;
        let ghost px = prefix@;
        let mut entries: Vec<(String, String)> = Vec::new();
        assert(pairs(entries@) =~= Seq::empty());
        std::mem::swap(&mut self.entries, &mut entries);
        let mut i: usize = 0;
        assert(before.skip(0) =~= before);
        assert(before.take(0) + bound(before, ns, px) =~= bound(before, ns, px));
        while i < entries.len() && !str_eq(entries[i].0.as_str(), namespace.as_str())
            invariant
                i <= entries.len(),
                pairs(entries@) == before,
                ns == namespace@,
                px == prefix@,
                bound(before, ns, px) == before.take(i as int) + bound(
                    before.skip(i as int),
                    ns,
                    px,
                ),
            decreases entries.len() - i,
        {
            let ghost rest = before.skip(i as int);
            assert(rest[0] == before[i as int]);
            assert(rest.skip(1) =~= before.skip(i + 1));
            assert(before.take(i + 1) + bound(before.skip(i + 1), ns, px) =~= before.take(
                i as int,
            ) + (seq![rest[0]] + bound(rest.skip(1), ns, px)));
            i += 1;
        }
        if i < entries.len() {
            let ghost rest = before.skip(i as int);
            assert(rest[0] == before[i as int]);
            assert(bound(rest, ns, px) == seq![(ns, px)] + rest.skip(1));
            entries.set(i, (namespace, prefix));
            assert(pairs(entries@) =~= before.take(i as int) + (seq![(ns, px)] + rest.skip(1)));
        } else {
            assert(before.take(i as int) =~= before);
            assert(before.skip(i as int) =~= Seq::empty());
            entries.push((namespace, prefix));
            assert(pairs(entries@) =~= before + seq![(ns, px)]);
        }
        self.entries = entries;
    }
}

impl Clone for PrefixMap {
    fn clone(&self) -> (r: Self)
        ensures
            r.entries() == self.entries(),
            distinct_namespaces(r.entries()),
    {
        proof {
            use_type_invariant(self);
        }
        let mut entries: Vec<(String, String)> = Vec::new();
        let mut i: usize = 0;
        while i < self.entries.len()
            invariant
                i <= self.entries.len(),
                entries.len() == i,
                forall|k: int|
                    0 <= k < i ==> (#[trigger] entries[k]).0@ == self.entries[k].0@
                        && entries[k].1@ == self.entries[k].1@,
            decreases self.entries.len() - i,
        {
            entries.push((self.entries[i].0.clone(), self.entries[i].1.clone()));
            i += 1;
        }
        assert(pairs(entries@) =~= self.entries());
        PrefixMap { entries }
    }
}

/// Whether two strings spell the same text.
pub fn str_eq(a: &str, b: &str) -> (r: bool)
    ensures
        r == (a@ == b@),
{
    let x: String = a.to_owned();
    let y: String = b.to_owned();
    x == y
}

/// Binding a namespace makes it resolve to the new prefix and leaves the
/// prefix of every other namespace as it was.
pub proof fn lemma_bound_lookup(
    entries: Seq<(Seq<char>, Seq<char>)>,
    ns: Seq<char>,
    prefix: Seq<char>,
    other: Seq<char>,
)
    ensures
        lookup(bound(entries, ns, prefix), ns) == Some(prefix),
        other != ns ==> lookup(bound(entries, ns, prefix), other) == lookup(entries, other),
    decreases entries.len(),
{
    let b = bound(entries, ns, prefix);
    lemma_lookup_unfold(b, ns);
    lemma_lookup_unfold(b, other);
    lemma_lookup_unfold(entries, other);
    if entries.len() == 0 {
    } else if entries[0].0 == ns {
        assert(b.skip(1) =~= entries.skip(1));
    } else {
        lemma_bound_lookup(entries.skip(1), ns, prefix, other);
        assert(b.skip(1) =~= bound(entries.skip(1), ns, prefix));
    }
}

/// Binding a namespace keeps the table free of namespaces bound twice.
pub proof fn lemma_bound_distinct(
    entries: Seq<(Seq<char>, Seq<char>)>,
    ns: Seq<char>,
    prefix: Seq<char>,
)
    requires
        distinct_namespaces(entries),
    ensures
        distinct_namespaces(bound(entries, ns, prefix)),
        bound(entries, ns, prefix).len() >= entries.len(),
        forall|i: int|
            0 <= i < entries.len() ==> (#[trigger] bound(entries, ns, prefix)[i]).0 == entries[i].0,
        forall|i: int|
            entries.len() <= i < bound(entries, ns, prefix).len() ==> (#[trigger] bound(
                entries,
                ns,
                prefix,
            )[i]).0 == ns && forall|j: int| 0 <= j < entries.len() ==> entries[j].0 != ns,
    decreases entries.len(),
{
    let b = bound(entries, ns, prefix);
    if entries.len() == 0 {
    } else if entries[0].0 == ns {
        assert(b =~= seq![(ns, prefix)] + entries.skip(1));
    } else {
        let rest = entries.skip(1);
        assert(distinct_namespaces(rest)) by {
            assert forall|i: int, j: int| 0 <= i < j < rest.len() implies (#[trigger] rest[i]).0
                != (#[trigger] rest[j]).0 by {
                assert(rest[i] == entries[i + 1] && rest[j] == entries[j + 1]);
            }
        }
        lemma_bound_distinct(rest, ns, prefix);
        let br = bound(rest, ns, prefix);
        assert(b =~= seq![entries[0]] + br);
        assert forall|i: int| 0 <= i < entries.len() implies (#[trigger] b[i]).0
            == entries[i].0 by {
            if i > 0 {
                assert(b[i] == br[i - 1]);
                assert(rest[i - 1] == entries[i]);
            }
        }
        assert forall|i: int| entries.len() <= i < b.len() implies (#[trigger] b[i]).0 == ns
            && forall|j: int| 0 <= j < entries.len() ==> entries[j].0 != ns by {
            assert(b[i] == br[i - 1]);
            assert forall|j: int| 0 <= j < entries.len() implies entries[j].0 != ns by {
                if j > 0 {
                    assert(rest[j - 1] == entries[j]);
                }
            }
        }
        assert forall|i: int, j: int| 0 <= i < j < b.len() implies (#[trigger] b[i]).0 != (
        #[trigger] b[j]).0 by {
            assert(b[j] == br[j - 1]);
            if i > 0 {
                assert(b[i] == br[i - 1]);
            } else {
                if j - 1 < rest.len() {
                    assert(br[j - 1].0 == rest[j - 1].0);
                    assert(rest[j - 1] == entries[j]);
                }
            }
        }
    }
}

proof fn lemma_lookup_unfold(entries: Seq<(Seq<char>, Seq<char>)>, ns: Seq<char>)
    ensures
        lookup(entries, ns) == if entries.len() == 0 {
            None
        } else if entries[0].0 == ns {
            Some(entries[0].1)
        } else {
            lookup(entries.skip(1), ns)
        },
{
    if entries.len() > 0 && entries[0].0 != ns {
        lemma_lookup_shift(entries, ns, 1);
    }
}

proof fn lemma_lookup_shift(entries: Seq<(Seq<char>, Seq<char>)>, ns: Seq<char>, i: int)
    requires
        1 <= i <= entries.len(),
    ensures
        lookup_from(entries, ns, i) == lookup_from(entries.skip(1), ns, i - 1),
    decreases entries.len() - i,
{
    if i < entries.len() {
        assert(entries.skip(1)[i - 1] == entries[i]);
        lemma_lookup_shift(entries, ns, i + 1);
    }
}

/// How a document is laid out and abbreviated.
#[derive(Debug)]
pub struct AbbrevRdfXmlFormatterConfig {
    /// Reserved for the contraction of blank nodes; not consulted.
    pub bnode_contract: bool,
    /// The number of spaces by which a nested element is indented.
    pub indentation: usize,
    /// The prefixes by which namespaces are abbreviated.
    pub prefix: PrefixMap,
    /// Reserved for switching typed elements off; not consulted.
    pub typed_node: bool,
}

impl AbbrevRdfXmlFormatterConfig {
    /// The configuration without indentation and without prefixes.
    pub fn new() -> (r: Self)
        ensures
            !r.bnode_contract,
            r.indentation == 0,
            r.prefix.entries() == Seq::<(Seq<char>, Seq<char>)>::empty(),
            !r.typed_node,
    {
        AbbrevRdfXmlFormatterConfig {
            bnode_contract: false,
            indentation: 0,
            prefix: PrefixMap::new(),
            typed_node: false,
        }
    }
}

impl Default for AbbrevRdfXmlFormatterConfig {
    fn default() -> (r: Self)
        ensures
            !r.bnode_contract,
            r.indentation == 0,
            r.prefix.entries() == Seq::<(Seq<char>, Seq<char>)>::empty(),
            !r.typed_node,
    {
        AbbrevRdfXmlFormatterConfig::new()
    }
}

impl Clone for AbbrevRdfXmlFormatterConfig {
    fn clone(&self) -> (r: Self)
        ensures
            r.bnode_contract == self.bnode_contract,
            r.indentation == self.indentation,
            r.prefix.entries() == self.prefix.entries(),
            r.typed_node == self.typed_node,
    {
        AbbrevRdfXmlFormatterConfig {
            bnode_contract: self.bnode_contract,
            indentation: self.indentation,
            prefix: self.prefix.clone(),
            typed_node: self.typed_node,
        }
    }
}

} // verus!
