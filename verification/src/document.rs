//! The structured document: an ordered tree of scalars, sequences and
//! mappings that holds a configuration file without a fixed schema.
use vstd::prelude::*;

verus! {

/// The mathematical content of an [`Element`].
pub ghost enum Node {
    Null,
    Bool(bool),
    Number(Seq<char>),
    Real(Seq<char>),
    Str(Seq<char>),
    List(Seq<Node>),
    Dict(Seq<(Node, Node)>),
}

/// One value of a structured document. A number is held by its notation:
/// an integer as `Number`, a number with a fraction or an exponent, an
/// infinity or a not-a-number as `Real`.
#[derive(Debug, PartialEq, Eq)]
pub enum Element {
    Null,
    Bool(bool),
    Number(String),
    Real(String),
    Str(String),
    Sequence(Vec<Element>),
    Mapping(Document),
}

/// One key of a mapping with its value.
#[derive(Debug, PartialEq, Eq)]
pub struct Entry {
    pub key: Element,
    pub value: Element,
}

/// An ordered mapping from keys to values. A key is looked up by its first
/// entry; entries are written out in the order in which they were inserted.
#[derive(Debug, PartialEq, Eq)]
pub struct Document {
    pub entries: Vec<Entry>,
}

/// The content of `v`.
pub open spec fn node_of(v: Element) -> Node
    decreases v,
{
    match v {
        Element::Null => Node::Null,
        Element::Bool(b) => Node::Bool(b),
        Element::Number(t) => Node::Number(t@),
        Element::Real(t) => Node::Real(t@),
        Element::Str(s) => Node::Str(s@),
        Element::Sequence(items) => Node::List(nodes_of(items)),
        Element::Mapping(doc) => Node::Dict(pairs_of(doc.entries)),
    }
}

/// The contents of `items`, in order.
pub open spec fn nodes_of(items: Vec<Element>) -> Seq<Node>
    decreases items,
{
    Seq::new(
        items.len() as nat,
        |i: int|
            if 0 <= i < items.len() {
                node_of(items[i])
            } else {
                Node::Null
            },
    )
}

/// The keys and values of `entries`, in order.
pub open spec fn pairs_of(entries: Vec<Entry>) -> Seq<(Node, Node)>
    decreases entries,
{
    Seq::new(
        entries.len() as nat,
        |i: int|
            if 0 <= i < entries.len() {
                (node_of(entries[i].key), node_of(entries[i].value))
            } else {
                (Node::Null, Node::Null)
            },
    )
}

impl View for Element {
    type V = Node;

    open spec fn view(&self) -> Node {
        node_of(*self)
    }
}

impl View for Document {
    type V = Seq<(Node, Node)>;

    open spec fn view(&self) -> Seq<(Node, Node)> {
        pairs_of(self.entries)
    }
}

/// The index of the first entry at or after `from` whose key is `key`, or the
/// number of entries where there is none.
pub open spec fn index_of(entries: Seq<(Node, Node)>, key: Node, from: int) -> int
    decreases entries.len() - from,
{
    if from < 0 || from >= entries.len() {
        entries.len() as int
    } else if entries[from].0 == key {
        from
    } else {
        index_of(entries, key, from + 1)
    }
}

/// Whether `entries` holds `key`.
pub open spec fn has_key(entries: Seq<(Node, Node)>, key: Node) -> bool {
    index_of(entries, key, 0) < entries.len()
}

/// The value under `key`, that of its first entry.
pub open spec fn value_of(entries: Seq<(Node, Node)>, key: Node) -> Option<Node> {
    let i = index_of(entries, key, 0);
    if i < entries.len() {
        Some(entries[i].1)
    } else {
        None
    }
}

/// `entries` with `value` under `key`: in the place of the first entry of
/// that key, or at the end where there is none.
pub open spec fn with_entry(entries: Seq<(Node, Node)>, key: Node, value: Node) -> Seq<
    (Node, Node),
> {
    let i = index_of(entries, key, 0);
    if i < entries.len() {
        entries.update(i, (key, value))
    } else {
        entries.push((key, value))
    }
}

/// The value that the names `path[depth..]` lead to, one nested mapping for
/// each name but the last. The empty path leads nowhere.
pub open spec fn value_at(entries: Seq<(Node, Node)>, path: Seq<Seq<char>>, depth: int) -> Option<
    Node,
>
    decreases path.len() - depth,
{
    if depth < 0 || depth >= path.len() {
        None
    } else {
        match value_of(entries, Node::Str(path[depth])) {
            None => None,
            Some(found) => if depth + 1 == path.len() {
                Some(found)
            } else {
                match found {
                    Node::Dict(inner) => value_at(inner, path, depth + 1),
                    _ => None,
                }
            },
        }
    }
}

/// The names of `path` as character sequences.
pub open spec fn names_of(path: Vec<String>) -> Seq<Seq<char>> {
    Seq::new(path.len() as nat, |i: int| path[i]@)
}

/// No two entries of `entries` have the same key.
pub open spec fn distinct_keys(entries: Seq<(Node, Node)>) -> bool {
    forall|i: int, j: int|
        0 <= i < j < entries.len() ==> (#[trigger] entries[i]).0 != (#[trigger] entries[j]).0
}

/// Whether `n` keeps the invariant of documents: in every mapping in it, at
/// whatever depth, no two entries have the same key.
pub open spec fn well_formed(n: Node) -> bool
    decreases n,
{
    match n {
        Node::List(items) => items_well_formed(items, items.len() as int),
        Node::Dict(entries) => distinct_keys(entries) && entries_well_formed(
            entries,
            entries.len() as int,
        ),
        _ => true,
    }
}

/// Whether the first `n` of `items` are well formed.
pub open spec fn items_well_formed(items: Seq<Node>, n: int) -> bool
    decreases items, n,
{
    if n <= 0 || n > items.len() {
        true
    } else {
        items_well_formed(items, n - 1) && well_formed(items[n - 1])
    }
}

/// Whether the keys and values of the first `n` of `entries` are well formed.
pub open spec fn entries_well_formed(entries: Seq<(Node, Node)>, n: int) -> bool
    decreases entries, n,
{
    if n <= 0 || n > entries.len() {
        true
    } else {
        entries_well_formed(entries, n - 1) && well_formed(entries[n - 1].0) && well_formed(
            entries[n - 1].1,
        )
    }
}

/// The first `n` items are well formed exactly when each of them is.
pub proof fn lemma_items_well_formed(items: Seq<Node>, n: int)
    requires
        0 <= n <= items.len(),
    ensures
        items_well_formed(items, n) <==> forall|i: int|
            0 <= i < n ==> well_formed(#[trigger] items[i]),
    decreases n,
{
    if n > 0 {
        lemma_items_well_formed(items, n - 1);
    }
}

/// The first `n` entries are well formed exactly when the key and the value
/// of each of them are.
pub proof fn lemma_entries_well_formed(entries: Seq<(Node, Node)>, n: int)
    requires
        0 <= n <= entries.len(),
    ensures
        entries_well_formed(entries, n) <==> forall|i: int|
            0 <= i < n ==> well_formed((#[trigger] entries[i]).0) && well_formed(entries[i].1),
    decreases n,
{
    if n > 0 {
        lemma_entries_well_formed(entries, n - 1);
    }
}

/// A sequence is well formed exactly when each of its items is.
pub proof fn lemma_well_formed_list(items: Seq<Node>)
    ensures
        well_formed(Node::List(items)) <==> forall|i: int|
            0 <= i < items.len() ==> well_formed(#[trigger] items[i]),
{
    lemma_items_well_formed(items, items.len() as int);
}

/// A mapping is well formed exactly when its keys are distinct and the key
/// and the value of each entry are well formed.
pub proof fn lemma_well_formed_dict(entries: Seq<(Node, Node)>)
    ensures
        well_formed(Node::Dict(entries)) <==> distinct_keys(entries) && forall|i: int|
            0 <= i < entries.len() ==> well_formed((#[trigger] entries[i]).0) && well_formed(
                entries[i].1,
            ),
{
    lemma_entries_well_formed(entries, entries.len() as int);
}

/// Putting a well-formed value under a key of a well-formed mapping leaves
/// the mapping well formed.
pub proof fn lemma_with_entry_well_formed(entries: Seq<(Node, Node)>, key: Node, value: Node)
    requires
        well_formed(Node::Dict(entries)),
        well_formed(key),
        well_formed(value),
    ensures
        well_formed(Node::Dict(with_entry(entries, key, value))),
{
    lemma_index_of(entries, key, 0);
    let after = with_entry(entries, key, value);
    let i = index_of(entries, key, 0);
    lemma_well_formed_dict(entries);
    lemma_well_formed_dict(after);
    assert forall|a: int, b: int| 0 <= a < b < after.len() implies (#[trigger] after[a]).0 != (
    #[trigger] after[b]).0 by {
        if a < entries.len() {
            assert(after[a].0 == entries[a].0);
        }
        if b < entries.len() {
            assert(after[b].0 == entries[b].0);
        }
    }
    assert forall|a: int| 0 <= a < after.len() implies well_formed((#[trigger] after[a]).0)
        && well_formed(after[a].1) by {
        if a != i {
            assert(after[a] == entries[a]);
        }
    }
}

/// What [`index_of`] returns: it lies between `from` and the length, the key
/// is found there, and nowhere between `from` and there.
pub proof fn lemma_index_of(entries: Seq<(Node, Node)>, key: Node, from: int)
    requires
        0 <= from <= entries.len(),
    ensures
        from <= index_of(entries, key, from) <= entries.len(),
        index_of(entries, key, from) < entries.len() ==> entries[index_of(entries, key, from)].0
            == key,
        forall|j: int| from <= j < index_of(entries, key, from) ==> (#[trigger] entries[j]).0 != key,
    decreases entries.len() - from,
{
    if from < entries.len() && entries[from].0 != key {
        lemma_index_of(entries, key, from + 1);
    }
}

/// An entry with the key at `at`, and none before it, is the one
/// [`index_of`] finds.
pub proof fn lemma_index_of_is(entries: Seq<(Node, Node)>, key: Node, from: int, at: int)
    requires
        0 <= from <= at <= entries.len(),
        at < entries.len() ==> entries[at].0 == key,
        forall|j: int| from <= j < at ==> (#[trigger] entries[j]).0 != key,
    ensures
        index_of(entries, key, from) == at,
    decreases at - from,
{
    if from < at {
        lemma_index_of_is(entries, key, from + 1, at);
    }
}

/// The index, among `entries`, of the first one whose key is the string
/// `name`; the number of entries where there is none.
pub fn position(entries: &Vec<Entry>, name: &str) -> (i: usize)
    ensures
        i <= entries.len(),
        i as int == index_of(pairs_of(*entries), Node::Str(name@), 0),
{
    let wanted = String::from_str(name);
    let ghost pairs = pairs_of(*entries);
    let ghost key = Node::Str(name@);
    let mut i: usize = 0;
    while i < entries.len()
        invariant
            i <= entries.len(),
            pairs == pairs_of(*entries),
            key == Node::Str(name@),
            wanted@ == name@,
            forall|j: int| 0 <= j < i ==> (#[trigger] pairs[j]).0 != key,
        decreases entries.len() - i,
    {
        let hit = match &entries[i].key {
            Element::Str(s) => *s == wanted,
            _ => false,
        };
        assert(pairs[i as int].0 == node_of(entries[i as int].key));
        assert(hit == (pairs[i as int].0 == key));
        if hit {
            proof {
                lemma_index_of_is(pairs, key, 0, i as int);
            }
            return i;
        }
        i = i + 1;
    }
    proof {
        lemma_index_of_is(pairs, key, 0, i as int);
    }
    i
}

impl Element {
    /// The string `s` as a value.
    pub fn string(s: &str) -> (v: Element)
        ensures
            v@ == Node::Str(s@),
    {
        Element::Str(String::from_str(s))
    }

    /// The number `n` as a value, in decimal notation.
    pub fn number(n: u64) -> (v: Element)
        ensures
            v@ == Node::Number(crate::text::decimal(n as nat)),
    {
        Element::Number(crate::text::decimal_string(n))
    }

    /// A copy of this value and of all that it holds.
    #[verifier::loop_isolation(false)]
    pub fn duplicate(&self) -> (r: Element)
        ensures
            r@ == self@,
        decreases self,
    {
        match self {
            Element::Null => Element::Null,
            Element::Bool(b) => Element::Bool(*b),
            Element::Number(t) => Element::Number(t.clone()),
            Element::Real(t) => Element::Real(t.clone()),
            Element::Str(s) => Element::Str(s.clone()),
            Element::Sequence(items) => {
                let mut copy: Vec<Element> = Vec::new();
                let mut i: usize = 0;
                while i < items.len()
                    invariant
                        i <= items.len(),
                        copy.len() == i,
                        forall|j: int| 0 <= j < i ==> node_of(#[trigger] copy[j]) == node_of(items[j]),
                    decreases items.len() - i,
                {
                    copy.push(items[i].duplicate());
                    i = i + 1;
                }
                assert(nodes_of(copy) =~= nodes_of(*items));
                Element::Sequence(copy)
            },
            Element::Mapping(doc) => Element::Mapping(doc.duplicate()),
        }
    }

    /// Whether this value is well formed: see [`well_formed`].
    #[verifier::loop_isolation(false)]
    pub fn is_well_formed(&self) -> (b: bool)
        ensures
            b == well_formed(self@),
        decreases self,
    {
        match self {
            Element::Sequence(items) => {
                let ghost nodes = nodes_of(*items);
                proof {
                    lemma_well_formed_list(nodes);
                }
                let mut i: usize = 0;
                while i < items.len()
                    invariant
                        i <= items.len(),
                        forall|j: int| 0 <= j < i ==> well_formed(#[trigger] nodes[j]),
                    decreases items.len() - i,
                {
                    if !items[i].is_well_formed() {
                        assert(!well_formed(nodes[i as int]));
                        return false;
                    }
                    assert(well_formed(nodes[i as int]));
                    i = i + 1;
                }
                true
            },
            Element::Mapping(doc) => doc.is_well_formed(),
            _ => true,
        }
    }

    /// Whether this value and `other` have the same content.
    #[verifier::loop_isolation(false)]
    pub fn same(&self, other: &Element) -> (r: bool)
        ensures
            r == (self@ == other@),
        decreases self,
    {
        match self {
            Element::Null => match other {
                Element::Null => true,
                _ => false,
            },
            Element::Bool(a) => match other {
                Element::Bool(b) => *a == *b,
                _ => false,
            },
            Element::Number(a) => match other {
                Element::Number(b) => *a == *b,
                _ => false,
            },
            Element::Real(a) => match other {
                Element::Real(b) => *a == *b,
                _ => false,
            },
            Element::Str(a) => match other {
                Element::Str(b) => *a == *b,
                _ => false,
            },
            Element::Sequence(a) => match other {
                Element::Sequence(b) => {
                    if a.len() != b.len() {
                        assert(nodes_of(*a).len() != nodes_of(*b).len());
                        return false;
                    }
                    let mut i: usize = 0;
                    while i < a.len()
                        invariant
                            i <= a.len(),
                            a.len() == b.len(),
                            forall|j: int| 0 <= j < i ==> node_of(#[trigger] a[j]) == node_of(b[j]),
                        decreases a.len() - i,
                    {
                        if !a[i].same(&b[i]) {
                            assert(nodes_of(*a)[i as int] != nodes_of(*b)[i as int]);
                            return false;
                        }
                        i = i + 1;
                    }
                    assert(nodes_of(*a) =~= nodes_of(*b));
                    true
                },
                _ => false,
            },
            Element::Mapping(a) => match other {
                Element::Mapping(b) => a.same(b),
                _ => false,
            },
        }
    }
}

impl Document {
    /// The document without entries.
    pub fn new() -> (d: Document)
        ensures
            d@ == Seq::<(Node, Node)>::empty(),
            well_formed(Node::Dict(d@)),
    {
        let d = Document { entries: Vec::new() };
        assert(d@ =~= Seq::<(Node, Node)>::empty());
        proof {
            lemma_well_formed_dict(d@);
        }
        d
    }

    /// The number of entries.
    pub fn len(&self) -> (n: usize)
        ensures
            n == self@.len(),
    {
        self.entries.len()
    }

    /// Whether the document has no entry.
    pub fn is_empty(&self) -> (b: bool)
        ensures
            b == (self@.len() == 0),
    {
        self.entries.len() == 0
    }

    /// Whether an entry has the string `name` as its key.
    pub fn contains_key(&self, name: &str) -> (b: bool)
        ensures
            b == has_key(self@, Node::Str(name@)),
    {
        position(&self.entries, name) < self.entries.len()
    }

    /// The value under the string `name`, if an entry has that key.
    pub fn get(&self, name: &str) -> (r: Option<&Element>)
        ensures
            match r {
                Some(v) => value_of(self@, Node::Str(name@)) == Some(v@),
                None => value_of(self@, Node::Str(name@)) is None,
            },
    {
        let i = position(&self.entries, name);
        if i < self.entries.len() {
            Some(&self.entries[i].value)
        } else {
            None
        }
    }

    /// Puts `value` under the string `name`: in the place of the value of the
    /// first entry of that key, or as a new last entry.
    pub fn insert(&mut self, name: &str, value: Element)
        ensures
            final(self)@ == with_entry(old(self)@, Node::Str(name@), value@),
            well_formed(Node::Dict(old(self)@)) && well_formed(value@) ==> well_formed(
                Node::Dict(final(self)@),
            ),
    {
        let i = position(&self.entries, name);
        let entry = Entry { key: Element::string(name), value };
        if i < self.entries.len() {
            self.entries.set(i, entry);
        } else {
            self.entries.push(entry);
        }
        assert(final(self)@ =~= with_entry(old(self)@, Node::Str(name@), value@));
        proof {
            if well_formed(Node::Dict(old(self)@)) && well_formed(value@) {
                lemma_with_entry_well_formed(old(self)@, Node::Str(name@), value@);
            }
        }
    }

    /// The value that the names of `path` lead to, from the one at `depth`
    /// on, each but the last naming a nested mapping.
    pub fn lookup(&self, path: &Vec<String>, depth: usize) -> (r: Option<&Element>)
        ensures
            match r {
                Some(v) => value_at(self@, names_of(*path), depth as int) == Some(v@),
                None => value_at(self@, names_of(*path), depth as int) is None,
            },
        decreases path.len() - depth,
    {
        if depth >= path.len() {
            return None;
        }
        match self.get(path[depth].as_str()) {
            None => None,
            Some(found) => {
                if depth + 1 == path.len() {
                    Some(found)
                } else {
                    match found {
                        Element::Mapping(inner) => inner.lookup(path, depth + 1),
                        _ => None,
                    }
                }
            },
        }
    }

    /// Whether this document is well formed: no mapping in it, itself
    /// included, has two entries of the same key.
    #[verifier::loop_isolation(false)]
    pub fn is_well_formed(&self) -> (b: bool)
        ensures
            b == well_formed(Node::Dict(self@)),
        decreases self,
    {
        let ghost pairs = self@;
        proof {
            lemma_well_formed_dict(pairs);
        }
        let mut i: usize = 0;
        while i < self.entries.len()
            invariant
                i <= self.entries.len(),
                forall|a: int|
                    0 <= a < i ==> well_formed((#[trigger] pairs[a]).0) && well_formed(pairs[a].1),
                forall|a: int, b: int|
                    0 <= a < b < i ==> (#[trigger] pairs[a]).0 != (#[trigger] pairs[b]).0,
            decreases self.entries.len() - i,
        {
            assert(pairs[i as int] == (self.entries[i as int].key@, self.entries[i as int].value@));
            if !self.entries[i].key.is_well_formed() || !self.entries[i].value.is_well_formed() {
                assert(!(well_formed(pairs[i as int].0) && well_formed(pairs[i as int].1)));
                return false;
            }
            let mut j: usize = 0;
            while j < i
                invariant
                    j <= i,
                    forall|a: int| 0 <= a < j ==> (#[trigger] pairs[a]).0 != pairs[i as int].0,
                decreases i - j,
            {
                assert(pairs[j as int] == (
                    self.entries[j as int].key@,
                    self.entries[j as int].value@,
                ));
                if self.entries[j].key.same(&self.entries[i].key) {
                    assert(pairs[j as int].0 == pairs[i as int].0);
                    assert(!distinct_keys(pairs));
                    return false;
                }
                j = j + 1;
            }
            i = i + 1;
        }
        assert(distinct_keys(pairs));
        true
    }

    /// A copy of this document and of all that it holds.
    #[verifier::loop_isolation(false)]
    pub fn duplicate(&self) -> (r: Document)
        ensures
            r@ == self@,
        decreases self,
    {
        let mut copy: Vec<Entry> = Vec::new();
        let mut i: usize = 0;
        while i < self.entries.len()
            invariant
                i <= self.entries.len(),
                copy.len() == i,
                forall|j: int|
                    0 <= j < i ==> node_of((#[trigger] copy[j]).key) == node_of(
                        self.entries[j].key,
                    ) && node_of(copy[j].value) == node_of(self.entries[j].value),
            decreases self.entries.len() - i,
        {
            let key = self.entries[i].key.duplicate();
            let value = self.entries[i].value.duplicate();
            copy.push(Entry { key, value });
            i = i + 1;
        }
        assert(pairs_of(copy) =~= pairs_of(self.entries));
        Document { entries: copy }
    }

    /// Whether this document and `other` hold the same entries in the same
    /// order.
    #[verifier::loop_isolation(false)]
    pub fn same(&self, other: &Document) -> (r: bool)
        ensures
            r == (self@ == other@),
        decreases self,
    {
        if self.entries.len() != other.entries.len() {
            assert(self@.len() != other@.len());
            return false;
        }
        let mut i: usize = 0;
        while i < self.entries.len()
            invariant
                i <= self.entries.len(),
                self.entries.len() == other.entries.len(),
                forall|j: int| 0 <= j < i ==> (#[trigger] self@[j]) == other@[j],
            decreases self.entries.len() - i,
        {
            let keys = self.entries[i].key.same(&other.entries[i].key);
            let values = self.entries[i].value.same(&other.entries[i].value);
            if !keys || !values {
                assert(self@[i as int] != other@[i as int]);
                return false;
            }
            assert(self@[i as int] == other@[i as int]);
            i = i + 1;
        }
        assert(self@ =~= other@);
        true
    }
}

} // verus!
