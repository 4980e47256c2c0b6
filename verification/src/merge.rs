//! Merging overrides into a document.
//!
//! An override names a place by a path of string keys and brings a value and
//! a policy. The policy says what happens where the user's document already
//! defines that place:
//!
//! * [`Policy::Keep`]: the user's value stays; the override fills the place
//!   only where it is empty.
//! * [`Policy::Replace`]: the override's value takes the place.
//! * [`Policy::Append`]: the place holds a sequence, and the override's value
//!   becomes its last item unless it is an item already; any other value in
//!   that place gives way to the sequence of that one item.
//!
//! Mappings that the path needs and the document lacks are created. A value
//! on the way that is no mapping is the user's value of that place: `Keep`
//! leaves it (and the override changes nothing), the other policies put a
//! mapping in its place.
use vstd::prelude::*;
use crate::document::{
    Document, Element, Entry, Node, index_of, lemma_index_of, names_of, nodes_of, pairs_of,
    position, well_formed,
};
use crate::laws::{lemma_apply_well_formed, lemma_merge_well_formed, well_formed_rules};

verus! {

/// What an override does to a place that the document already defines.
#[derive(Clone, Copy, Debug, PartialEq, Eq)]
pub enum Policy {
    Keep,
    Replace,
    Append,
}

/// A value for the place that `path` names, with its policy.
#[derive(Debug, PartialEq, Eq)]
pub struct Override {
    pub path: Vec<String>,
    pub value: Element,
    pub policy: Policy,
}

/// The mathematical content of an [`Override`].
pub ghost struct Rule {
    pub path: Seq<Seq<char>>,
    pub value: Node,
    pub policy: Policy,
}

impl View for Override {
    type V = Rule;

    open spec fn view(&self) -> Rule {
        Rule { path: names_of(self.path), value: self.value@, policy: self.policy }
    }
}

/// The contents of `overrides`, in order.
pub open spec fn rules_of(overrides: Vec<Override>) -> Seq<Rule> {
    Seq::new(overrides.len() as nat, |i: int| overrides[i]@)
}

/// `entries` after an override has reached the mapping that holds its place:
/// `key` is the last name of its path.
pub open spec fn set_leaf(entries: Seq<(Node, Node)>, key: Node, value: Node, policy: Policy) -> Seq<
    (Node, Node),
> {
    let i = index_of(entries, key, 0);
    if i >= entries.len() {
        match policy {
            Policy::Append => entries.push((key, Node::List(seq![value]))),
            _ => entries.push((key, value)),
        }
    } else {
        match policy {
            Policy::Keep => entries,
            Policy::Replace => entries.update(i, (key, value)),
            Policy::Append => match entries[i].1 {
                Node::List(items) => if items.contains(value) {
                    entries
                } else {
                    entries.update(i, (key, Node::List(items.push(value))))
                },
                _ => entries.update(i, (key, Node::List(seq![value]))),
            },
        }
    }
}

/// `entries` after the override of `value` at the names `path[depth..]`.
pub open spec fn apply(
    entries: Seq<(Node, Node)>,
    path: Seq<Seq<char>>,
    depth: int,
    value: Node,
    policy: Policy,
) -> Seq<(Node, Node)>
    decreases path.len() - depth,
{
    if depth < 0 || depth >= path.len() {
        entries
    } else if depth + 1 == path.len() {
        set_leaf(entries, Node::Str(path[depth]), value, policy)
    } else {
        let key = Node::Str(path[depth]);
        let i = index_of(entries, key, 0);
        if i >= entries.len() {
            entries.push((key, Node::Dict(apply(Seq::empty(), path, depth + 1, value, policy))))
        } else {
            match entries[i].1 {
                Node::Dict(inner) => entries.update(
                    i,
                    (key, Node::Dict(apply(inner, path, depth + 1, value, policy))),
                ),
                _ => match policy {
                    Policy::Keep => entries,
                    _ => entries.update(
                        i,
                        (key, Node::Dict(apply(Seq::empty(), path, depth + 1, value, policy))),
                    ),
                },
            }
        }
    }
}

/// `entries` after one rule.
pub open spec fn applied(entries: Seq<(Node, Node)>, rule: Rule) -> Seq<(Node, Node)> {
    apply(entries, rule.path, 0, rule.value, rule.policy)
}

/// `entries` after the first `n` of `rules`, one after the other.
pub open spec fn merged(entries: Seq<(Node, Node)>, rules: Seq<Rule>, n: int) -> Seq<(Node, Node)>
    decreases n,
{
    if n <= 0 {
        entries
    } else {
        applied(merged(entries, rules, n - 1), rules[n - 1])
    }
}

/// Whether `items` holds a value with the content of `value`.
pub fn holds(items: &Vec<Element>, value: &Element) -> (b: bool)
    ensures
        b == nodes_of(*items).contains(value@),
{
    let mut i: usize = 0;
    while i < items.len()
        invariant
            i <= items.len(),
            forall|j: int| 0 <= j < i ==> (#[trigger] nodes_of(*items)[j]) != value@,
        decreases items.len() - i,
    {
        if items[i].same(value) {
            assert(nodes_of(*items)[i as int] == value@);
            return true;
        }
        i = i + 1;
    }
    false
}

/// The sequence whose one item is `value`.
fn single(value: Element) -> (v: Element)
    ensures
        v@ == Node::List(seq![value@]),
{
    let mut items: Vec<Element> = Vec::new();
    items.push(value);
    assert(nodes_of(items) =~= seq![value@]);
    Element::Sequence(items)
}

/// What `entries` holds after entry `i` was taken out and `entry` put in its
/// place.
proof fn lemma_replaced(before: Seq<Entry>, after: Seq<Entry>, i: int, entry: Entry)
    requires
        0 <= i < before.len(),
        after == before.remove(i).insert(i, entry),
    ensures
        after == before.update(i, entry),
{
    assert(after =~= before.update(i, entry));
}

/// Applies to `doc` the override of `value` at the names of `path` from
/// `depth` on.
fn apply_at(doc: Document, path: &Vec<String>, depth: usize, value: Element, policy: Policy) -> (r:
    Document)
    requires
        depth < path.len(),
    ensures
        r@ == apply(doc@, names_of(*path), depth as int, value@, policy),
    decreases path.len() - depth,
{
    let ghost before = doc@;
    let ghost key = Node::Str(path[depth as int]@);
    let mut entries = doc.entries;
    let name = path[depth].as_str();
    let i = position(&entries, name);
    proof {
        lemma_index_of(before, key, 0);
    }
    if depth + 1 == path.len() {
        if i >= entries.len() {
            let fresh = match policy {
                Policy::Append => single(value),
                _ => value,
            };
            entries.push(Entry { key: Element::string(name), value: fresh });
            assert(pairs_of(entries) =~= set_leaf(before, key, value@, policy));
        } else {
            match policy {
                Policy::Keep => {},
                Policy::Replace => {
                    entries.set(i, Entry { key: Element::string(name), value });
                    assert(pairs_of(entries) =~= set_leaf(before, key, value@, policy));
                },
                Policy::Append => {
                    let ghost whole = entries@;
                    let old_entry = entries.remove(i);
                    let fresh = match old_entry.value {
                        Element::Sequence(items) => {
                            let mut items = items;
                            if !holds(&items, &value) {
                                let ghost had = nodes_of(items);
                                items.push(value);
                                assert(nodes_of(items) =~= had.push(value@));
                            }
                            Element::Sequence(items)
                        },
                        _ => single(value),
                    };
                    let entry = Entry { key: old_entry.key, value: fresh };
                    entries.insert(i, entry);
                    proof {
                        lemma_replaced(whole, entries@, i as int, entry);
                    }
                    assert(pairs_of(entries) =~= set_leaf(before, key, value@, policy));
                },
            }
        }
    } else {
        if i >= entries.len() {
            let inner = apply_at(Document::new(), path, depth + 1, value, policy);
            entries.push(Entry { key: Element::string(name), value: Element::Mapping(inner) });
            assert(pairs_of(entries) =~= apply(
                before,
                names_of(*path),
                depth as int,
                value@,
                policy,
            ));
        } else {
            let ghost whole = entries@;
            let old_entry = entries.remove(i);
            let fresh = match old_entry.value {
                Element::Mapping(inner) => Element::Mapping(
                    apply_at(inner, path, depth + 1, value, policy),
                ),
                other => match policy {
                    Policy::Keep => other,
                    _ => Element::Mapping(apply_at(Document::new(), path, depth + 1, value, policy)),
                },
            };
            let entry = Entry { key: old_entry.key, value: fresh };
            entries.insert(i, entry);
            proof {
                lemma_replaced(whole, entries@, i as int, entry);
            }
            assert(pairs_of(entries) =~= apply(
                before,
                names_of(*path),
                depth as int,
                value@,
                policy,
            ));
        }
    }
    Document { entries }
}

impl Document {
    /// This document after `rule`: the override's value stands at the place
    /// that its path names, as its policy says. An empty path names no place
    /// and changes nothing.
    pub fn apply(self, rule: &Override) -> (r: Document)
        ensures
            r@ == applied(self@, rule@),
            well_formed(Node::Dict(self@)) && well_formed(rule@.value) ==> well_formed(
                Node::Dict(r@),
            ),
    {
        proof {
            if well_formed(Node::Dict(self@)) && well_formed(rule@.value) {
                lemma_apply_well_formed(self@, rule@.path, 0, rule@.value, rule@.policy);
            }
        }
        if rule.path.len() == 0 {
            self
        } else {
            apply_at(self, &rule.path, 0, rule.value.duplicate(), rule.policy)
        }
    }
}

/// The base document with all of `overrides` applied, in their order. The
/// base itself is left as it is.
pub fn merge(base: &Document, overrides: &Vec<Override>) -> (r: Document)
    ensures
        r@ == merged(base@, rules_of(*overrides), overrides.len() as int),
        well_formed(Node::Dict(base@)) && well_formed_rules(
            rules_of(*overrides),
            overrides.len() as int,
        ) ==> well_formed(Node::Dict(r@)),
{
    proof {
        if well_formed(Node::Dict(base@)) && well_formed_rules(
            rules_of(*overrides),
            overrides.len() as int,
        ) {
            lemma_merge_well_formed(base@, rules_of(*overrides), overrides.len() as int);
        }
    }
    let mut doc = base.duplicate();
    let mut i: usize = 0;
    while i < overrides.len()
        invariant
            i <= overrides.len(),
            doc@ == merged(base@, rules_of(*overrides), i as int),
        decreases overrides.len() - i,
    {
        doc = doc.apply(&overrides[i]);
        i = i + 1;
    }
    doc
}

} // verus!
