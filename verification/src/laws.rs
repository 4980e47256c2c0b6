//! What holds of merging, for every document and every set of overrides.
use vstd::prelude::*;
use crate::document::{
    Node, distinct_keys, has_key, index_of, lemma_index_of, lemma_well_formed_dict,
    lemma_well_formed_list, value_at, value_of, well_formed,
};
use crate::merge::{Policy, Rule, applied, apply, merged};

verus! {

/// `after` differs from `before` at most in the entry of `key`: in the value
/// of its first entry, or by one new last entry of that key.
pub open spec fn touches_only(
    before: Seq<(Node, Node)>,
    after: Seq<(Node, Node)>,
    key: Node,
) -> bool {
    let i = index_of(before, key, 0);
    if i < before.len() {
        &&& after.len() == before.len()
        &&& after[i].0 == key
        &&& forall|j: int| 0 <= j < before.len() && j != i ==> #[trigger] after[j] == before[j]
    } else {
        &&& after.len() == before.len() + 1
        &&& after[before.len() as int].0 == key
        &&& forall|j: int| 0 <= j < before.len() ==> #[trigger] after[j] == before[j]
    }
}

/// Whether `rule` names a place under the top-level key `key`.
pub open spec fn reaches(rule: Rule, key: Node) -> bool {
    rule.path.len() > 0 && Node::Str(rule.path[0]) == key
}

/// An override changes the document at most under the first name of its
/// path.
pub proof fn lemma_apply_touches(
    entries: Seq<(Node, Node)>,
    path: Seq<Seq<char>>,
    depth: int,
    value: Node,
    policy: Policy,
)
    requires
        0 <= depth < path.len(),
    ensures
        touches_only(entries, apply(entries, path, depth, value, policy), Node::Str(path[depth])),
{
    lemma_index_of(entries, Node::Str(path[depth]), 0);
}

/// After a change under `key` alone, every key is found where it was, and
/// `key` itself where it was or in the new last entry.
proof fn lemma_touched_index(
    before: Seq<(Node, Node)>,
    after: Seq<(Node, Node)>,
    key: Node,
    other: Node,
    from: int,
)
    requires
        touches_only(before, after, key),
        0 <= from <= before.len(),
    ensures
        index_of(before, other, from) < before.len() ==> index_of(after, other, from) == index_of(
            before,
            other,
            from,
        ),
        index_of(before, other, from) >= before.len() && other != key ==> index_of(
            after,
            other,
            from,
        ) >= after.len(),
        index_of(before, other, from) >= before.len() && other == key && index_of(before, key, 0)
            >= before.len() ==> index_of(after, other, from) == before.len(),
    decreases before.len() - from,
{
    lemma_index_of(before, key, 0);
    let i = index_of(before, key, 0);
    if from < before.len() {
        if from != i {
            assert(after[from] == before[from]);
        }
        assert(after[from].0 == before[from].0);
        if before[from].0 != other {
            lemma_touched_index(before, after, key, other, from + 1);
        }
    } else {
        if i >= before.len() {
            assert(after[from].0 == key);
            if other != key {
                assert(index_of(after, other, from + 1) == after.len());
            }
        }
    }
}

/// After a change under `key` alone, the values under the other keys are
/// what they were.
pub proof fn lemma_touched_spares(
    before: Seq<(Node, Node)>,
    after: Seq<(Node, Node)>,
    key: Node,
    other: Node,
)
    requires
        touches_only(before, after, key),
        other != key,
    ensures
        value_of(after, other) == value_of(before, other),
        has_key(after, other) == has_key(before, other),
{
    lemma_touched_index(before, after, key, other, 0);
    lemma_index_of(before, other, 0);
    lemma_index_of(before, key, 0);
}

/// After a change under `key`, the document holds `key`, at the index of its
/// entry before or in the new last entry.
pub proof fn lemma_touched_holds(before: Seq<(Node, Node)>, after: Seq<(Node, Node)>, key: Node)
    requires
        touches_only(before, after, key),
    ensures
        has_key(after, key),
        index_of(after, key, 0) == index_of(before, key, 0),
{
    lemma_touched_index(before, after, key, key, 0);
    lemma_index_of(before, key, 0);
}

/// A change under one key leaves distinct keys distinct.
pub proof fn lemma_touched_distinct(before: Seq<(Node, Node)>, after: Seq<(Node, Node)>, key: Node)
    requires
        touches_only(before, after, key),
        distinct_keys(before),
    ensures
        distinct_keys(after),
{
    lemma_index_of(before, key, 0);
    let i = index_of(before, key, 0);
    assert forall|a: int, b: int| 0 <= a < b < after.len() implies (#[trigger] after[a]).0 != (
    #[trigger] after[b]).0 by {
        if a < before.len() {
            if a != i {
                assert(after[a] == before[a]);
            }
            assert(after[a].0 == before[a].0);
        }
        if b < before.len() {
            if b != i {
                assert(after[b] == before[b]);
            }
            assert(after[b].0 == before[b].0);
            assert(before[a].0 != before[b].0);
        } else {
            assert(after[b].0 == key);
            assert(before[a].0 != key);
        }
    }
}

/// An override leaves the value under every top-level key that its path does
/// not start with as it was.
pub proof fn lemma_apply_spares_other_keys(entries: Seq<(Node, Node)>, rule: Rule, key: Node)
    requires
        !reaches(rule, key),
    ensures
        value_of(applied(entries, rule), key) == value_of(entries, key),
        has_key(applied(entries, rule), key) == has_key(entries, key),
{
    if rule.path.len() > 0 {
        lemma_apply_touches(entries, rule.path, 0, rule.value, rule.policy);
        lemma_touched_spares(entries, applied(entries, rule), Node::Str(rule.path[0]), key);
    }
}

/// Merging leaves the value under every top-level key that no override's
/// path starts with as the base document has it.
pub proof fn lemma_merge_spares_other_keys(
    entries: Seq<(Node, Node)>,
    rules: Seq<Rule>,
    n: int,
    key: Node,
)
    requires
        0 <= n <= rules.len(),
        forall|k: int| 0 <= k < n ==> !#[trigger] reaches(rules[k], key),
    ensures
        value_of(merged(entries, rules, n), key) == value_of(entries, key),
        has_key(merged(entries, rules, n), key) == has_key(entries, key),
    decreases n,
{
    if n > 0 {
        lemma_merge_spares_other_keys(entries, rules, n - 1, key);
        assert(!reaches(rules[n - 1], key));
        lemma_apply_spares_other_keys(merged(entries, rules, n - 1), rules[n - 1], key);
    }
}

/// Merging is idempotent on the keys that the overrides do not name: merging
/// the same overrides into an already merged document leaves the value under
/// every such key as the first merge left it, which is as the base had it.
pub proof fn lemma_merge_again_spares_other_keys(
    entries: Seq<(Node, Node)>,
    rules: Seq<Rule>,
    n: int,
    key: Node,
)
    requires
        0 <= n <= rules.len(),
        forall|k: int| 0 <= k < n ==> !#[trigger] reaches(rules[k], key),
    ensures
        value_of(merged(merged(entries, rules, n), rules, n), key) == value_of(
            merged(entries, rules, n),
            key,
        ),
        value_of(merged(entries, rules, n), key) == value_of(entries, key),
{
    lemma_merge_spares_other_keys(entries, rules, n, key);
    lemma_merge_spares_other_keys(merged(entries, rules, n), rules, n, key);
}

/// The top-level keys of a merged document are exactly those of the base
/// and the first names of the overrides' paths.
pub proof fn lemma_merge_keys(entries: Seq<(Node, Node)>, rules: Seq<Rule>, n: int, key: Node)
    requires
        0 <= n <= rules.len(),
    ensures
        has_key(merged(entries, rules, n), key) <==> has_key(entries, key) || exists|k: int|
            0 <= k < n && #[trigger] reaches(rules[k], key),
    decreases n,
{
    if n > 0 {
        lemma_merge_keys(entries, rules, n - 1, key);
        let before = merged(entries, rules, n - 1);
        let rule = rules[n - 1];
        if reaches(rule, key) {
            lemma_apply_touches(before, rule.path, 0, rule.value, rule.policy);
            lemma_touched_holds(before, applied(before, rule), key);
        } else {
            lemma_apply_spares_other_keys(before, rule, key);
            if has_key(merged(entries, rules, n), key) && !has_key(entries, key) {
                let k = choose|k: int| 0 <= k < n - 1 && #[trigger] reaches(rules[k], key);
                assert(reaches(rules[k], key));
            }
        }
    }
}

/// Merging into a document whose keys are distinct gives a document whose
/// keys are distinct.
pub proof fn lemma_merge_keeps_keys_distinct(entries: Seq<(Node, Node)>, rules: Seq<Rule>, n: int)
    requires
        0 <= n <= rules.len(),
        distinct_keys(entries),
    ensures
        distinct_keys(merged(entries, rules, n)),
    decreases n,
{
    if n > 0 {
        lemma_merge_keeps_keys_distinct(entries, rules, n - 1);
        let before = merged(entries, rules, n - 1);
        let rule = rules[n - 1];
        if rule.path.len() > 0 {
            lemma_apply_touches(before, rule.path, 0, rule.value, rule.policy);
            lemma_touched_distinct(before, applied(before, rule), Node::Str(rule.path[0]));
        }
    }
}

/// An override with a well-formed value leaves a well-formed document well
/// formed.
pub proof fn lemma_apply_well_formed(
    entries: Seq<(Node, Node)>,
    path: Seq<Seq<char>>,
    depth: int,
    value: Node,
    policy: Policy,
)
    requires
        well_formed(Node::Dict(entries)),
        well_formed(value),
    ensures
        well_formed(Node::Dict(apply(entries, path, depth, value, policy))),
    decreases path.len() - depth,
{
    if 0 <= depth < path.len() {
        let key = Node::Str(path[depth]);
        let after = apply(entries, path, depth, value, policy);
        lemma_index_of(entries, key, 0);
        lemma_apply_touches(entries, path, depth, value, policy);
        lemma_touched_distinct(entries, after, key);
        let i = index_of(entries, key, 0);
        let empty = Seq::<(Node, Node)>::empty();
        lemma_well_formed_dict(entries);
        lemma_well_formed_dict(after);
        lemma_well_formed_dict(empty);
        assert(well_formed(Node::Dict(empty)));
        if depth + 1 < path.len() {
            if i < entries.len() {
                assert(well_formed(entries[i].0) && well_formed(entries[i].1));
                match entries[i].1 {
                    Node::Dict(inner) => {
                        lemma_apply_well_formed(inner, path, depth + 1, value, policy);
                    },
                    _ => {
                        lemma_apply_well_formed(empty, path, depth + 1, value, policy);
                    },
                }
            } else {
                lemma_apply_well_formed(empty, path, depth + 1, value, policy);
            }
        } else {
            let single = seq![value];
            lemma_well_formed_list(single);
            assert forall|k: int| 0 <= k < single.len() implies well_formed(
                #[trigger] single[k],
            ) by {}
            if i < entries.len() {
                assert(well_formed(entries[i].0) && well_formed(entries[i].1));
                match entries[i].1 {
                    Node::List(items) => {
                        let more = items.push(value);
                        lemma_well_formed_list(items);
                        lemma_well_formed_list(more);
                        assert forall|k: int| 0 <= k < more.len() implies well_formed(
                            #[trigger] more[k],
                        ) by {
                            if k < items.len() {
                                assert(more[k] == items[k]);
                            }
                        }
                    },
                    _ => {},
                }
            }
        }
        let at = if i < entries.len() {
            i
        } else {
            entries.len() as int
        };
        assert(well_formed(after[at].0) && well_formed(after[at].1));
        assert forall|a: int| 0 <= a < after.len() implies well_formed((#[trigger] after[a]).0)
            && well_formed(after[a].1) by {
            if a != at {
                assert(after[a] == entries[a]);
                assert(well_formed(entries[a].0) && well_formed(entries[a].1));
            }
        }
    }
}

/// Whether the values of the first `n` of `rules` are well formed.
pub open spec fn well_formed_rules(rules: Seq<Rule>, n: int) -> bool {
    forall|k: int| 0 <= k < n ==> well_formed((#[trigger] rules[k]).value)
}

/// Merging overrides with well-formed values into a well-formed document
/// gives a well-formed document.
pub proof fn lemma_merge_well_formed(entries: Seq<(Node, Node)>, rules: Seq<Rule>, n: int)
    requires
        0 <= n <= rules.len(),
        well_formed(Node::Dict(entries)),
        well_formed_rules(rules, n),
    ensures
        well_formed(Node::Dict(merged(entries, rules, n))),
    decreases n,
{
    if n > 0 {
        lemma_merge_well_formed(entries, rules, n - 1);
        let rule = rules[n - 1];
        assert(well_formed(rule.value));
        lemma_apply_well_formed(merged(entries, rules, n - 1), rule.path, 0, rule.value, rule.policy);
    }
}

/// An override leaves every place whose path parts from its own as it was:
/// where the two paths agree on the names before `fork` and differ at
/// `fork`, the value that `other` leads to is unchanged.
pub proof fn lemma_apply_spares_other_paths(
    entries: Seq<(Node, Node)>,
    path: Seq<Seq<char>>,
    depth: int,
    value: Node,
    policy: Policy,
    other: Seq<Seq<char>>,
    fork: int,
)
    requires
        0 <= depth <= fork < path.len(),
        fork < other.len(),
        forall|k: int| depth <= k < fork ==> path[k] == other[k],
        path[fork] != other[fork],
    ensures
        value_at(apply(entries, path, depth, value, policy), other, depth) == value_at(
            entries,
            other,
            depth,
        ),
    decreases fork - depth,
{
    let key = Node::Str(path[depth]);
    let after = apply(entries, path, depth, value, policy);
    lemma_index_of(entries, key, 0);
    lemma_apply_touches(entries, path, depth, value, policy);
    if depth == fork {
        lemma_touched_spares(entries, after, key, Node::Str(other[depth]));
    } else {
        assert(path[depth] == other[depth]);
        lemma_touched_holds(entries, after, key);
        let i = index_of(entries, key, 0);
        let empty = Seq::<(Node, Node)>::empty();
        if i >= entries.len() {
            lemma_apply_spares_other_paths(empty, path, depth + 1, value, policy, other, fork);
            assert(value_of(empty, Node::Str(other[depth + 1])) is None);
        } else {
            match entries[i].1 {
                Node::Dict(inner) => {
                    lemma_apply_spares_other_paths(
                        inner,
                        path,
                        depth + 1,
                        value,
                        policy,
                        other,
                        fork,
                    );
                },
                _ => {
                    lemma_apply_spares_other_paths(
                        empty,
                        path,
                        depth + 1,
                        value,
                        policy,
                        other,
                        fork,
                    );
                    assert(value_of(empty, Node::Str(other[depth + 1])) is None);
                },
            }
        }
    }
}

/// An override with the policy `Replace` puts its value at its place.
pub proof fn lemma_replace_sets(
    entries: Seq<(Node, Node)>,
    path: Seq<Seq<char>>,
    depth: int,
    value: Node,
)
    requires
        0 <= depth < path.len(),
    ensures
        value_at(apply(entries, path, depth, value, Policy::Replace), path, depth) == Some(value),
    decreases path.len() - depth,
{
    let key = Node::Str(path[depth]);
    let after = apply(entries, path, depth, value, Policy::Replace);
    lemma_index_of(entries, key, 0);
    lemma_apply_touches(entries, path, depth, value, Policy::Replace);
    lemma_touched_holds(entries, after, key);
    if depth + 1 < path.len() {
        let i = index_of(entries, key, 0);
        if i < entries.len() {
            match entries[i].1 {
                Node::Dict(inner) => {
                    lemma_replace_sets(inner, path, depth + 1, value);
                },
                _ => {
                    lemma_replace_sets(Seq::empty(), path, depth + 1, value);
                },
            }
        } else {
            lemma_replace_sets(Seq::empty(), path, depth + 1, value);
        }
    }
}

/// An override with the policy `Keep` changes nothing in a document that
/// already defines its place.
pub proof fn lemma_keep_preserves(
    entries: Seq<(Node, Node)>,
    path: Seq<Seq<char>>,
    depth: int,
    value: Node,
)
    requires
        0 <= depth < path.len(),
        value_at(entries, path, depth) is Some,
    ensures
        apply(entries, path, depth, value, Policy::Keep) == entries,
    decreases path.len() - depth,
{
    let key = Node::Str(path[depth]);
    lemma_index_of(entries, key, 0);
    if depth + 1 < path.len() {
        let i = index_of(entries, key, 0);
        match entries[i].1 {
            Node::Dict(inner) => {
                lemma_keep_preserves(inner, path, depth + 1, value);
                assert(entries.update(i, (key, Node::Dict(inner))) =~= entries);
            },
            _ => {},
        }
    }
}

/// After an override with the policy `Append`, its place holds a sequence
/// that has its value as an item.
pub proof fn lemma_append_holds(
    entries: Seq<(Node, Node)>,
    path: Seq<Seq<char>>,
    depth: int,
    value: Node,
)
    requires
        0 <= depth < path.len(),
    ensures
        value_at(apply(entries, path, depth, value, Policy::Append), path, depth) matches Some(
            Node::List(items),
        ) && items.contains(value),
    decreases path.len() - depth,
{
    let key = Node::Str(path[depth]);
    let after = apply(entries, path, depth, value, Policy::Append);
    lemma_index_of(entries, key, 0);
    lemma_apply_touches(entries, path, depth, value, Policy::Append);
    lemma_touched_holds(entries, after, key);
    let i = index_of(entries, key, 0);
    if depth + 1 < path.len() {
        if i < entries.len() {
            match entries[i].1 {
                Node::Dict(inner) => {
                    lemma_append_holds(inner, path, depth + 1, value);
                },
                _ => {
                    lemma_append_holds(Seq::empty(), path, depth + 1, value);
                },
            }
        } else {
            lemma_append_holds(Seq::empty(), path, depth + 1, value);
        }
    } else {
        if i < entries.len() {
            match entries[i].1 {
                Node::List(items) => {
                    if !items.contains(value) {
                        assert(items.push(value)[items.len() as int] == value);
                    }
                },
                _ => {
                    assert(seq![value][0] == value);
                },
            }
        } else {
            assert(seq![value][0] == value);
        }
    }
}

/// One override is idempotent: applied to its own result it changes nothing.
pub proof fn lemma_apply_twice(
    entries: Seq<(Node, Node)>,
    path: Seq<Seq<char>>,
    depth: int,
    value: Node,
    policy: Policy,
)
    ensures
        apply(apply(entries, path, depth, value, policy), path, depth, value, policy) == apply(
            entries,
            path,
            depth,
            value,
            policy,
        ),
    decreases path.len() - depth,
{
    if 0 <= depth < path.len() {
        let key = Node::Str(path[depth]);
        let once = apply(entries, path, depth, value, policy);
        let twice = apply(once, path, depth, value, policy);
        lemma_index_of(entries, key, 0);
        lemma_apply_touches(entries, path, depth, value, policy);
        lemma_touched_holds(entries, once, key);
        let i = index_of(entries, key, 0);
        let empty = Seq::<(Node, Node)>::empty();
        if depth + 1 < path.len() {
            if i < entries.len() {
                match entries[i].1 {
                    Node::Dict(inner) => {
                        lemma_apply_twice(inner, path, depth + 1, value, policy);
                    },
                    _ => {
                        lemma_apply_twice(empty, path, depth + 1, value, policy);
                    },
                }
            } else {
                lemma_apply_twice(empty, path, depth + 1, value, policy);
            }
            assert(twice =~= once);
        } else {
            if i < entries.len() {
                match entries[i].1 {
                    Node::List(items) => {
                        if !items.contains(value) {
                            assert(items.push(value)[items.len() as int] == value);
                        }
                    },
                    _ => {
                        assert(seq![value][0] == value);
                    },
                }
            } else {
                assert(seq![value][0] == value);
            }
            assert(twice =~= once);
        }
    }
}

} // verus!
