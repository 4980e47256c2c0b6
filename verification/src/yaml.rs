//! Reading YAML text into a document. The text is parsed by `serde_yaml`;
//! what the parser found is a named function of the bytes, and what becomes
//! of it is decided here.
use vstd::prelude::*;
use crate::document::{Document, Element, Entry, Node, well_formed};

verus! {

/// `serde_yaml::Value`, the tree that the parser builds. Nothing of what a
/// value of it holds is visible here; it is only handed on to be moved into
/// an [`Element`].
#[verifier::external_type_specification]
#[verifier::external_body]
pub struct ExYamlValue(serde_yaml::Value);

/// What `serde_yaml::from_slice` makes of `bytes` as one value: the content
/// of the value, or nothing where it reports an error.
pub uninterp spec fn yaml_value(bytes: Seq<u8>) -> Option<Node>;

/// Moves a parsed tree into an [`Element`], variant by variant. A number
/// comes as the notation that `serde_yaml::Number` displays, as `Real` where
/// `serde_yaml::Number::is_f64` says that it is a float. Nothing is claimed
/// of the result here.
#[verifier::external_body]
fn value_from(y: serde_yaml::Value) -> Element {
    match y {
        serde_yaml::Value::Null => Element::Null,
        serde_yaml::Value::Bool(b) => Element::Bool(b),
        serde_yaml::Value::Number(n) if n.is_f64() => Element::Real(n.to_string()),
        serde_yaml::Value::Number(n) => Element::Number(n.to_string()),
        serde_yaml::Value::String(s) => Element::Str(s),
        serde_yaml::Value::Sequence(items) => Element::Sequence(
            items.into_iter().map(value_from).collect(),
        ),
        serde_yaml::Value::Mapping(m) => Element::Mapping(Document {
            entries: m.into_iter().map(|(k, v)| Entry { key: value_from(k), value: value_from(v) }).collect(),
        }),
    }
}

/// Calls `serde_yaml::from_slice` for one `serde_yaml::Value`. The contract
/// only gives the outcome its name: the same bytes give the same outcome, a
/// value where the parser accepts them and nothing where it reports an
/// error. What the parser accepts is not stated.
#[verifier::external_body]
fn read_yaml(bytes: &[u8]) -> (r: Option<Element>)
    ensures
        match r {
            Some(v) => yaml_value(bytes@) == Some(v@),
            None => yaml_value(bytes@) is None,
        },
{
    match serde_yaml::from_slice::<serde_yaml::Value>(bytes) {
        Ok(y) => Some(value_from(y)),
        Err(_) => None,
    }
}

/// The document that a parsed file stands for: its mapping where the file
/// holds a well-formed one, and the empty document where the file was
/// malformed or holds anything else.
pub open spec fn document_in(parsed: Option<Node>) -> Seq<(Node, Node)> {
    match parsed {
        Some(Node::Dict(entries)) => if well_formed(Node::Dict(entries)) {
            entries
        } else {
            Seq::empty()
        },
        _ => Seq::empty(),
    }
}

/// The document that `parsed` stands for: see [`document_in`].
pub fn document_from(parsed: Option<Element>) -> (d: Document)
    ensures
        d@ == document_in(
            match parsed {
                Some(v) => Some(v@),
                None => None,
            },
        ),
        well_formed(Node::Dict(d@)),
{
    match parsed {
        Some(Element::Mapping(d)) => if d.is_well_formed() {
            d
        } else {
            Document::new()
        },
        _ => Document::new(),
    }
}

/// Whether the parser reads `bytes` as the mapping `entries` and nothing
/// else.
pub open spec fn reads_as(bytes: Seq<u8>, entries: Seq<(Node, Node)>) -> bool {
    yaml_value(bytes) == Some(Node::Dict(entries))
}

/// Whether the parser reads `bytes` as exactly the document `doc`: the same
/// keys and values in the same order.
pub fn reads_back(bytes: &[u8], doc: &Document) -> (b: bool)
    ensures
        b == reads_as(bytes@, doc@),
{
    match read_yaml(bytes) {
        Some(Element::Mapping(d)) => d.same(doc),
        _ => false,
    }
}

/// Reads the bytes of a configuration file. Malformed content is no failure:
/// it gives the empty document, as does content that is no mapping or that
/// names a key twice in one mapping.
pub fn parse(bytes: &[u8]) -> (d: Document)
    ensures
        d@ == document_in(yaml_value(bytes@)),
        yaml_value(bytes@) is None ==> d@.len() == 0,
        well_formed(Node::Dict(d@)),
{
    document_from(read_yaml(bytes))
}

} // verus!
