//! Writing configuration text: a document in flow style, and the editor's
//! settings alone as plain directives.
//!
//! In flow style a mapping stands in braces and a sequence in brackets, the
//! items separated by a comma and a space, a key and its value by a colon and
//! a space. Strings are double-quoted. A number is written by its notation
//! where that is made of digits, signs, dots and exponent marks and has a
//! digit, or is one of `.inf`, `-.inf` and `.nan`; any other notation is
//! quoted like a string. A real whose notation is that of a whole number
//! gets `.0` behind it, so that it is read as a real again.
use vstd::prelude::*;
use crate::document::{Document, Element, Node, names_of, nodes_of, pairs_of};
use crate::text::{chars_of, decimal, push_decimal, push_quoted, quoted};

verus! {

/// Whether `c` is a decimal digit.
pub open spec fn is_digit(c: char) -> bool {
    0x30 <= c as u32 <= 0x39
}

/// Whether `c` may stand in the plain notation of a number.
pub open spec fn is_number_char(c: char) -> bool {
    is_digit(c) || c == '+' || c == '-' || c == '.' || c == 'e' || c == 'E'
}

/// Whether the notation `t` is written as it is.
pub open spec fn plain_number(t: Seq<char>) -> bool {
    ||| (forall|i: int| 0 <= i < t.len() ==> is_number_char(#[trigger] t[i])) && (exists|i: int|
        0 <= i < t.len() && is_digit(#[trigger] t[i]))
    ||| t == ".inf"@
    ||| t == "-.inf"@
    ||| t == ".nan"@
}

/// Whether the notation `t` is made of digits and signs alone.
pub open spec fn whole(t: Seq<char>) -> bool {
    forall|i: int| 0 <= i < t.len() ==> is_whole_char(#[trigger] t[i])
}

/// Whether `c` is a digit or a sign.
pub open spec fn is_whole_char(c: char) -> bool {
    is_digit(c) || c == '+' || c == '-'
}

/// The text of the real with the notation `t`.
pub open spec fn render_real(t: Seq<char>) -> Seq<char> {
    if !plain_number(t) {
        quoted(t)
    } else if whole(t) {
        t + ".0"@
    } else {
        t
    }
}

/// The flow-style text of `n`.
pub open spec fn render(n: Node) -> Seq<char>
    decreases n,
{
    match n {
        Node::Null => "null"@,
        Node::Bool(b) => if b {
            "true"@
        } else {
            "false"@
        },
        Node::Number(t) => if plain_number(t) {
            t
        } else {
            quoted(t)
        },
        Node::Real(t) => render_real(t),
        Node::Str(s) => quoted(s),
        Node::List(items) => seq!['['] + render_items(items, items.len() as int) + seq![']'],
        Node::Dict(entries) => seq!['{'] + render_entries(entries, entries.len() as int)
            + seq!['}'],
    }
}

/// The texts of the first `n` of `items`, separated.
pub open spec fn render_items(items: Seq<Node>, n: int) -> Seq<char>
    decreases items, n,
{
    if n <= 0 || n > items.len() {
        Seq::empty()
    } else if n == 1 {
        render(items[0])
    } else {
        render_items(items, n - 1) + ", "@ + render(items[n - 1])
    }
}

/// One entry: the key, a colon and a space, the value.
pub open spec fn render_entry(key: Seq<char>, value: Seq<char>) -> Seq<char> {
    key + ": "@ + value
}

/// The texts of the first `n` of `entries`, separated.
pub open spec fn render_entries(entries: Seq<(Node, Node)>, n: int) -> Seq<char>
    decreases entries, n,
{
    if n <= 0 || n > entries.len() {
        Seq::empty()
    } else if n == 1 {
        render_entry(render(entries[0].0), render(entries[0].1))
    } else {
        render_entries(entries, n - 1) + ", "@ + render_entry(
            render(entries[n - 1].0),
            render(entries[n - 1].1),
        )
    }
}

/// The text of a whole document: its mapping in flow style on one line.
pub open spec fn document_text(entries: Seq<(Node, Node)>) -> Seq<char> {
    render(Node::Dict(entries)) + "\n"@
}

/// The editor's settings as directives, a line each: the font block with its
/// size, the family of the first font where there is one, and the key
/// binding that takes Control-Z from the terminal.
pub open spec fn directives(font_size: nat, fonts: Seq<Seq<char>>) -> Seq<char> {
    let family = if fonts.len() > 0 {
        "  normal:\n"@ + "    family: "@ + quoted(fonts[0]) + "\n"@
    } else {
        Seq::empty()
    };
    "font:\n"@ + "  size: "@ + decimal(font_size) + "\n"@ + family + "key_bindings:\n"@
        + "  - {key: Z, mods: Control, action: None} \n"@
}

fn digit_at(c: char) -> (b: bool)
    ensures
        b == is_digit(c),
{
    let code: u32 = c as u32;
    0x30 <= code && code <= 0x39
}

/// Whether the notation `text` is written as it is.
pub fn is_plain_number(text: &str) -> (b: bool)
    ensures
        b == plain_number(text@),
{
    let t = chars_of(text);
    let owned = String::from_str(text);
    if owned == String::from_str(".inf") || owned == String::from_str("-.inf") || owned
        == String::from_str(".nan") {
        return true;
    }
    let mut digits = false;
    let mut i: usize = 0;
    while i < t.len()
        invariant
            i <= t.len(),
            t@ == text@,
            text@ != ".inf"@,
            text@ != "-.inf"@,
            text@ != ".nan"@,
            forall|j: int| 0 <= j < i ==> is_number_char(#[trigger] t@[j]),
            digits == (exists|j: int| 0 <= j < i && is_digit(#[trigger] t@[j])),
        decreases t.len() - i,
    {
        let c = t[i];
        let digit = digit_at(c);
        if !(digit || c == '+' || c == '-' || c == '.' || c == 'e' || c == 'E') {
            assert(!is_number_char(t@[i as int]));
            return false;
        }
        if digit {
            assert(is_digit(t@[i as int]));
            digits = true;
        }
        i = i + 1;
    }
    digits
}

/// Whether the notation `text` is made of digits and signs alone.
pub fn is_whole(text: &str) -> (b: bool)
    ensures
        b == whole(text@),
{
    let t = chars_of(text);
    let mut i: usize = 0;
    while i < t.len()
        invariant
            i <= t.len(),
            t@ == text@,
            forall|j: int| 0 <= j < i ==> is_whole_char(#[trigger] t@[j]),
        decreases t.len() - i,
    {
        let c = t[i];
        if !(digit_at(c) || c == '+' || c == '-') {
            assert(!is_whole_char(t@[i as int]));
            return false;
        }
        i = i + 1;
    }
    true
}

/// Appends the flow-style text of `v` to `out`.
#[verifier::loop_isolation(false)]
pub fn render_into(out: &mut String, v: &Element)
    ensures
        final(out)@ == old(out)@ + render(v@),
    decreases v,
{
    let ghost start = out@;
    match v {
        Element::Null => {
            out.append("null");
        },
        Element::Bool(b) => {
            if *b {
                out.append("true");
            } else {
                out.append("false");
            }
        },
        Element::Number(t) => {
            if is_plain_number(t.as_str()) {
                out.append(t.as_str());
            } else {
                push_quoted(out, t.as_str());
            }
        },
        Element::Real(t) => {
            if !is_plain_number(t.as_str()) {
                push_quoted(out, t.as_str());
            } else if is_whole(t.as_str()) {
                out.append(t.as_str());
                out.append(".0");
            } else {
                out.append(t.as_str());
            }
        },
        Element::Str(s) => {
            push_quoted(out, s.as_str());
        },
        Element::Sequence(items) => {
            let ghost nodes = nodes_of(*items);
            out.push('[');
            let mut i: usize = 0;
            while i < items.len()
                invariant
                    i <= items.len(),
                    out@ == start + seq!['['] + render_items(nodes, i as int),
                decreases items.len() - i,
            {
                let ghost done = out@;
                if i > 0 {
                    out.append(", ");
                }
                render_into(out, &items[i]);
                proof {
                    assert(nodes[i as int] == items[i as int]@);
                    if i > 0 {
                        assert(out@ =~= start + seq!['['] + render_items(nodes, i + 1));
                    } else {
                        assert(render_items(nodes, 0) =~= Seq::<char>::empty());
                        assert(out@ =~= start + seq!['['] + render_items(nodes, i + 1));
                    }
                }
                i = i + 1;
            }
            out.push(']');
            assert(out@ =~= start + render(v@));
        },
        Element::Mapping(doc) => {
            render_mapping_into(out, doc);
        },
    }
}

/// Appends the flow-style text of the mapping `doc` to `out`.
#[verifier::loop_isolation(false)]
pub fn render_mapping_into(out: &mut String, doc: &Document)
    ensures
        final(out)@ == old(out)@ + render(Node::Dict(doc@)),
    decreases doc,
{
    let ghost start = out@;
    let ghost pairs = pairs_of(doc.entries);
    out.push('{');
    let mut i: usize = 0;
    while i < doc.entries.len()
        invariant
            i <= doc.entries.len(),
            out@ == start + seq!['{'] + render_entries(pairs, i as int),
        decreases doc.entries.len() - i,
    {
        let ghost done = out@;
        if i > 0 {
            out.append(", ");
        }
        render_into(out, &doc.entries[i].key);
        out.append(": ");
        render_into(out, &doc.entries[i].value);
        proof {
            assert(pairs[i as int] == (doc.entries[i as int].key@, doc.entries[i as int].value@));
            if i > 0 {
                assert(out@ =~= start + seq!['{'] + render_entries(pairs, i + 1));
            } else {
                assert(render_entries(pairs, 0) =~= Seq::<char>::empty());
                assert(out@ =~= start + seq!['{'] + render_entries(pairs, i + 1));
            }
        }
        i = i + 1;
    }
    out.push('}');
    assert(out@ =~= start + render(Node::Dict(doc@)));
}

/// The text of `doc` for a configuration file.
pub fn render_document(doc: &Document) -> (text: String)
    ensures
        text@ == document_text(doc@),
{
    let mut text = String::new();
    render_mapping_into(&mut text, doc);
    text.append("\n");
    assert(text@ =~= document_text(doc@));
    text
}

/// The editor's settings as directives: see [`directives`]. Of the fonts
/// only the first is written.
pub fn render_directives(font_size: u8, fonts: &Vec<String>) -> (text: String)
    ensures
        text@ == directives(font_size as nat, names_of(*fonts)),
{
    let mut text = String::new();
    text.append("font:\n");
    text.append("  size: ");
    push_decimal(&mut text, font_size as u64);
    text.append("\n");
    if fonts.len() > 0 {
        text.append("  normal:\n");
        text.append("    family: ");
        push_quoted(&mut text, fonts[0].as_str());
        text.append("\n");
    }
    text.append("key_bindings:\n");
    text.append("  - {key: Z, mods: Control, action: None} \n");
    assert(text@ =~= directives(font_size as nat, names_of(*fonts)));
    text
}

} // verus!
