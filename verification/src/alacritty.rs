//! The Alacritty backend: where its configuration is sought, which settings
//! the editor needs in it, and how the emulator is started.
//!
//! The editor's settings and their policies:
//!
//! * `font.size`, the configured size, and `font.normal.family`, the first
//!   configured font: `Keep`. The user's own terminal configuration wins
//!   field by field; a field that it leaves open is filled in.
//! * `key_bindings`: `Append` of the binding that gives Control-Z no action
//!   in the terminal, so that the key reaches the editor. The user's other
//!   bindings stay.
use vstd::prelude::*;
use crate::command::{ProcessDescriptor, build_command, command_args};
use crate::document::{
    Document, Element, Entry, Node, distinct_keys, has_key, lemma_well_formed_dict, names_of,
    pairs_of, well_formed,
};
use crate::laws::{lemma_merge_keys, reaches, well_formed_rules};
use crate::merge::{Override, Policy, Rule, merge, merged, rules_of};
use crate::render::{directives, document_text, render_directives, render_document};
use crate::text::decimal;
use crate::yaml::{document_in, parse, reads_as, reads_back, yaml_value};
use vstd::utf8::encode_utf8;

verus! {

/// The emulator's executable, as it is sought on the search path.
pub const ALACRITTY_NAME: &'static str = "alacritty";

/// The editor that runs inside the emulator.
pub const NVIM_NAME: &'static str = "nvim";

/// What the launcher was configured with.
#[derive(Debug, PartialEq, Eq)]
pub struct Config {
    pub font_size: u8,
    pub fonts: Vec<String>,
    pub exe_path: Option<String>,
}

/// Why a launch cannot go on.
#[derive(Debug, PartialEq, Eq)]
pub enum GlrnvimError {
    /// The emulator's executable could not be found; the field says what
    /// was sought.
    ExecutableNotFound(String),
    /// The transient configuration file could not be created or written;
    /// the field says why.
    TransientConfig(String),
}

/// Where executable discovery has to look.
#[derive(Debug, PartialEq, Eq)]
pub enum ExeQuery {
    /// At this path, which the configuration gives.
    Explicit(String),
    /// On the system's search path, under this name.
    Search(String),
}

/// What every terminal backend can do: build the command that starts its
/// emulator with the editor in it.
pub trait Functions {
    /// The emulator's executable.
    spec fn program(&self) -> Seq<char>;

    /// The emulator's arguments for a configuration file and a working
    /// directory.
    spec fn arguments(&self, conf_path: Seq<char>, working_dir: Option<Seq<char>>) -> Seq<
        Seq<char>,
    >;

    /// The command that starts the emulator on the transient configuration
    /// file at `conf_path`. `working_dir` is the launcher's current
    /// directory where it could be determined.
    fn create_command(&mut self, conf_path: &str, working_dir: Option<&str>) -> (r:
        ProcessDescriptor)
        ensures
            final(self).program() == old(self).program(),
            r.program@ == old(self).program(),
            names_of(r.args) == old(self).arguments(
                conf_path@,
                match working_dir {
                    Some(dir) => Some(dir@),
                    None => None,
                },
            ),
            r.working_dir is None,
    ;
}

/// The backend for one launch: the resolved executable, and the transient
/// configuration file once it is written.
#[derive(Debug, PartialEq, Eq)]
pub struct Alacritty {
    pub exe_path: String,
    pub conf_path: Option<String>,
}

/// What is sought for a configuration: its explicit path where it has one,
/// the emulator's name otherwise.
pub open spec fn sought(exe_path: Option<String>) -> Seq<char> {
    match exe_path {
        Some(path) => path@,
        None => ALACRITTY_NAME@,
    }
}

/// The message of an error.
pub open spec fn message(e: GlrnvimError) -> Seq<char> {
    match e {
        GlrnvimError::ExecutableNotFound(what) => "'"@ + what@ + "' executable not found"@,
        GlrnvimError::TransientConfig(why) => "cannot write the terminal configuration: "@ + why@,
    }
}

/// The key binding that gives Control-Z no action.
pub open spec fn suspend_binding() -> Node {
    Node::Dict(
        seq![
            (Node::Str("key"@), Node::Str("Z"@)),
            (Node::Str("mods"@), Node::Str("Control"@)),
            (Node::Str("action"@), Node::Str("None"@)),
        ],
    )
}

/// The override of the font size.
pub open spec fn size_rule(font_size: nat) -> Rule {
    Rule {
        path: seq!["font"@, "size"@],
        value: Node::Number(decimal(font_size)),
        policy: Policy::Keep,
    }
}

/// The override of the font family.
pub open spec fn family_rule(family: Seq<char>) -> Rule {
    Rule {
        path: seq!["font"@, "normal"@, "family"@],
        value: Node::Str(family),
        policy: Policy::Keep,
    }
}

/// The override of the key bindings.
pub open spec fn binding_rule() -> Rule {
    Rule { path: seq!["key_bindings"@], value: suspend_binding(), policy: Policy::Append }
}

/// The editor's overrides for a font size and a list of fonts, of which
/// only the first is used.
pub open spec fn override_rules(font_size: nat, fonts: Seq<Seq<char>>) -> Seq<Rule> {
    if fonts.len() > 0 {
        seq![size_rule(font_size), family_rule(fonts[0]), binding_rule()]
    } else {
        seq![size_rule(font_size), binding_rule()]
    }
}

/// The document that the transient configuration stands for: the base with
/// the editor's overrides merged in.
pub open spec fn intended(font_size: nat, fonts: Seq<Seq<char>>, base: Seq<(Node, Node)>) -> Seq<
    (Node, Node),
> {
    merged(base, override_rules(font_size, fonts), override_rules(font_size, fonts).len() as int)
}

/// Whether `text`, written to a file, is read by the parser as the document
/// `entries`.
pub open spec fn faithful(text: Seq<char>, entries: Seq<(Node, Node)>) -> bool {
    reads_as(encode_utf8(text), entries)
}

/// The text of the transient configuration, where there is one that the
/// parser reads back as what it stands for. With a user document it is the
/// flow-style text of the merged document; without one, or where that text
/// is not read back as the merged document, it is the directives, which
/// stand for the overrides merged into the empty document.
pub open spec fn conf_text(
    font_size: nat,
    fonts: Seq<Seq<char>>,
    base: Option<Seq<(Node, Node)>>,
) -> Option<Seq<char>> {
    let plain = directives(font_size, fonts);
    let fallback = if faithful(plain, intended(font_size, fonts, Seq::empty())) {
        Some(plain)
    } else {
        None
    };
    match base {
        None => fallback,
        Some(entries) => {
            let flow = document_text(intended(font_size, fonts, entries));
            if faithful(flow, intended(font_size, fonts, entries)) {
                Some(flow)
            } else {
                fallback
            }
        },
    }
}

impl GlrnvimError {
    /// The message of this error.
    pub fn describe(&self) -> (s: String)
        ensures
            s@ == message(*self),
    {
        match self {
            GlrnvimError::ExecutableNotFound(what) => {
                let mut s = String::from_str("'");
                s.append(what.as_str());
                s.append("' executable not found");
                s
            },
            GlrnvimError::TransientConfig(why) => {
                let mut s = String::from_str("cannot write the terminal configuration: ");
                s.append(why.as_str());
                s
            },
        }
    }
}

/// The templates of the places where the user's own configuration is
/// sought first.
pub fn primary_candidates() -> (list: Vec<String>)
    ensures
        names_of(list) == seq![
            "$XDG_CONFIG_HOME/alacritty/alacritty.yml"@,
            "$HOME/.config/alacritty/alacritty.yml"@,
            "$XDG_CONFIG_DIRS/alacritty/alacritty.yml"@,
        ],
{
    let mut list: Vec<String> = Vec::new();
    list.push(String::from_str("$XDG_CONFIG_HOME/alacritty/alacritty.yml"));
    list.push(String::from_str("$HOME/.config/alacritty/alacritty.yml"));
    list.push(String::from_str("$XDG_CONFIG_DIRS/alacritty/alacritty.yml"));
    assert(names_of(list) =~= seq![
        "$XDG_CONFIG_HOME/alacritty/alacritty.yml"@,
        "$HOME/.config/alacritty/alacritty.yml"@,
        "$XDG_CONFIG_DIRS/alacritty/alacritty.yml"@,
    ]);
    list
}

/// The templates of the places sought after the primary ones: none.
pub fn fallback_candidates() -> (list: Vec<String>)
    ensures
        list@.len() == 0,
{
    Vec::new()
}

/// Where executable discovery has to look for `config`.
pub fn exe_query(config: &Config) -> (q: ExeQuery)
    ensures
        match q {
            ExeQuery::Explicit(path) => config.exe_path is Some && path@ == sought(config.exe_path),
            ExeQuery::Search(name) => config.exe_path is None && name@ == ALACRITTY_NAME@,
        },
{
    match &config.exe_path {
        Some(path) => ExeQuery::Explicit(path.clone()),
        None => ExeQuery::Search(String::from_str(ALACRITTY_NAME)),
    }
}

/// Starts the backend on the outcome of executable discovery: `resolved` is
/// the executable that was found for [`exe_query`], if any. Without an
/// executable there is no backend, and the error names what was sought.
pub fn init(config: &Config, resolved: Option<String>) -> (r: Result<Alacritty, GlrnvimError>)
    ensures
        match r {
            Ok(backend) => {
                &&& resolved matches Some(path)
                &&& backend.exe_path@ == path@
                &&& backend.conf_path is None
            },
            Err(e) => {
                &&& resolved is None
                &&& e matches GlrnvimError::ExecutableNotFound(what)
                &&& what@ == sought(config.exe_path)
            },
        },
{
    match resolved {
        Some(path) => Ok(Alacritty { exe_path: path, conf_path: None }),
        None => {
            let what = match &config.exe_path {
                Some(path) => path.clone(),
                None => String::from_str(ALACRITTY_NAME),
            };
            Err(GlrnvimError::ExecutableNotFound(what))
        },
    }
}

fn text_entry(key: &str, value: &str) -> (e: Entry)
    ensures
        e.key@ == Node::Str(key@),
        e.value@ == Node::Str(value@),
{
    Entry { key: Element::string(key), value: Element::string(value) }
}

fn path_of_two(first: &str, second: &str) -> (path: Vec<String>)
    ensures
        names_of(path) == seq![first@, second@],
{
    let mut path: Vec<String> = Vec::new();
    path.push(String::from_str(first));
    path.push(String::from_str(second));
    assert(names_of(path) =~= seq![first@, second@]);
    path
}

/// The values of the editor's overrides are well formed.
pub proof fn lemma_override_rules_well_formed(font_size: nat, fonts: Seq<Seq<char>>)
    ensures
        well_formed_rules(
            override_rules(font_size, fonts),
            override_rules(font_size, fonts).len() as int,
        ),
{
    reveal_strlit("key");
    reveal_strlit("mods");
    reveal_strlit("action");
    let pairs = suspend_binding()->Dict_0;
    assert("key"@.len() == 3 && "mods"@.len() == 4 && "action"@.len() == 6);
    assert(pairs[0].0 != pairs[1].0 && pairs[0].0 != pairs[2].0 && pairs[1].0 != pairs[2].0);
    assert(distinct_keys(pairs));
    lemma_well_formed_dict(pairs);
    assert forall|i: int| 0 <= i < pairs.len() implies well_formed((#[trigger] pairs[i]).0)
        && well_formed(pairs[i].1) by {
        if i == 0 {
        } else if i == 1 {
        } else {
        }
    }
    assert(well_formed(suspend_binding()));
}

/// The editor's overrides for `config`.
pub fn overrides(config: &Config) -> (list: Vec<Override>)
    ensures
        rules_of(list) == override_rules(config.font_size as nat, names_of(config.fonts)),
        well_formed_rules(rules_of(list), list.len() as int),
{
    proof {
        lemma_override_rules_well_formed(config.font_size as nat, names_of(config.fonts));
    }
    let ghost size = config.font_size as nat;
    let ghost fonts = names_of(config.fonts);
    let mut list: Vec<Override> = Vec::new();
    let first = Override {
        path: path_of_two("font", "size"),
        value: Element::number(config.font_size as u64),
        policy: Policy::Keep,
    };
    assert(first@ == size_rule(size));
    list.push(first);
    if config.fonts.len() > 0 {
        let mut path = path_of_two("font", "normal");
        let ghost parent = names_of(path);
        path.push(String::from_str("family"));
        assert(names_of(path) =~= parent.push("family"@));
        assert(names_of(path) =~= seq!["font"@, "normal"@, "family"@]);
        let second = Override {
            path,
            value: Element::string(config.fonts[0].as_str()),
            policy: Policy::Keep,
        };
        assert(fonts[0] == config.fonts[0]@);
        assert(second@ == family_rule(fonts[0]));
        list.push(second);
    }
    let mut entries: Vec<Entry> = Vec::new();
    entries.push(text_entry("key", "Z"));
    entries.push(text_entry("mods", "Control"));
    entries.push(text_entry("action", "None"));
    assert(pairs_of(entries) =~= suspend_binding()->Dict_0);
    let binding = Element::Mapping(Document { entries });
    let mut path: Vec<String> = Vec::new();
    path.push(String::from_str("key_bindings"));
    assert(names_of(path) =~= seq!["key_bindings"@]);
    let last = Override { path, value: binding, policy: Policy::Append };
    assert(last@ == binding_rule());
    let ghost before = rules_of(list);
    list.push(last);
    assert(rules_of(list) =~= before.push(binding_rule()));
    assert(rules_of(list) =~= override_rules(size, fonts));
    list
}

/// The top-level keys of the document that the transient configuration
/// stands for are exactly those of the base, `font` and `key_bindings`.
pub proof fn lemma_intended_keys(
    font_size: nat,
    fonts: Seq<Seq<char>>,
    base: Seq<(Node, Node)>,
    key: Node,
)
    ensures
        has_key(intended(font_size, fonts, base), key) <==> has_key(base, key) || key == Node::Str(
            "font"@,
        ) || key == Node::Str("key_bindings"@),
{
    let rules = override_rules(font_size, fonts);
    let n = rules.len() as int;
    lemma_merge_keys(base, rules, n, key);
    assert(reaches(rules[0], Node::Str("font"@)));
    assert(reaches(rules[n - 1], Node::Str("key_bindings"@)));
    if fonts.len() > 0 {
        assert(reaches(rules[1], Node::Str("font"@)));
    }
}

/// The text that the directives give where no flow-style text is at hand.
fn fallback_text(config: &Config) -> (r: Result<String, GlrnvimError>)
    ensures
        match r {
            Ok(text) => conf_text(config.font_size as nat, names_of(config.fonts), None) == Some(
                text@,
            ),
            Err(e) => conf_text(config.font_size as nat, names_of(config.fonts), None) is None
                && e is TransientConfig,
        },
{
    let text = render_directives(config.font_size, &config.fonts);
    let stands_for = merge(&Document::new(), &overrides(config));
    if reads_back(text.as_str().as_bytes(), &stands_for) {
        Ok(text)
    } else {
        Err(GlrnvimError::TransientConfig(String::from_str("the directives do not read back")))
    }
}

/// The text of the transient configuration for `config`, given the user's
/// document where a configuration file was found: see [`conf_text`]. A text
/// is handed out only if the parser reads it back as the document that it
/// stands for; where none is, the launch cannot go on.
pub fn conf_text_for(config: &Config, base: Option<&Document>) -> (r: Result<String, GlrnvimError>)
    ensures
        match r {
            Ok(text) => {
                &&& conf_text(
                    config.font_size as nat,
                    names_of(config.fonts),
                    match base {
                        Some(doc) => Some(doc@),
                        None => None,
                    },
                ) == Some(text@)
                &&& faithful(
                    text@,
                    intended(
                        config.font_size as nat,
                        names_of(config.fonts),
                        match base {
                            Some(doc) => doc@,
                            None => Seq::empty(),
                        },
                    ),
                ) || faithful(
                    text@,
                    intended(config.font_size as nat, names_of(config.fonts), Seq::empty()),
                )
            },
            Err(e) => {
                &&& conf_text(
                    config.font_size as nat,
                    names_of(config.fonts),
                    match base {
                        Some(doc) => Some(doc@),
                        None => None,
                    },
                ) is None
                &&& e is TransientConfig
            },
        },
{
    match base {
        None => fallback_text(config),
        Some(doc) => {
            let stands_for = merge(doc, &overrides(config));
            let text = render_document(&stands_for);
            if reads_back(text.as_str().as_bytes(), &stands_for) {
                Ok(text)
            } else {
                fallback_text(config)
            }
        },
    }
}

/// The text of the transient configuration for `config`, given the bytes of
/// the user's configuration file where one was found. A file that cannot be
/// parsed counts as an empty document.
pub fn create_conf_text(config: &Config, found: Option<&[u8]>) -> (r: Result<String, GlrnvimError>)
    ensures
        match r {
            Ok(text) => conf_text(
                config.font_size as nat,
                names_of(config.fonts),
                match found {
                    Some(bytes) => Some(document_in(yaml_value(bytes@))),
                    None => None,
                },
            ) == Some(text@),
            Err(e) => {
                &&& conf_text(
                    config.font_size as nat,
                    names_of(config.fonts),
                    match found {
                        Some(bytes) => Some(document_in(yaml_value(bytes@))),
                        None => None,
                    },
                ) is None
                &&& e is TransientConfig
            },
        },
{
    match found {
        None => conf_text_for(config, None),
        Some(bytes) => {
            let doc = parse(bytes);
            conf_text_for(config, Some(&doc))
        },
    }
}

impl Functions for Alacritty {
    open spec fn program(&self) -> Seq<char> {
        self.exe_path@
    }

    open spec fn arguments(&self, conf_path: Seq<char>, working_dir: Option<Seq<char>>) -> Seq<
        Seq<char>,
    > {
        command_args(conf_path, working_dir, NVIM_NAME@)
    }

    /// Builds the command with [`build_command`], for the editor
    /// [`NVIM_NAME`], and keeps the path of the configuration file for as
    /// long as the backend lives.
    fn create_command(&mut self, conf_path: &str, working_dir: Option<&str>) -> (r:
        ProcessDescriptor)
        ensures
            final(self).exe_path == old(self).exe_path,
            final(self).conf_path matches Some(kept) && kept@ == conf_path@,
    {
        self.conf_path = Some(String::from_str(conf_path));
        build_command(self.exe_path.as_str(), conf_path, working_dir, NVIM_NAME)
    }
}

} // verus!
