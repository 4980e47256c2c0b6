use glrnvim::alacritty::{
    conf_text_for, create_conf_text, exe_query, fallback_candidates, init, overrides,
    primary_candidates, Alacritty, Config, ExeQuery, Functions, GlrnvimError, ALACRITTY_NAME,
    NVIM_NAME,
};
use glrnvim::command::{build_command, CLASS_NAME};
use glrnvim::document::{Document, Element};
use glrnvim::merge::{merge, Policy};
use glrnvim::render::{is_plain_number, is_whole, render_directives, render_document, render_into};
use glrnvim::yaml::{document_from, parse, reads_back};

fn path(names: &[&str]) -> Vec<String> {
    names.iter().map(|s| s.to_string()).collect()
}

fn config(font_size: u8, fonts: &[&str]) -> Config {
    Config { font_size, fonts: fonts.iter().map(|s| s.to_string()).collect(), exe_path: None }
}

fn rendered(value: &Element) -> String {
    let mut out = String::new();
    render_into(&mut out, value);
    out
}

fn suspend_binding() -> Element {
    let mut binding = Document::new();
    binding.insert("key", Element::string("Z"));
    binding.insert("mods", Element::string("Control"));
    binding.insert("action", Element::string("None"));
    Element::Mapping(binding)
}

#[test]
fn directives_without_user_configuration() {
    let text = create_conf_text(&config(14, &["Fira Code"]), None).unwrap();
    assert_eq!(
        text,
        "font:\n  size: 14\n  normal:\n    family: \"Fira Code\"\nkey_bindings:\n  - {key: Z, mods: Control, action: None} \n"
    );
    let doc = parse(text.as_bytes());
    assert_eq!(doc.lookup(&path(&["font", "size"]), 0), Some(&Element::number(14)));
    assert_eq!(
        doc.lookup(&path(&["font", "normal", "family"]), 0),
        Some(&Element::string("Fira Code"))
    );
    assert_eq!(doc.get("key_bindings"), Some(&Element::Sequence(vec![suspend_binding()])));
    assert_eq!(doc.len(), 2);
}

#[test]
fn directives_without_fonts_omit_the_family() {
    let text = create_conf_text(&config(12, &[]), None).unwrap();
    assert_eq!(
        text,
        "font:\n  size: 12\nkey_bindings:\n  - {key: Z, mods: Control, action: None} \n"
    );
    assert_eq!(text, render_directives(12, &vec![]));
    let doc = parse(text.as_bytes());
    assert_eq!(doc.lookup(&path(&["font", "size"]), 0), Some(&Element::number(12)));
    assert_eq!(doc.lookup(&path(&["font", "normal"]), 0), None);
    assert_eq!(doc.get("key_bindings"), Some(&Element::Sequence(vec![suspend_binding()])));
}

#[test]
fn directives_use_the_first_font_only() {
    let fonts = vec!["Hack".to_string(), "Noto \"Emoji\"".to_string()];
    assert_eq!(
        render_directives(9, &fonts),
        "font:\n  size: 9\n  normal:\n    family: \"Hack\"\nkey_bindings:\n  - {key: Z, mods: Control, action: None} \n"
    );
    let fonts = vec!["Noto \"Emoji\"".to_string()];
    let text = render_directives(255, &fonts);
    assert!(text.contains("    family: \"Noto \\\"Emoji\\\"\"\n"));
    assert!(text.contains("  size: 255\n"));
    assert_eq!(
        parse(text.as_bytes()).lookup(&path(&["font", "normal", "family"]), 0),
        Some(&Element::string("Noto \"Emoji\""))
    );
}

#[test]
fn parse_reads_a_mapping() {
    let doc = parse(b"font:\n  size: 11\n  offset: {x: 1, y: -2}\nlive: true\nnone: ~\nratio: 1.5\nlist:\n  - a\n  - 2\n");
    assert_eq!(doc.len(), 5);
    assert_eq!(doc.lookup(&path(&["font", "size"]), 0), Some(&Element::Number("11".to_string())));
    assert_eq!(
        doc.lookup(&path(&["font", "offset", "y"]), 0),
        Some(&Element::Number("-2".to_string()))
    );
    assert_eq!(doc.get("live"), Some(&Element::Bool(true)));
    assert_eq!(doc.get("none"), Some(&Element::Null));
    assert_eq!(doc.get("ratio"), Some(&Element::Real("1.5".to_string())));
    assert_eq!(
        doc.get("list"),
        Some(&Element::Sequence(vec![Element::string("a"), Element::number(2)]))
    );
    let keys: Vec<&Element> = doc.entries.iter().map(|e| &e.key).collect();
    assert_eq!(
        keys,
        vec![
            &Element::string("font"),
            &Element::string("live"),
            &Element::string("none"),
            &Element::string("ratio"),
            &Element::string("list"),
        ]
    );
}

#[test]
fn malformed_content_gives_the_empty_document() {
    let inputs: Vec<&[u8]> = vec![
        b"font: [unclosed",
        b"a: b: c: d",
        b"{",
        b"\xff\xfe\x00",
        b"",
        b"- just\n- a list\n",
        b"scalar",
        b"42",
        b"~",
        b"a: 1\n---\nb: 2\n",
    ];
    for input in inputs {
        let doc = parse(input);
        assert!(doc.is_empty());
        assert_eq!(doc, Document::new());
    }
}

#[test]
fn document_from_takes_a_mapping_only() {
    let mut doc = Document::new();
    doc.insert("a", Element::number(1));
    assert_eq!(document_from(Some(Element::Mapping(doc.duplicate()))), doc);
    assert_eq!(document_from(None), Document::new());
    assert_eq!(document_from(Some(Element::Null)), Document::new());
    assert_eq!(document_from(Some(Element::Sequence(vec![Element::Mapping(doc)]))), Document::new());
    let twice = Document {
        entries: vec![
            glrnvim::document::Entry { key: Element::string("a"), value: Element::number(1) },
            glrnvim::document::Entry { key: Element::string("a"), value: Element::number(2) },
        ],
    };
    assert_eq!(document_from(Some(Element::Mapping(twice))), Document::new());
    assert!(parse(b"a: 1\na: 2\n").is_well_formed());
    assert!(parse(b"a: {b: 1, c: [{d: 1}]}\n").is_well_formed());
}

#[test]
fn flow_text_of_each_kind() {
    assert_eq!(rendered(&Element::Null), "null");
    assert_eq!(rendered(&Element::Bool(true)), "true");
    assert_eq!(rendered(&Element::Bool(false)), "false");
    assert_eq!(rendered(&Element::number(14)), "14");
    assert_eq!(rendered(&Element::Number("-1.5e3".to_string())), "-1.5e3");
    assert_eq!(rendered(&Element::Number(".inf".to_string())), ".inf");
    assert_eq!(rendered(&Element::Real("0.9".to_string())), "0.9");
    assert_eq!(rendered(&Element::Real("1".to_string())), "1.0");
    assert_eq!(rendered(&Element::Real("-0".to_string())), "-0.0");
    assert_eq!(rendered(&Element::Real(".nan".to_string())), ".nan");
    assert_eq!(rendered(&Element::Real("-.inf".to_string())), "-.inf");
    assert_eq!(rendered(&Element::Real("one".to_string())), "\"one\"");
    assert_eq!(rendered(&Element::Number("a: b".to_string())), "\"a: b\"");
    assert_eq!(rendered(&Element::string("14")), "\"14\"");
    assert_eq!(rendered(&Element::Sequence(vec![])), "[]");
    assert_eq!(rendered(&Element::Mapping(Document::new())), "{}");
    assert_eq!(
        rendered(&Element::Sequence(vec![Element::number(1), Element::Null, Element::string("x")])),
        "[1, null, \"x\"]"
    );
    assert_eq!(
        rendered(&suspend_binding()),
        "{\"key\": \"Z\", \"mods\": \"Control\", \"action\": \"None\"}"
    );
    let mut out = String::from("x: ");
    render_into(&mut out, &Element::Sequence(vec![Element::Sequence(vec![Element::Bool(true)])]));
    assert_eq!(out, "x: [[true]]");
}

#[test]
fn plain_numbers_need_a_digit() {
    for text in ["0", "14", "-2", "+3", "1.5", "1e9", "6.02E23", ".5", ".inf", "-.inf", ".nan"] {
        assert!(is_plain_number(text));
    }
    for text in ["", "-", ".", "e", "+-", "1 2", "0x1f", "1,5", "nan", "inf", ".INF", "1\n"] {
        assert!(!is_plain_number(text));
    }
}

#[test]
fn whole_notations_have_digits_and_signs_only() {
    for text in ["", "0", "-12", "+7", "1000000000000000000000"] {
        assert!(is_whole(text));
    }
    for text in ["1.0", "1e5", ".inf", "1 ", "x"] {
        assert!(!is_whole(text));
    }
}

#[test]
fn reals_stay_reals_and_keys_stay_apart() {
    let doc = parse(b"1: int\n1.0: real\nopacity: 1.0\nbig: 1e21\nsmall: 1.0e-7\nnan: .nan\ninf: [.inf, -.inf]\n");
    assert_eq!(doc.len(), 7);
    assert_eq!(doc.entries[0].key, Element::Number("1".to_string()));
    assert_eq!(doc.entries[1].key, Element::Real("1".to_string()));
    assert_eq!(doc.get("opacity"), Some(&Element::Real("1".to_string())));
    assert_eq!(doc.get("big"), Some(&Element::Real("1000000000000000000000".to_string())));
    assert_eq!(doc.get("small"), Some(&Element::Real("0.0000001".to_string())));
    assert_eq!(doc.get("nan"), Some(&Element::Real(".nan".to_string())));
    let text = render_document(&doc);
    assert_eq!(
        text,
        "{1: \"int\", 1.0: \"real\", \"opacity\": 1.0, \"big\": 1000000000000000000000.0, \"small\": 0.0000001, \"nan\": .nan, \"inf\": [.inf, -.inf]}\n"
    );
    assert_eq!(parse(text.as_bytes()), doc);
}

#[test]
fn document_text_is_one_line() {
    assert_eq!(render_document(&Document::new()), "{}\n");
    let mut font = Document::new();
    font.insert("size", Element::number(14));
    let mut doc = Document::new();
    doc.insert("font", Element::Mapping(font));
    doc.insert("key_bindings", Element::Sequence(vec![suspend_binding()]));
    assert_eq!(
        render_document(&doc),
        "{\"font\": {\"size\": 14}, \"key_bindings\": [{\"key\": \"Z\", \"mods\": \"Control\", \"action\": \"None\"}]}\n"
    );
}

#[test]
fn rendered_text_parses_back_to_the_document() {
    let user = b"# user settings\nfont:\n  size: 11\n  offset:\n    x: 1\nshell:\n  program: /bin/zsh\n  args: [\"-l\", \"it's\"]\nwindow:\n  opacity: 0.9\n  title: \"say \\\"hi\\\"\\n\"\n  dynamic: false\n  none: ~\nkey_bindings:\n  - {key: V, mods: Control, action: Paste}\n1: one\ntrue: yes\nunicode: \"h\xc3\xa9 \xe2\x86\x92 \xf0\x9f\x98\x80\"\n";
    let base = parse(user);
    assert_eq!(base.len(), 7);
    let merged = merge(&base, &overrides(&config(14, &["Fira Code"])));
    let text = render_document(&merged);
    assert!(text.is_ascii());
    let back = parse(text.as_bytes());
    assert!(back.same(&merged));
    assert_eq!(back, merged);

    let keys: Vec<&Element> = back.entries.iter().map(|e| &e.key).collect();
    assert_eq!(
        keys,
        vec![
            &Element::string("font"),
            &Element::string("shell"),
            &Element::string("window"),
            &Element::string("key_bindings"),
            &Element::number(1),
            &Element::Bool(true),
            &Element::string("unicode"),
        ]
    );
    assert_eq!(back.lookup(&path(&["font", "size"]), 0), Some(&Element::number(11)));
    assert_eq!(
        back.lookup(&path(&["font", "normal", "family"]), 0),
        Some(&Element::string("Fira Code"))
    );
    assert_eq!(back.get("shell"), base.get("shell"));
    assert_eq!(back.get("window"), base.get("window"));
    assert_eq!(back.get("unicode"), Some(&Element::string("hé → 😀")));
    let mut paste = Document::new();
    paste.insert("key", Element::string("V"));
    paste.insert("mods", Element::string("Control"));
    paste.insert("action", Element::string("Paste"));
    assert_eq!(
        back.get("key_bindings"),
        Some(&Element::Sequence(vec![Element::Mapping(paste), suspend_binding()]))
    );
}

#[test]
fn overrides_of_a_configuration() {
    let list = overrides(&config(14, &["Fira Code", "Hack"]));
    assert_eq!(list.len(), 3);
    assert_eq!(list[0].path, path(&["font", "size"]));
    assert_eq!(list[0].value, Element::number(14));
    assert_eq!(list[0].policy, Policy::Keep);
    assert_eq!(list[1].path, path(&["font", "normal", "family"]));
    assert_eq!(list[1].value, Element::string("Fira Code"));
    assert_eq!(list[1].policy, Policy::Keep);
    assert_eq!(list[2].path, path(&["key_bindings"]));
    assert_eq!(list[2].value, suspend_binding());
    assert_eq!(list[2].policy, Policy::Append);

    let list = overrides(&config(0, &[]));
    assert_eq!(list.len(), 2);
    assert_eq!(list[0].value, Element::number(0));
    assert_eq!(list[1].path, path(&["key_bindings"]));
}

#[test]
fn configuration_text_with_a_user_document() {
    let text = create_conf_text(&config(14, &["Fira Code"]), Some(b"font:\n  size: 11\n")).unwrap();
    assert_eq!(
        text,
        "{\"font\": {\"size\": 11, \"normal\": {\"family\": \"Fira Code\"}}, \"key_bindings\": [{\"key\": \"Z\", \"mods\": \"Control\", \"action\": \"None\"}]}\n"
    );
    let text = create_conf_text(&config(14, &[]), Some(b"not: [valid")).unwrap();
    assert_eq!(
        text,
        "{\"font\": {\"size\": 14}, \"key_bindings\": [{\"key\": \"Z\", \"mods\": \"Control\", \"action\": \"None\"}]}\n"
    );
    let empty = Document::new();
    assert_eq!(conf_text_for(&config(14, &[]), Some(&empty)), Ok(text));
    assert_eq!(conf_text_for(&config(14, &[]), None), Ok(render_directives(14, &vec![])));
}

#[test]
fn command_with_a_working_directory() {
    let d = build_command("/usr/bin/alacritty", "/tmp/.tmpAbC", Some("/home/u/src"), "nvim");
    assert_eq!(d.program, "/usr/bin/alacritty");
    assert_eq!(
        d.args,
        vec![
            "--config-file",
            "/tmp/.tmpAbC",
            "--class",
            "glrnvim",
            "--working-directory",
            "/home/u/src",
            "-e",
            "nvim",
            "+set termguicolors",
            "+set title",
        ]
    );
    assert_eq!(d.working_dir, None);
}

#[test]
fn command_without_a_working_directory() {
    let d = build_command("alacritty", "/tmp/c.yml", None, "nvim");
    assert_eq!(d.program, "alacritty");
    assert_eq!(
        d.args,
        vec![
            "--config-file",
            "/tmp/c.yml",
            "--class",
            "glrnvim",
            "-e",
            "nvim",
            "+set termguicolors",
            "+set title",
        ]
    );
    assert!(!d.args.iter().any(|a| a == "--working-directory"));
    assert_eq!(d.working_dir, None);
}

#[test]
fn required_flags_are_always_there() {
    for cwd in [None, Some("/w"), Some("")] {
        let d = build_command("e", "c", cwd, "i");
        for flag in ["--config-file", "--class", "-e"] {
            assert_eq!(d.args.iter().filter(|a| a.as_str() == flag).count(), 1);
        }
        assert_eq!(d.args.len(), if cwd.is_some() { 10 } else { 8 });
    }
    assert_eq!(CLASS_NAME, "glrnvim");
}

#[test]
fn init_needs_an_executable() {
    let mut c = config(12, &[]);
    assert_eq!(
        init(&c, Some("/usr/bin/alacritty".to_string())),
        Ok(Alacritty { exe_path: "/usr/bin/alacritty".to_string(), conf_path: None })
    );
    assert_eq!(init(&c, None), Err(GlrnvimError::ExecutableNotFound("alacritty".to_string())));
    assert_eq!(exe_query(&c), ExeQuery::Search("alacritty".to_string()));

    c.exe_path = Some("/opt/alacritty".to_string());
    assert_eq!(init(&c, None), Err(GlrnvimError::ExecutableNotFound("/opt/alacritty".to_string())));
    assert_eq!(exe_query(&c), ExeQuery::Explicit("/opt/alacritty".to_string()));
    assert_eq!(
        init(&c, Some("/opt/alacritty".to_string())),
        Ok(Alacritty { exe_path: "/opt/alacritty".to_string(), conf_path: None })
    );
    assert_eq!(ALACRITTY_NAME, "alacritty");
    assert_eq!(NVIM_NAME, "nvim");
}

#[test]
fn errors_describe_themselves() {
    assert_eq!(
        GlrnvimError::ExecutableNotFound("alacritty".to_string()).describe(),
        "'alacritty' executable not found"
    );
    assert_eq!(
        GlrnvimError::TransientConfig("disk full".to_string()).describe(),
        "cannot write the terminal configuration: disk full"
    );
}

#[test]
fn candidate_templates_of_the_backend() {
    assert_eq!(
        primary_candidates(),
        vec![
            "$XDG_CONFIG_HOME/alacritty/alacritty.yml",
            "$HOME/.config/alacritty/alacritty.yml",
            "$XDG_CONFIG_DIRS/alacritty/alacritty.yml",
        ]
    );
    assert_eq!(fallback_candidates(), Vec::<String>::new());
}

#[test]
fn backend_builds_the_launch_command() {
    let mut backend = init(&config(14, &["Fira Code"]), Some("/usr/bin/alacritty".to_string())).unwrap();
    let d = backend.create_command("/tmp/.tmp123", Some("/home/u"));
    assert_eq!(backend.conf_path, Some("/tmp/.tmp123".to_string()));
    assert_eq!(backend.exe_path, "/usr/bin/alacritty");
    assert_eq!(d.program, "/usr/bin/alacritty");
    assert_eq!(
        d.args,
        vec![
            "--config-file",
            "/tmp/.tmp123",
            "--class",
            "glrnvim",
            "--working-directory",
            "/home/u",
            "-e",
            "nvim",
            "+set termguicolors",
            "+set title",
        ]
    );
    let d = backend.create_command("/tmp/.tmp456", None);
    assert_eq!(backend.conf_path, Some("/tmp/.tmp456".to_string()));
    assert_eq!(
        d.args,
        vec![
            "--config-file",
            "/tmp/.tmp456",
            "--class",
            "glrnvim",
            "-e",
            "nvim",
            "+set termguicolors",
            "+set title",
        ]
    );
}

#[test]
fn reads_back_wants_the_same_mapping() {
    let mut doc = Document::new();
    doc.insert("a", Element::number(1));
    doc.insert("b", Element::string("x"));
    assert!(reads_back(b"a: 1\nb: x\n", &doc));
    assert!(reads_back(b"{\"a\": 1, \"b\": \"x\"}\n", &doc));
    assert!(reads_back(render_document(&doc).as_bytes(), &doc));
    assert!(!reads_back(b"b: x\na: 1\n", &doc));
    assert!(!reads_back(b"a: 1\n", &doc));
    assert!(!reads_back(b"a: 1\nb: y\n", &doc));
    assert!(!reads_back(b"a: \"1\"\nb: x\n", &doc));
    assert!(!reads_back(b"a: [1", &doc));
    assert!(!reads_back(b"", &Document::new()));
    assert!(!reads_back(b"~", &Document::new()));
    assert!(reads_back(b"{}", &Document::new()));
}

#[test]
fn directives_stand_for_the_overrides_alone() {
    for (size, fonts) in [(14, vec!["Fira Code"]), (0, vec![]), (255, vec!["a\"b\\c", "Hack"])] {
        let c = config(size, &fonts);
        let text = render_directives(c.font_size, &c.fonts);
        let stands_for = merge(&Document::new(), &overrides(&c));
        assert!(reads_back(text.as_bytes(), &stands_for));
        assert_eq!(parse(text.as_bytes()), stands_for);
        assert_eq!(conf_text_for(&c, None), Ok(text));
    }
}

#[test]
fn a_text_that_does_not_read_back_gives_way_to_the_directives() {
    let c = config(14, &["Fira Code"]);
    let mut odd = Document::new();
    odd.insert("scale", Element::Number("1e".to_string()));
    let merged = merge(&odd, &overrides(&c));
    let flow = render_document(&merged);
    assert!(flow.starts_with("{\"scale\": 1e, "));
    assert!(!reads_back(flow.as_bytes(), &merged));
    assert_eq!(conf_text_for(&c, Some(&odd)), Ok(render_directives(14, &c.fonts)));

    let mut fine = Document::new();
    fine.insert("scale", Element::Real("1".to_string()));
    let merged = merge(&fine, &overrides(&c));
    assert_eq!(conf_text_for(&c, Some(&fine)), Ok(render_document(&merged)));
    assert!(reads_back(render_document(&merged).as_bytes(), &merged));
}

#[test]
fn handed_out_text_has_the_keys_of_base_and_overrides() {
    let c = config(14, &["Fira Code"]);
    let text = create_conf_text(&c, Some(b"shell: zsh\nfont: {size: 9}\n")).unwrap();
    let back = parse(text.as_bytes());
    let keys: Vec<&Element> = back.entries.iter().map(|e| &e.key).collect();
    assert_eq!(
        keys,
        vec![&Element::string("shell"), &Element::string("font"), &Element::string("key_bindings")]
    );
    assert_eq!(back.get("shell"), Some(&Element::string("zsh")));
    assert_eq!(back.lookup(&path(&["font", "size"]), 0), Some(&Element::number(9)));
}
