use glrnvim::locate::{candidate_paths, expand_env, listed, locate, lookup_variable};

fn env(pairs: &[(&str, &str)]) -> Vec<(String, String)> {
    pairs.iter().map(|(k, v)| (k.to_string(), v.to_string())).collect()
}

fn list(items: &[&str]) -> Vec<String> {
    items.iter().map(|s| s.to_string()).collect()
}

#[test]
fn expands_both_reference_forms() {
    let e = env(&[("HOME", "/home/u"), ("XDG_CONFIG_HOME", "/cfg"), ("A_1", "x")]);
    assert_eq!(
        expand_env("$HOME/.config/alacritty/alacritty.yml", &e),
        Some("/home/u/.config/alacritty/alacritty.yml".to_string())
    );
    assert_eq!(expand_env("${XDG_CONFIG_HOME}/a", &e), Some("/cfg/a".to_string()));
    assert_eq!(expand_env("$A_1$HOME${A_1}", &e), Some("x/home/ux".to_string()));
    assert_eq!(expand_env("$HOMEX", &e), None);
    assert_eq!(expand_env("${HOME}X", &e), Some("/home/uX".to_string()));
    assert_eq!(expand_env("plain", &e), Some("plain".to_string()));
    assert_eq!(expand_env("", &e), Some(String::new()));
}

#[test]
fn a_dollar_that_starts_no_reference_stands_for_itself() {
    let e = env(&[("HOME", "/h")]);
    assert_eq!(expand_env("a$", &e), Some("a$".to_string()));
    assert_eq!(expand_env("$1", &e), Some("$1".to_string()));
    assert_eq!(expand_env("$$HOME", &e), Some("$/h".to_string()));
    assert_eq!(expand_env("$ x", &e), Some("$ x".to_string()));
}

#[test]
fn a_missing_variable_or_an_open_brace_has_no_expansion() {
    let e = env(&[("HOME", "/h")]);
    assert_eq!(expand_env("$XDG_CONFIG_HOME/a", &e), None);
    assert_eq!(expand_env("${NOPE}/a", &e), None);
    assert_eq!(expand_env("${HOME/a", &e), None);
    assert_eq!(expand_env("${}", &e), None);
    assert_eq!(expand_env("x${", &e), None);
}

#[test]
fn the_first_pair_of_a_name_counts() {
    let e = env(&[("A", "1"), ("B", "2"), ("A", "3")]);
    assert_eq!(lookup_variable(&e, &"A".to_string()), Some(&"1".to_string()));
    assert_eq!(lookup_variable(&e, &"B".to_string()), Some(&"2".to_string()));
    assert_eq!(lookup_variable(&e, &"C".to_string()), None);
    assert_eq!(expand_env("$A", &e), Some("1".to_string()));
}

#[test]
fn locate_returns_the_first_readable_candidate() {
    let e = env(&[("HOME", "/h"), ("XDG_CONFIG_DIRS", "/etc/xdg")]);
    let primary = list(&[
        "$XDG_CONFIG_HOME/alacritty/alacritty.yml",
        "$HOME/.config/alacritty/alacritty.yml",
        "$XDG_CONFIG_DIRS/alacritty/alacritty.yml",
    ]);
    let fallback = list(&["/etc/alacritty.yml"]);

    let readable = list(&["/etc/xdg/alacritty/alacritty.yml", "/h/.config/alacritty/alacritty.yml"]);
    assert_eq!(
        locate(&primary, &fallback, &e, &readable),
        Some("/h/.config/alacritty/alacritty.yml".to_string())
    );

    let readable = list(&["/etc/alacritty.yml", "/etc/xdg/alacritty/alacritty.yml"]);
    assert_eq!(
        locate(&primary, &fallback, &e, &readable),
        Some("/etc/xdg/alacritty/alacritty.yml".to_string())
    );

    let readable = list(&["/etc/alacritty.yml"]);
    assert_eq!(locate(&primary, &fallback, &e, &readable), Some("/etc/alacritty.yml".to_string()));
}

#[test]
fn locate_finds_nothing_where_no_candidate_resolves() {
    let e = env(&[("HOME", "/h")]);
    let primary = list(&["$XDG_CONFIG_HOME/a.yml", "$HOME/a.yml"]);
    assert_eq!(locate(&primary, &vec![], &e, &list(&["/other"])), None);
    assert_eq!(locate(&primary, &vec![], &e, &vec![]), None);
    assert_eq!(locate(&vec![], &vec![], &e, &list(&["/h/a.yml"])), None);
    assert_eq!(locate(&primary, &vec![], &vec![], &list(&["/a.yml", "/h/a.yml"])), None);
}

#[test]
fn locate_skips_an_empty_expansion() {
    let e = env(&[("EMPTY", "")]);
    let primary = list(&["$EMPTY", "/x"]);
    assert_eq!(locate(&primary, &vec![], &e, &list(&["", "/x"])), Some("/x".to_string()));
}

#[test]
fn candidate_paths_are_the_expansions_in_order() {
    let e = env(&[("HOME", "/h"), ("EMPTY", "")]);
    let primary = list(&["$XDG_CONFIG_HOME/a.yml", "$HOME/a.yml", "$EMPTY"]);
    let fallback = list(&["/etc/a.yml", "${HOME}/b.yml"]);
    assert_eq!(
        candidate_paths(&primary, &fallback, &e),
        list(&["/h/a.yml", "/etc/a.yml", "/h/b.yml"])
    );
    assert_eq!(candidate_paths(&vec![], &vec![], &e), Vec::<String>::new());
}

#[test]
fn listed_compares_whole_paths() {
    let l = list(&["/a", "/b/c"]);
    assert!(listed(&l, &"/a".to_string()));
    assert!(listed(&l, &"/b/c".to_string()));
    assert!(!listed(&l, &"/b".to_string()));
    assert!(!listed(&vec![], &"/a".to_string()));
}
