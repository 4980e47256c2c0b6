//! Finding the user's configuration file: candidate path templates are
//! expanded against the environment and the first that names a readable file
//! wins.
//!
//! A template holds variable references in the forms `$NAME` and `${NAME}`.
//! In the first form the name starts with a letter or an underscore and runs
//! over letters, digits and underscores; in the second it is all that stands
//! before the closing brace. A `$` that starts neither form stands for
//! itself. A template that refers to a variable which the environment lacks,
//! or that opens a brace and never closes it, has no expansion.
use vstd::prelude::*;
use crate::document::names_of;
use crate::text::chars_of;

verus! {

/// Whether a variable name may start with `c`.
pub open spec fn is_name_start(c: char) -> bool {
    let code = c as u32;
    (0x61 <= code <= 0x7a) || (0x41 <= code <= 0x5a) || code == 0x5f
}

/// Whether a variable name may go on with `c`.
pub open spec fn is_name_char(c: char) -> bool {
    is_name_start(c) || (0x30 <= c as u32 <= 0x39)
}

/// Where the run of name characters that starts at `from` ends.
pub open spec fn name_end(t: Seq<char>, from: int) -> int
    decreases t.len() - from,
{
    if from < 0 || from >= t.len() || !is_name_char(t[from]) {
        from
    } else {
        name_end(t, from + 1)
    }
}

/// The index of the first closing brace at or after `from`, or the length
/// of `t` where there is none.
pub open spec fn brace_end(t: Seq<char>, from: int) -> int
    decreases t.len() - from,
{
    if from < 0 || from >= t.len() {
        t.len() as int
    } else if t[from] == '}' {
        from
    } else {
        brace_end(t, from + 1)
    }
}

/// The value of the variable `name`: that of the first pair of that name at
/// or after `from`.
pub open spec fn variable(env: Seq<(Seq<char>, Seq<char>)>, name: Seq<char>, from: int) -> Option<
    Seq<char>,
>
    decreases env.len() - from,
{
    if from < 0 || from >= env.len() {
        None
    } else if env[from].0 == name {
        Some(env[from].1)
    } else {
        variable(env, name, from + 1)
    }
}

/// `rest` behind `head`, where there is a rest.
pub open spec fn prefixed(head: Seq<char>, rest: Option<Seq<char>>) -> Option<Seq<char>> {
    match rest {
        Some(r) => Some(head + r),
        None => None,
    }
}

/// `rest` behind the value of the variable `name`, where both exist.
pub open spec fn substituted(
    env: Seq<(Seq<char>, Seq<char>)>,
    name: Seq<char>,
    rest: Option<Seq<char>>,
) -> Option<Seq<char>> {
    match variable(env, name, 0) {
        Some(v) => prefixed(v, rest),
        None => None,
    }
}

/// The expansion of `t` from `from` on, if it has one.
pub open spec fn expand(t: Seq<char>, from: int, env: Seq<(Seq<char>, Seq<char>)>) -> Option<
    Seq<char>,
>
    decreases t.len() - from,
{
    if from < 0 || from >= t.len() {
        Some(Seq::empty())
    } else if t[from] == '$' && from + 1 < t.len() && t[from + 1] == '{' {
        let close = brace_end(t, from + 2);
        if close >= t.len() || close < from + 2 {
            None
        } else {
            substituted(env, t.subrange(from + 2, close), expand(t, close + 1, env))
        }
    } else if t[from] == '$' && from + 1 < t.len() && is_name_start(t[from + 1]) {
        let end = name_end(t, from + 1);
        if end <= from + 1 || end > t.len() {
            None
        } else {
            substituted(env, t.subrange(from + 1, end), expand(t, end, env))
        }
    } else {
        prefixed(seq![t[from]], expand(t, from + 1, env))
    }
}

/// The names and values of `env`, in order.
pub open spec fn env_of(env: Vec<(String, String)>) -> Seq<(Seq<char>, Seq<char>)> {
    Seq::new(env.len() as nat, |i: int| (env[i].0@, env[i].1@))
}

/// Whether the candidate `template` names a file: it expands to a path that
/// is not empty and stands among the readable ones.
pub open spec fn resolves(
    template: Seq<char>,
    env: Seq<(Seq<char>, Seq<char>)>,
    readable: Seq<Seq<char>>,
) -> bool {
    expand(template, 0, env) matches Some(p) && p.len() > 0 && readable.contains(p)
}

/// The expansions of the first `n` candidates, in order, without those that
/// have none or an empty one.
pub open spec fn expansions(
    candidates: Seq<Seq<char>>,
    env: Seq<(Seq<char>, Seq<char>)>,
    n: int,
) -> Seq<Seq<char>>
    decreases n,
{
    if n <= 0 {
        Seq::empty()
    } else {
        let before = expansions(candidates, env, n - 1);
        match expand(candidates[n - 1], 0, env) {
            Some(p) => if p.len() > 0 {
                before.push(p)
            } else {
                before
            },
            None => before,
        }
    }
}

/// The run of name characters from `from` ends between `from` and the end of
/// `t`, and behind its first character where that is a name character.
pub proof fn lemma_name_end(t: Seq<char>, from: int)
    requires
        0 <= from <= t.len(),
    ensures
        from <= name_end(t, from) <= t.len(),
        from < t.len() && is_name_char(t[from]) ==> from < name_end(t, from),
    decreases t.len() - from,
{
    if from < t.len() && is_name_char(t[from]) {
        lemma_name_end(t, from + 1);
    }
}

fn name_start(c: char) -> (b: bool)
    ensures
        b == is_name_start(c),
{
    let code: u32 = c as u32;
    (0x61 <= code && code <= 0x7a) || (0x41 <= code && code <= 0x5a) || code == 0x5f
}

fn name_char(c: char) -> (b: bool)
    ensures
        b == is_name_char(c),
{
    let code: u32 = c as u32;
    name_start(c) || (0x30 <= code && code <= 0x39)
}

fn scan_name(t: &Vec<char>, from: usize) -> (end: usize)
    requires
        from <= t.len(),
    ensures
        end as int == name_end(t@, from as int),
        from <= end <= t.len(),
{
    let mut i: usize = from;
    while i < t.len() && name_char(t[i])
        invariant
            from <= i <= t.len(),
            name_end(t@, from as int) == name_end(t@, i as int),
        decreases t.len() - i,
    {
        i = i + 1;
    }
    i
}

fn scan_brace(t: &Vec<char>, from: usize) -> (end: usize)
    requires
        from <= t.len(),
    ensures
        end as int == brace_end(t@, from as int),
        from <= end <= t.len(),
{
    let mut i: usize = from;
    while i < t.len() && t[i] != '}'
        invariant
            from <= i <= t.len(),
            brace_end(t@, from as int) == brace_end(t@, i as int),
        decreases t.len() - i,
    {
        i = i + 1;
    }
    i
}

fn between(t: &Vec<char>, from: usize, to: usize) -> (s: String)
    requires
        from <= to <= t.len(),
    ensures
        s@ == t@.subrange(from as int, to as int),
{
    let mut s = String::new();
    let mut i: usize = from;
    while i < to
        invariant
            from <= i <= to <= t.len(),
            s@ == t@.subrange(from as int, i as int),
        decreases to - i,
    {
        s.push(t[i]);
        assert(s@ =~= t@.subrange(from as int, i + 1));
        i = i + 1;
    }
    s
}

/// The value of the variable `name` in `env`, that of its first pair.
pub fn lookup_variable<'a>(env: &'a Vec<(String, String)>, name: &String) -> (r: Option<&'a String>)
    ensures
        match r {
            Some(v) => variable(env_of(*env), name@, 0) == Some(v@),
            None => variable(env_of(*env), name@, 0) is None,
        },
{
    let mut i: usize = 0;
    while i < env.len()
        invariant
            i <= env.len(),
            variable(env_of(*env), name@, 0) == variable(env_of(*env), name@, i as int),
        decreases env.len() - i,
    {
        if env[i].0 == *name {
            return Some(&env[i].1);
        }
        i = i + 1;
    }
    None
}

/// Expands the variable references of `template` against `env`. There is an
/// expansion unless the template refers to a variable that `env` lacks or
/// leaves a brace open.
pub fn expand_env(template: &str, env: &Vec<(String, String)>) -> (r: Option<String>)
    ensures
        match r {
            Some(p) => expand(template@, 0, env_of(*env)) == Some(p@),
            None => expand(template@, 0, env_of(*env)) is None,
        },
{
    let t = chars_of(template);
    let ghost e = env_of(*env);
    let mut out = String::new();
    let mut i: usize = 0;
    assert(prefixed(out@, expand(t@, 0, e)) =~= expand(t@, 0, e)) by {
        match expand(t@, 0, e) {
            Some(rest) => {
                assert(out@ + rest =~= rest);
            },
            None => {},
        }
    }
    while i < t.len()
        invariant
            i <= t.len(),
            t@ == template@,
            e == env_of(*env),
            expand(t@, 0, e) == prefixed(out@, expand(t@, i as int, e)),
        decreases t.len() - i,
    {
        let c = t[i];
        let ghost head = out@;
        if c == '$' && i + 1 < t.len() && t[i + 1] == '{' {
            let close = scan_brace(&t, i + 2);
            if close >= t.len() {
                return None;
            }
            let name = between(&t, i + 2, close);
            match lookup_variable(env, &name) {
                None => {
                    return None;
                },
                Some(v) => {
                    out.append(v.as_str());
                    proof {
                        match expand(t@, close + 1, e) {
                            Some(rest) => {
                                assert((head + v@) + rest =~= head + (v@ + rest));
                            },
                            None => {},
                        }
                    }
                    i = close + 1;
                },
            }
        } else if c == '$' && i + 1 < t.len() && name_start(t[i + 1]) {
            let end = scan_name(&t, i + 1);
            proof {
                lemma_name_end(t@, i + 1);
            }
            let name = between(&t, i + 1, end);
            match lookup_variable(env, &name) {
                None => {
                    return None;
                },
                Some(v) => {
                    out.append(v.as_str());
                    proof {
                        match expand(t@, end as int, e) {
                            Some(rest) => {
                                assert((head + v@) + rest =~= head + (v@ + rest));
                            },
                            None => {},
                        }
                    }
                    i = end;
                },
            }
        } else {
            out.push(c);
            proof {
                match expand(t@, i + 1, e) {
                    Some(rest) => {
                        assert(head.push(c) + rest =~= head + (seq![c] + rest));
                    },
                    None => {},
                }
            }
            i = i + 1;
        }
    }
    proof {
        assert(out@ + Seq::<char>::empty() =~= out@);
    }
    Some(out)
}

/// Whether `path` stands in `list`.
pub fn listed(list: &Vec<String>, path: &String) -> (b: bool)
    ensures
        b == names_of(*list).contains(path@),
{
    let mut i: usize = 0;
    while i < list.len()
        invariant
            i <= list.len(),
            forall|j: int| 0 <= j < i ==> (#[trigger] names_of(*list)[j]) != path@,
        decreases list.len() - i,
    {
        if list[i] == *path {
            assert(names_of(*list)[i as int] == path@);
            return true;
        }
        i = i + 1;
    }
    false
}

/// The first of `templates` that resolves, by its expansion.
fn first_resolving(
    templates: &Vec<String>,
    env: &Vec<(String, String)>,
    readable: &Vec<String>,
) -> (r: Option<(usize, String)>)
    ensures
        match r {
            Some((i, p)) => {
                &&& i < templates.len()
                &&& expand(templates[i as int]@, 0, env_of(*env)) == Some(p@)
                &&& resolves(templates[i as int]@, env_of(*env), names_of(*readable))
                &&& forall|j: int|
                    0 <= j < i ==> !resolves(
                        (#[trigger] templates[j])@,
                        env_of(*env),
                        names_of(*readable),
                    )
            },
            None => forall|j: int|
                0 <= j < templates.len() ==> !resolves(
                    (#[trigger] templates[j])@,
                    env_of(*env),
                    names_of(*readable),
                ),
        },
{
    let mut i: usize = 0;
    while i < templates.len()
        invariant
            i <= templates.len(),
            forall|j: int|
                0 <= j < i ==> !resolves(
                    (#[trigger] templates[j])@,
                    env_of(*env),
                    names_of(*readable),
                ),
        decreases templates.len() - i,
    {
        match expand_env(templates[i].as_str(), env) {
            Some(p) => {
                if p.as_str().unicode_len() > 0 && listed(readable, &p) {
                    return Some((i, p));
                }
            },
            None => {},
        }
        i = i + 1;
    }
    None
}

/// The configuration file to use: the expansion of the first candidate that
/// resolves, the primary candidates before the fallback ones, each list in
/// its own order. A candidate resolves when it expands against `env` to a
/// path that is not empty and stands in `readable`, the paths known to name
/// existing, readable files. Where no candidate resolves there is no file,
/// which is no failure.
pub fn locate(
    primary: &Vec<String>,
    fallback: &Vec<String>,
    env: &Vec<(String, String)>,
    readable: &Vec<String>,
) -> (r: Option<String>)
    ensures
        match r {
            Some(p) => exists|i: int|
                {
                    &&& 0 <= i < primary.len() + fallback.len()
                    &&& expand(
                        #[trigger] (names_of(*primary) + names_of(*fallback))[i],
                        0,
                        env_of(*env),
                    ) == Some(p@)
                    &&& resolves(
                        (names_of(*primary) + names_of(*fallback))[i],
                        env_of(*env),
                        names_of(*readable),
                    )
                    &&& forall|j: int|
                        0 <= j < i ==> !resolves(
                            #[trigger] (names_of(*primary) + names_of(*fallback))[j],
                            env_of(*env),
                            names_of(*readable),
                        )
                },
            None => forall|j: int|
                0 <= j < primary.len() + fallback.len() ==> !resolves(
                    #[trigger] (names_of(*primary) + names_of(*fallback))[j],
                    env_of(*env),
                    names_of(*readable),
                ),
        },
{
    let ghost all = names_of(*primary) + names_of(*fallback);
    match first_resolving(primary, env, readable) {
        Some((i, p)) => {
            proof {
                assert(all[i as int] == primary[i as int]@);
                assert forall|j: int| 0 <= j < i implies !resolves(
                    #[trigger] all[j],
                    env_of(*env),
                    names_of(*readable),
                ) by {
                    assert(all[j] == primary[j]@);
                }
            }
            Some(p)
        },
        None => match first_resolving(fallback, env, readable) {
            Some((i, p)) => {
                proof {
                    let at = primary.len() + i;
                    assert(all[at] == fallback[i as int]@);
                    assert forall|j: int| 0 <= j < at implies !resolves(
                        #[trigger] all[j],
                        env_of(*env),
                        names_of(*readable),
                    ) by {
                        if j < primary.len() {
                            assert(all[j] == primary[j]@);
                        } else {
                            assert(all[j] == fallback[j - primary.len()]@);
                        }
                    }
                }
                Some(p)
            },
            None => {
                proof {
                    assert forall|j: int| 0 <= j < primary.len() + fallback.len() implies !resolves(
                        #[trigger] all[j],
                        env_of(*env),
                        names_of(*readable),
                    ) by {
                        if j < primary.len() {
                            assert(all[j] == primary[j]@);
                        } else {
                            assert(all[j] == fallback[j - primary.len()]@);
                        }
                    }
                }
                None
            },
        },
    }
}

/// The paths that the candidates expand to, the primary before the fallback
/// ones, without the candidates that have no expansion or an empty one:
/// the paths to probe before [`locate`] is asked.
pub fn candidate_paths(
    primary: &Vec<String>,
    fallback: &Vec<String>,
    env: &Vec<(String, String)>,
) -> (paths: Vec<String>)
    ensures
        names_of(paths) == expansions(
            names_of(*primary) + names_of(*fallback),
            env_of(*env),
            primary.len() + fallback.len(),
        ),
{
    let ghost all = names_of(*primary) + names_of(*fallback);
    let ghost e = env_of(*env);
    let mut paths: Vec<String> = Vec::new();
    assert(names_of(paths) =~= expansions(all, e, 0));
    let mut i: usize = 0;
    while i < primary.len()
        invariant
            i <= primary.len(),
            all == names_of(*primary) + names_of(*fallback),
            e == env_of(*env),
            names_of(paths) == expansions(all, e, i as int),
        decreases primary.len() - i,
    {
        let ghost before = names_of(paths);
        assert(all[i as int] == primary[i as int]@);
        match expand_env(primary[i].as_str(), env) {
            Some(p) => {
                if p.as_str().unicode_len() > 0 {
                    paths.push(p);
                    assert(names_of(paths) =~= before.push(p@));
                }
            },
            None => {},
        }
        i = i + 1;
    }
    let mut k: usize = 0;
    while k < fallback.len()
        invariant
            k <= fallback.len(),
            all == names_of(*primary) + names_of(*fallback),
            e == env_of(*env),
            names_of(paths) == expansions(all, e, primary.len() + k),
        decreases fallback.len() - k,
    {
        let ghost before = names_of(paths);
        assert(all[primary.len() + k] == fallback[k as int]@);
        match expand_env(fallback[k].as_str(), env) {
            Some(p) => {
                if p.as_str().unicode_len() > 0 {
                    paths.push(p);
                    assert(names_of(paths) =~= before.push(p@));
                }
            },
            None => {},
        }
        k = k + 1;
    }
    paths
}

} // verus!
