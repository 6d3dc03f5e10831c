//! Text substitutions: `{{ variable }}` in commands and `$VAR` in environment values.

use vstd::prelude::*;
use crate::config::{pairs_view, strings_view};
use crate::outside::{matches_view, regex_captures, regex_matches, regex_pieces, regex_split};

verus! {

/// A global variable reference `{{VAR}}` or `{{ VAR }}`, or a quoted string `{{ '{{' }}`.
pub const VAR_PATTERN: &'static str = "\\{{2}\\s?['\"]?(?P<name_or_str>[a-zA-Z0-9_\\{\\}]+)['\"]?\\s?\\}{2}";

/// The group of [`VAR_PATTERN`] that holds the variable name or the quoted string.
pub const VAR_GROUP: &'static str = "name_or_str";

/// An environment variable reference `$VAR` or `${VAR}`, possibly preceded by one or two
/// backslashes.
pub const ENV_PATTERN: &'static str = "\\\\{0,2}\\$\\{?(?P<name>[a-zA-Z0-9_]+)\\}?";

/// The group of [`ENV_PATTERN`] that holds the variable name.
pub const ENV_GROUP: &'static str = "name";

pub open spec fn starts_with(s: Seq<char>, prefix: Seq<char>) -> bool {
    prefix.len() <= s.len() && s.subrange(0, prefix.len() as int) == prefix
}

pub open spec fn ends_with(s: Seq<char>, suffix: Seq<char>) -> bool {
    suffix.len() <= s.len() && s.subrange(s.len() - suffix.len(), s.len() as int) == suffix
}

/// The value of the first entry whose key is `key`.
pub open spec fn lookup(entries: Seq<(Seq<char>, Seq<char>)>, key: Seq<char>) -> Option<Seq<char>>
    decreases entries.len(),
{
    if entries.len() == 0 {
        None
    } else if entries[0].0 == key {
        Some(entries[0].1)
    } else {
        lookup(entries.drop_first(), key)
    }
}

/// Each piece, followed by the replacement of the same rank when there is one.
pub open spec fn interleave(pieces: Seq<Seq<char>>, reps: Seq<Seq<char>>) -> Seq<char>
    decreases pieces.len(),
{
    if pieces.len() == 0 {
        Seq::empty()
    } else {
        let k = pieces.len() - 1;
        interleave(pieces.drop_last(), reps) + pieces[k] + (if k < reps.len() { reps[k] } else { Seq::empty() })
    }
}

/// A `{{ ... }}` whose inside is quoted, like `{{ '{{' }}`: it stands for what it quotes.
pub open spec fn is_quoted(whole: Seq<char>) -> bool {
    (starts_with(whole, "{{ '"@) || starts_with(whole, "{{ \""@) || starts_with(whole, "{{'"@) || starts_with(
        whole,
        "{{\""@,
    )) && (ends_with(whole, "' }}"@) || ends_with(whole, "\" }}"@) || ends_with(whole, "'}}"@) || ends_with(
        whole,
        "\"}}"@,
    ))
}

/// What a match of [`VAR_PATTERN`] is replaced by: the quoted text, or the value of the
/// variable when it exists, or else the match itself.
pub open spec fn var_replacement(m: (Seq<char>, Option<Seq<char>>), vars: Seq<(Seq<char>, Seq<char>)>) -> Seq<char> {
    match m.1 {
        Some(name) => if is_quoted(m.0) {
            name
        } else {
            match lookup(vars, name) {
                Some(v) => v,
                None => m.0,
            }
        },
        None => m.0,
    }
}

/// What a match of [`ENV_PATTERN`] is replaced by: unless escaped by a single backslash or
/// with unbalanced braces, the value of the variable (empty when unset), after one backslash
/// when the match began with two; an escaped match loses its backslash; anything else stays.
pub open spec fn env_replacement(m: (Seq<char>, Option<Seq<char>>), env: Seq<(Seq<char>, Seq<char>)>) -> Seq<char> {
    let cap = m.0;
    if m.1 is Some && !starts_with(cap, "\\$"@) && cap.contains('{') == cap.contains('}') {
        let val = match lookup(env, m.1->Some_0) {
            Some(v) => v,
            None => Seq::empty(),
        };
        if starts_with(cap, "\\\\"@) {
            "\\"@ + val
        } else {
            val
        }
    } else if starts_with(cap, "\\$"@) {
        cap.drop_first()
    } else {
        cap
    }
}

/// The text with each match of [`VAR_PATTERN`] replaced as [`var_replacement`] says.
pub open spec fn substituted(text: Seq<char>, vars: Seq<(Seq<char>, Seq<char>)>) -> Seq<char> {
    match (regex_pieces(VAR_PATTERN@, text), regex_matches(VAR_PATTERN@, VAR_GROUP@, text)) {
        (Some(pieces), Some(ms)) => interleave(
            pieces,
            ms.map_values(|m: (Seq<char>, Option<Seq<char>>)| var_replacement(m, vars)),
        ),
        _ => text,
    }
}

/// The text with each match of [`ENV_PATTERN`] replaced as [`env_replacement`] says.
pub open spec fn expanded(text: Seq<char>, env: Seq<(Seq<char>, Seq<char>)>) -> Seq<char> {
    match (regex_pieces(ENV_PATTERN@, text), regex_matches(ENV_PATTERN@, ENV_GROUP@, text)) {
        (Some(pieces), Some(ms)) => interleave(
            pieces,
            ms.map_values(|m: (Seq<char>, Option<Seq<char>>)| env_replacement(m, env)),
        ),
        _ => text,
    }
}

/// Whether `s` begins with `prefix`.
pub fn has_prefix(s: &str, prefix: &str) -> (r: bool)
    ensures
        r == starts_with(s@, prefix@),
{
    let n = s.unicode_len();
    let m = prefix.unicode_len();
    if m > n {
        return false;
    }
    let mut i: usize = 0;
    while i < m
        invariant
            m <= n,
            n == s@.len(),
            m == prefix@.len(),
            i <= m,
            forall|j: int| 0 <= j < i ==> s@[j] == prefix@[j],
        decreases m - i,
    {
        if s.get_char(i) != prefix.get_char(i) {
            assert(s@.subrange(0, m as int)[i as int] != prefix@[i as int]);
            return false;
        }
        i = i + 1;
    }
    assert(s@.subrange(0, m as int) =~= prefix@);
    true
}

/// Whether `s` ends with `suffix`.
pub fn has_suffix(s: &str, suffix: &str) -> (r: bool)
    ensures
        r == ends_with(s@, suffix@),
{
    let n = s.unicode_len();
    let m = suffix.unicode_len();
    if m > n {
        return false;
    }
    let off = n - m;
    let mut i: usize = 0;
    while i < m
        invariant
            m <= n,
            off == n - m,
            n == s@.len(),
            m == suffix@.len(),
            i <= m,
            forall|j: int| 0 <= j < i ==> s@[off + j] == suffix@[j],
        decreases m - i,
    {
        if s.get_char(off + i) != suffix.get_char(i) {
            assert(s@.subrange(off as int, n as int)[i as int] != suffix@[i as int]);
            return false;
        }
        i = i + 1;
    }
    assert(s@.subrange(off as int, n as int) =~= suffix@);
    true
}

/// Whether `s` holds the character `c`.
pub fn has_char(s: &str, c: char) -> (r: bool)
    ensures
        r == s@.contains(c),
{
    let n = s.unicode_len();
    let mut i: usize = 0;
    while i < n
        invariant
            n == s@.len(),
            i <= n,
            forall|j: int| 0 <= j < i ==> s@[j] != c,
        decreases n - i,
    {
        if s.get_char(i) == c {
            return true;
        }
        i = i + 1;
    }
    false
}

/// The value of the first entry whose key is `key`.
pub fn lookup_value<'a>(entries: &'a Vec<(String, String)>, key: &String) -> (r: Option<&'a String>)
    ensures
        match r {
            Some(v) => lookup(pairs_view(entries@), key@) == Some(v@),
            None => lookup(pairs_view(entries@), key@) is None,
        },
{
    let ghost all = pairs_view(entries@);
    assert(all.subrange(0, all.len() as int) =~= all);
    let mut i: usize = 0;
    while i < entries.len()
        invariant
            all == pairs_view(entries@),
            i <= entries.len(),
            lookup(all, key@) == lookup(all.subrange(i as int, all.len() as int), key@),
        decreases entries.len() - i,
    {
        let ghost rest = all.subrange(i as int, all.len() as int);
        assert(rest.drop_first() =~= all.subrange(i + 1, all.len() as int));
        assert(rest[0] == all[i as int]);
        if entries[i].0 == *key {
            return Some(&entries[i].1);
        }
        i = i + 1;
    }
    assert(all.subrange(i as int, all.len() as int).len() == 0);
    None
}

/// Whether a `{{ ... }}` match is a quoted string.
fn quoted(whole: &str) -> (r: bool)
    ensures
        r == is_quoted(whole@),
{
    let opens = has_prefix(whole, "{{ '") || has_prefix(whole, "{{ \"") || has_prefix(whole, "{{'") || has_prefix(
        whole,
        "{{\"",
    );
    let closes = has_suffix(whole, "' }}") || has_suffix(whole, "\" }}") || has_suffix(whole, "'}}") || has_suffix(
        whole,
        "\"}}",
    );
    opens && closes
}

/// What one match of [`VAR_PATTERN`] is replaced by.
pub fn replace_var_match(whole: &String, name_or_str: &Option<String>, vars: &Vec<(String, String)>) -> (r: String)
    ensures
        r@ == var_replacement((whole@, crate::config::opt_string_view(*name_or_str)), pairs_view(vars@)),
{
    match name_or_str {
        Some(name) => {
            if quoted(whole.as_str()) {
                return name.clone();
            }
            match lookup_value(vars, name) {
                Some(v) => v.clone(),
                None => whole.clone(),
            }
        },
        None => whole.clone(),
    }
}

/// What one match of [`ENV_PATTERN`] is replaced by.
pub fn replace_env_match(capture: &String, name: &Option<String>, env: &Vec<(String, String)>) -> (r: String)
    ensures
        r@ == env_replacement((capture@, crate::config::opt_string_view(*name)), pairs_view(env@)),
{
    let escaped = has_prefix(capture.as_str(), "\\$");
    let balanced = has_char(capture.as_str(), '{') == has_char(capture.as_str(), '}');
    match name {
        Some(n) => {
            if !escaped && balanced {
                let val = match lookup_value(env, n) {
                    Some(v) => v.clone(),
                    None => String::new(),
                };
                if has_prefix(capture.as_str(), "\\\\") {
                    let mut r = "\\".to_owned();
                    r.append(val.as_str());
                    return r;
                } else {
                    return val;
                }
            }
        },
        None => {},
    }
    if escaped {
        proof {
            reveal_strlit("\\$");
        }
        let len = capture.as_str().unicode_len();
        let rest = capture.as_str().substring_char(1, len);
        rest.to_owned()
    } else {
        capture.clone()
    }
}

/// The first entry with key `key`, at place `i`, gives the value that a lookup finds.
pub proof fn lemma_lookup_first(entries: Seq<(Seq<char>, Seq<char>)>, key: Seq<char>, i: int)
    requires
        0 <= i < entries.len(),
        entries[i].0 == key,
        forall|j: int| 0 <= j < i ==> #[trigger] entries[j].0 != key,
    ensures
        lookup(entries, key) == Some(entries[i].1),
    decreases i,
{
    if i > 0 {
        let rest = entries.drop_first();
        assert forall|j: int| 0 <= j < i - 1 implies #[trigger] rest[j].0 != key by {
            assert(rest[j] == entries[j + 1]);
        }
        assert(entries[0].0 != key);
        lemma_lookup_first(rest, key, i - 1);
    }
}

/// A key that no entry has is found nowhere.
pub proof fn lemma_lookup_absent(entries: Seq<(Seq<char>, Seq<char>)>, key: Seq<char>)
    requires
        forall|j: int| 0 <= j < entries.len() ==> #[trigger] entries[j].0 != key,
    ensures
        lookup(entries, key) is None,
    decreases entries.len(),
{
    if entries.len() > 0 {
        let rest = entries.drop_first();
        assert forall|j: int| 0 <= j < rest.len() implies #[trigger] rest[j].0 != key by {
            assert(rest[j] == entries[j + 1]);
        }
        lemma_lookup_absent(rest, key);
    }
}

/// A reference `$NAME` or `${NAME}` that is not escaped and has balanced braces becomes the
/// value of the first entry named `NAME` of the environment, and the empty text when no entry
/// has that name, with or without braces; after two backslashes, one backslash comes first.
pub proof fn law_env_reference_expands(
    capture: Seq<char>,
    name: Seq<char>,
    env: Seq<(Seq<char>, Seq<char>)>,
    i: int,
)
    requires
        !starts_with(capture, "\\$"@),
        capture.contains('{') == capture.contains('}'),
    ensures
        (forall|j: int| 0 <= j < env.len() ==> #[trigger] env[j].0 != name) ==> env_replacement(
            (capture, Some(name)),
            env,
        ) == (if starts_with(capture, "\\\\"@) {
            "\\"@
        } else {
            Seq::<char>::empty()
        }),
        (0 <= i < env.len() && env[i].0 == name && forall|j: int| 0 <= j < i ==> #[trigger] env[j].0 != name)
            ==> env_replacement((capture, Some(name)), env) == (if starts_with(capture, "\\\\"@) {
            "\\"@ + env[i].1
        } else {
            env[i].1
        }),
{
    if forall|j: int| 0 <= j < env.len() ==> #[trigger] env[j].0 != name {
        lemma_lookup_absent(env, name);
        assert("\\"@ + Seq::<char>::empty() =~= "\\"@);
    }
    if 0 <= i < env.len() && env[i].0 == name && forall|j: int| 0 <= j < i ==> #[trigger] env[j].0 != name {
        lemma_lookup_first(env, name, i);
    }
}

/// A `{{ NAME }}` reference that is not a quoted string becomes the value of the first entry
/// named `NAME` of the variables, whatever that value is (the empty one included), and stays as
/// written when no entry has that name.
pub proof fn law_var_reference_substitutes(
    whole: Seq<char>,
    name: Seq<char>,
    vars: Seq<(Seq<char>, Seq<char>)>,
    i: int,
)
    requires
        !is_quoted(whole),
    ensures
        (0 <= i < vars.len() && vars[i].0 == name && forall|j: int| 0 <= j < i ==> #[trigger] vars[j].0 != name)
            ==> var_replacement((whole, Some(name)), vars) == vars[i].1,
        (forall|j: int| 0 <= j < vars.len() ==> #[trigger] vars[j].0 != name) ==> var_replacement(
            (whole, Some(name)),
            vars,
        ) == whole,
{
    if 0 <= i < vars.len() && vars[i].0 == name && forall|j: int| 0 <= j < i ==> #[trigger] vars[j].0 != name {
        lemma_lookup_first(vars, name, i);
    }
    if forall|j: int| 0 <= j < vars.len() ==> #[trigger] vars[j].0 != name {
        lemma_lookup_absent(vars, name);
    }
}

pub proof fn lemma_interleave_step(pieces: Seq<Seq<char>>, reps: Seq<Seq<char>>, k: int)
    requires
        0 <= k < pieces.len(),
    ensures
        interleave(pieces.subrange(0, k + 1), reps) == interleave(pieces.subrange(0, k), reps) + pieces[k] + (if k
            < reps.len() {
            reps[k]
        } else {
            Seq::<char>::empty()
        }),
{
    assert(pieces.subrange(0, k + 1).drop_last() =~= pieces.subrange(0, k));
}

/// Puts a text back together from the pieces between the matches of [`VAR_PATTERN`] and the
/// matches themselves, each replaced as [`var_replacement`] says.
pub fn assemble_substitution(
    pieces: &Vec<String>,
    matches: &Vec<(String, Option<String>)>,
    vars: &Vec<(String, String)>,
) -> (r: String)
    ensures
        r@ == interleave(
            strings_view(pieces@),
            matches_view(matches@).map_values(|m: (Seq<char>, Option<Seq<char>>)| var_replacement(m, pairs_view(vars@))),
        ),
{
    let ghost pv = strings_view(pieces@);
    let ghost reps = matches_view(matches@).map_values(
        |m: (Seq<char>, Option<Seq<char>>)| var_replacement(m, pairs_view(vars@)),
    );
    let mut out = String::new();
    let mut k: usize = 0;
    while k < pieces.len()
        invariant
            pv == strings_view(pieces@),
            reps == matches_view(matches@).map_values(
                |m: (Seq<char>, Option<Seq<char>>)| var_replacement(m, pairs_view(vars@)),
            ),
            k <= pieces.len(),
            out@ == interleave(pv.subrange(0, k as int), reps),
        decreases pieces.len() - k,
    {
        proof {
            lemma_interleave_step(pv, reps, k as int);
        }
        out.append(pieces[k].as_str());
        if k < matches.len() {
            let rep = replace_var_match(&matches[k].0, &matches[k].1, vars);
            out.append(rep.as_str());
        } else {
            assert(out@ =~= out@ + Seq::<char>::empty());
        }
        k = k + 1;
    }
    assert(pv.subrange(0, pieces.len() as int) =~= pv);
    out
}

/// Puts a text back together from the pieces between the matches of [`ENV_PATTERN`] and the
/// matches themselves, each replaced as [`env_replacement`] says.
pub fn assemble_expansion(
    pieces: &Vec<String>,
    matches: &Vec<(String, Option<String>)>,
    env: &Vec<(String, String)>,
) -> (r: String)
    ensures
        r@ == interleave(
            strings_view(pieces@),
            matches_view(matches@).map_values(|m: (Seq<char>, Option<Seq<char>>)| env_replacement(m, pairs_view(env@))),
        ),
{
    let ghost pv = strings_view(pieces@);
    let ghost reps = matches_view(matches@).map_values(
        |m: (Seq<char>, Option<Seq<char>>)| env_replacement(m, pairs_view(env@)),
    );
    let mut out = String::new();
    let mut k: usize = 0;
    while k < pieces.len()
        invariant
            pv == strings_view(pieces@),
            reps == matches_view(matches@).map_values(
                |m: (Seq<char>, Option<Seq<char>>)| env_replacement(m, pairs_view(env@)),
            ),
            k <= pieces.len(),
            out@ == interleave(pv.subrange(0, k as int), reps),
        decreases pieces.len() - k,
    {
        proof {
            lemma_interleave_step(pv, reps, k as int);
        }
        out.append(pieces[k].as_str());
        if k < matches.len() {
            let rep = replace_env_match(&matches[k].0, &matches[k].1, env);
            out.append(rep.as_str());
        } else {
            assert(out@ =~= out@ + Seq::<char>::empty());
        }
        k = k + 1;
    }
    assert(pv.subrange(0, pieces.len() as int) =~= pv);
    out
}

/// Substitutes global variables in the given string kind of like in Jinja2: each `{{VAR}}` or
/// `{{ VAR }}` whose variable exists becomes its value; `{{ '{{' }}` and `{{ '}}' }}` stand
/// for the quoted text.
pub fn substitute_global_vars(s: &str, vars: &Vec<(String, String)>) -> (r: String)
    ensures
        r@ == substituted(s@, pairs_view(vars@)),
{
    let pieces = regex_split(VAR_PATTERN, s);
    let matches = regex_captures(VAR_PATTERN, VAR_GROUP, s);
    match (pieces, matches) {
        (Some(p), Some(m)) => assemble_substitution(&p, &m, vars),
        _ => s.to_owned(),
    }
}

/// Expands environment variables in the given string like a Unix shell: each `$VAR` and
/// `${VAR}` becomes the variable's value in `env`, or nothing when it is unset; `\$` escapes.
pub fn expand_env_vars(s: &str, env: &Vec<(String, String)>) -> (r: String)
    ensures
        r@ == expanded(s@, pairs_view(env@)),
{
    let pieces = regex_split(ENV_PATTERN, s);
    let matches = regex_captures(ENV_PATTERN, ENV_GROUP, s);
    match (pieces, matches) {
        (Some(p), Some(m)) => assemble_expansion(&p, &m, env),
        _ => s.to_owned(),
    }
}

} // verus!
