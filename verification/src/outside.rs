//! The calls into outside crates that the verified logic makes, each with the contract
//! that the library relies on.

use vstd::prelude::*;
use indexmap::IndexMap;
use regex::Regex;
use crate::config::{opt_string_view, opt_strings_view};

verus! {

#[verifier::external_type_specification]
#[verifier::external_body]
#[verifier::reject_recursive_types(K)]
#[verifier::reject_recursive_types(V)]
#[verifier::reject_recursive_types(S)]
pub struct ExIndexMap<K, V, S>(IndexMap<K, V, S>);

/// What a name index holds: its (name, value) entries in the map's order.
pub uninterp spec fn name_index_entries(m: IndexMap<String, usize>) -> Seq<(Seq<char>, usize)>;

/// The entries after inserting `key` with `value`, as `IndexMap::insert` documents it:
/// an equal key keeps its place and takes the new value; a new key goes last.
pub open spec fn entries_after_insert(
    entries: Seq<(Seq<char>, usize)>,
    key: Seq<char>,
    value: usize,
) -> Seq<(Seq<char>, usize)> {
    if exists|i: int| 0 <= i < entries.len() && entries[i].0 == key {
        entries.update(choose|i: int| 0 <= i < entries.len() && entries[i].0 == key, (key, value))
    } else {
        entries.push((key, value))
    }
}

/// `IndexMap::new`: the new map holds no entries.
#[verifier::external_body]
pub(crate) fn name_index_new() -> (m: IndexMap<String, usize>)
    ensures
        name_index_entries(m) == Seq::<(Seq<char>, usize)>::empty(),
{
    IndexMap::new()
}

/// `IndexMap::insert`: the entries change as [`entries_after_insert`] says.
#[verifier::external_body]
pub(crate) fn name_index_insert(m: &mut IndexMap<String, usize>, key: String, value: usize)
    ensures
        name_index_entries(*final(m)) == entries_after_insert(name_index_entries(*old(m)), key@, value),
{
    m.insert(key, value);
}

/// `IndexMap::len`: the number of entries.
#[verifier::external_body]
pub(crate) fn name_index_len(m: &IndexMap<String, usize>) -> (n: usize)
    ensures
        n == name_index_entries(*m).len(),
{
    m.len()
}

/// `IndexMap::get_full`: the place and the value of the entry whose key equals `key`,
/// or `None` when no entry has that key.
#[verifier::external_body]
pub(crate) fn name_index_get_full(m: &IndexMap<String, usize>, key: &str) -> (r: Option<(usize, usize)>)
    ensures
        match r {
            Some((i, v)) => i < name_index_entries(*m).len() && name_index_entries(*m)[i as int] == (key@, v),
            None => forall|i: int| 0 <= i < name_index_entries(*m).len() ==> name_index_entries(*m)[i].0 != key@,
        },
{
    m.get_full(key).map(|(i, _, v)| (i, *v))
}

/// `IndexMap::get_index`: the value of the entry at place `i`, `None` past the end.
#[verifier::external_body]
pub(crate) fn name_index_value_at(m: &IndexMap<String, usize>, i: usize) -> (r: Option<usize>)
    ensures
        r == (if i < name_index_entries(*m).len() { Some(name_index_entries(*m)[i as int].1) } else { None }),
{
    m.get_index(i).map(|(_, v)| *v)
}

// ---------------------------------------------------------------------------------------------
// shlex
// ---------------------------------------------------------------------------------------------

/// The words that `shlex::split` makes of a line, split as a POSIX shell would; `None` for a
/// line it cannot split (an open quote, a trailing escape).
pub uninterp spec fn shlex_words(line: Seq<char>) -> Option<Seq<Seq<char>>>;

/// `shlex::split`: its result is [`shlex_words`] of the line.
#[verifier::external_body]
pub(crate) fn shlex_split(line: &str) -> (r: Option<Vec<String>>)
    ensures
        opt_strings_view(r) == shlex_words(line@),
{
    shlex::split(line)
}

// ---------------------------------------------------------------------------------------------
// regex
// ---------------------------------------------------------------------------------------------

/// The pieces of `text` between the matches of the regular expression `pattern`, in order,
/// as `Regex::split` gives them after `Regex::new(pattern)`; `None` when `pattern` does not
/// compile.
pub uninterp spec fn regex_pieces(pattern: Seq<char>, text: Seq<char>) -> Option<Seq<Seq<char>>>;

/// For each match of the regular expression `pattern` in `text`, in order, as
/// `Regex::captures_iter` gives them after `Regex::new(pattern)`: the text of the match and
/// that of its capture group `group`, if the group took part; `None` when `pattern` does not
/// compile.
pub uninterp spec fn regex_matches(pattern: Seq<char>, group: Seq<char>, text: Seq<char>) -> Option<
    Seq<(Seq<char>, Option<Seq<char>>)>,
>;

/// The value of a list of matches.
pub open spec fn matches_view(v: Seq<(String, Option<String>)>) -> Seq<(Seq<char>, Option<Seq<char>>)> {
    v.map_values(|m: (String, Option<String>)| (m.0@, opt_string_view(m.1)))
}

/// `Regex::new` then `Regex::split`: the result is [`regex_pieces`].
#[verifier::external_body]
pub(crate) fn regex_split(pattern: &str, text: &str) -> (r: Option<Vec<String>>)
    ensures
        opt_strings_view(r) == regex_pieces(pattern@, text@),
{
    Regex::new(pattern).ok().map(|re| re.split(text).map(|piece| piece.to_string()).collect())
}

/// `Regex::new` then `Regex::captures_iter`: the result is [`regex_matches`].
#[verifier::external_body]
pub(crate) fn regex_captures(pattern: &str, group: &str, text: &str) -> (r: Option<Vec<(String, Option<String>)>>)
    ensures
        match r {
            Some(v) => regex_matches(pattern@, group@, text@) == Some(matches_view(v@)),
            None => regex_matches(pattern@, group@, text@) is None,
        },
{
    Regex::new(pattern).ok().map(
        |re|
            re.captures_iter(text).map(
                |caps| (caps[0].to_string(), caps.name(group).map(|m| m.as_str().to_string())),
            ).collect(),
    )
}

// ---------------------------------------------------------------------------------------------
// std functions without a specification in vstd
// ---------------------------------------------------------------------------------------------

/// A character that separates the components of a path on some platform: `/` everywhere,
/// `\\` on Windows.
pub open spec fn is_separator(c: char) -> bool {
    c == '/' || c == '\\'
}

/// An ASCII letter.
pub open spec fn is_ascii_letter(c: char) -> bool {
    let n = c as u32;
    (0x41 <= n <= 0x5a) || (0x61 <= n <= 0x7a)
}

/// A text that Windows reads as beginning with a drive: a letter and `:`.
pub open spec fn drive_like(s: Seq<char>) -> bool {
    s.len() >= 2 && is_ascii_letter(s[0]) && s[1] == ':'
}

/// One component of a path as every platform reads it: not empty, not `.` or `..`, and
/// without `/` or `\\`.
pub open spec fn component_name(s: Seq<char>) -> bool {
    &&& s.len() > 0
    &&& s != "."@
    &&& s != ".."@
    &&& forall|i: int| 0 <= i < s.len() ==> !is_separator(#[trigger] s[i])
}

/// A file name that every platform reads as one component, also on its own: a component name
/// that does not begin like a drive.
pub open spec fn plain_name(s: Seq<char>) -> bool {
    component_name(s) && !drive_like(s)
}

/// What follows the last `/` of a text (all of it when it holds none).
pub open spec fn after_last_slash(s: Seq<char>) -> Seq<char>
    decreases s.len(),
{
    if s.len() == 0 {
        s
    } else if s.last() == '/' {
        Seq::empty()
    } else {
        after_last_slash(s.drop_last()).push(s.last())
    }
}

/// The text without the `/` at its end.
pub open spec fn without_trailing_slashes(s: Seq<char>) -> Seq<char>
    decreases s.len(),
{
    if s.len() > 0 && s.last() == '/' {
        without_trailing_slashes(s.drop_last())
    } else {
        s
    }
}

/// The final component of a path as written: what follows the last `/`, once the `/` at the
/// end are left out.
pub open spec fn final_name(s: Seq<char>) -> Seq<char> {
    after_last_slash(without_trailing_slashes(s))
}

/// Whether a folder (possibly the root) comes before the final component.
pub open spec fn has_folder(s: Seq<char>) -> bool {
    final_name(s).len() < without_trailing_slashes(s).len()
}

/// The folder part of a path: what comes before the `/` in front of its final component
/// (nothing for a file in the root).
pub open spec fn folder_part(s: Seq<char>) -> Seq<char> {
    let t = without_trailing_slashes(s);
    t.subrange(0, t.len() - final_name(s).len() - 1)
}

/// A path that begins with two separators, which Windows reads as a network or device
/// prefix.
pub open spec fn starts_with_two_separators(s: Seq<char>) -> bool {
    s.len() >= 2 && is_separator(s[0]) && is_separator(s[1])
}

/// A path whose final component every platform reads as written: a component name, which may
/// begin like a drive only after a folder, in a path that does not begin with two separators.
pub open spec fn plain_file_path(s: Seq<char>) -> bool {
    &&& component_name(final_name(s))
    &&& (has_folder(s) || !drive_like(final_name(s)))
    &&& !starts_with_two_separators(s)
}

/// A path with no final component: nothing but `/`, or a final component `..`.
pub open spec fn lacks_file_name(s: Seq<char>) -> bool {
    without_trailing_slashes(s).len() == 0 || final_name(s) == ".."@
}

/// What follows the last separator (`/` or `\\`) of a text (all of it when it holds none).
pub open spec fn after_last_separator(s: Seq<char>) -> Seq<char>
    decreases s.len(),
{
    if s.len() == 0 {
        s
    } else if is_separator(s.last()) {
        Seq::empty()
    } else {
        after_last_separator(s.drop_last()).push(s.last())
    }
}

/// A folder that every platform keeps as written as the parent of a file in it: the root
/// (nothing before the `/`), or a folder that does not end in a separator or in a `.` component
/// (other than `.` itself) and holds no `:` (no drive prefix).
pub open spec fn plain_folder(d: Seq<char>) -> bool {
    ||| d.len() == 0
    ||| {
        &&& !is_separator(d.last())
        &&& (d == "."@ || after_last_separator(d) != "."@)
        &&& forall|i: int| 0 <= i < d.len() ==> #[trigger] d[i] != ':'
    }
}

/// A path `d/n` with a plain folder `d` (possibly the root) and a plain final component `n`.
pub open spec fn has_plain_folder(path: Seq<char>) -> bool {
    plain_file_path(path) && has_folder(path) && plain_folder(folder_part(path))
}

/// `Path::file_name`: the final component of the path. It is `None` for a path with no final
/// component (nothing but `/`, or one ending in `..`) that does not begin with two separators;
/// for a path whose final component every platform reads as written, it is that component.
/// Other paths follow the path rules of the platform, and nothing more is promised of them.
#[verifier::external_body]
pub(crate) fn path_file_name(path: &str) -> (r: Option<String>)
    ensures
        lacks_file_name(path@) && !starts_with_two_separators(path@) ==> r is None,
        plain_file_path(path@) ==> opt_string_view(r) == Some(final_name(path@)),
{
    std::path::Path::new(path).file_name().map(|n| n.to_string_lossy().to_string())
}

/// `Path::with_file_name`: the path with its final component replaced by `name`, that is,
/// its parent with `name` pushed onto it. For a path whose final component every platform
/// reads as written and a plain `name`, the result ends in `name`, and it is `name` itself
/// when no folder comes before that component (the parent is empty). For a plain folder `d`
/// (possibly the root), the parent is `d` and the result is `d`, the platform's separator
/// (`/`, or `\\` on Windows; none after the root) and `name`.
#[verifier::external_body]
pub(crate) fn path_with_file_name(path: &str, name: &str) -> (r: String)
    ensures
        plain_file_path(path@) && plain_name(name@) ==> crate::utils::ends_with(r@, name@),
        plain_file_path(path@) && !has_folder(path@) && plain_name(name@) ==> r@ == name@,
        has_plain_folder(path@) && plain_name(name@) ==> (r@ == folder_part(path@) + "/"@ + name@ || r@
            == folder_part(path@) + "\\"@ + name@),
{
    std::path::Path::new(path).with_file_name(name).to_string_lossy().to_string()
}

/// Whether a character has the Unicode `White_Space` property, the whitespace that
/// `str::trim` removes: tab, line feed, vertical tab, form feed, carriage return, space,
/// U+0085, U+00A0, U+1680, U+2000 to U+200A, U+2028, U+2029, U+202F, U+205F and U+3000.
pub open spec fn is_white_space(c: char) -> bool {
    let n = c as u32;
    (0x9 <= n <= 0xd) || n == 0x20 || n == 0x85 || n == 0xa0 || n == 0x1680 || (0x2000 <= n <= 0x200a)
        || n == 0x2028 || n == 0x2029 || n == 0x202f || n == 0x205f || n == 0x3000
}

/// The place of the first character at `from` or later that is not white space, or the
/// length when there is none.
pub open spec fn text_start(s: Seq<char>, from: int) -> int
    decreases s.len() - from,
{
    if from < 0 || from >= s.len() {
        s.len() as int
    } else if is_white_space(s[from]) {
        text_start(s, from + 1)
    } else {
        from
    }
}

/// The place just after the last character before `to` that is not white space, or 0 when
/// there is none.
pub open spec fn text_end(s: Seq<char>, to: int) -> int
    decreases to,
{
    if to <= 0 || to > s.len() {
        0
    } else if is_white_space(s[to - 1]) {
        text_end(s, to - 1)
    } else {
        to
    }
}

/// The text without its leading and trailing white space.
pub open spec fn trimmed(s: Seq<char>) -> Seq<char> {
    let i = text_start(s, 0);
    let j = text_end(s, s.len() as int);
    if i < j {
        s.subrange(i, j)
    } else {
        Seq::empty()
    }
}

/// `str::trim`: the text without its leading and trailing characters that have the Unicode
/// `White_Space` property.
#[verifier::external_body]
pub(crate) fn trim_text(s: &str) -> (r: String)
    ensures
        r@ == trimmed(s@),
{
    s.trim().to_string()
}

} // verus!
