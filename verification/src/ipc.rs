//! The simplest IPC: a text file next to the configuration file carries one request.

use vstd::prelude::*;
use crate::config::CommandArgs;
use crate::outside::{
    after_last_slash, component_name, drive_like, final_name, folder_part, has_folder, has_plain_folder,
    is_separator, is_white_space, lacks_file_name, path_file_name, path_with_file_name, plain_file_path,
    plain_name, trim_text, trimmed, without_trailing_slashes,
};
use crate::utils::ends_with;

verus! {

/// `.<file name>.ipc`: the name of the request file of a configuration file.
pub open spec fn ipc_name(file_name: Seq<char>) -> Seq<char> {
    "."@ + file_name + ".ipc"@
}

/// The name of the request file for the configuration file named `file_name`.
pub fn ipc_file_name(file_name: &str) -> (r: String)
    ensures
        r@ == ipc_name(file_name@),
{
    let mut r = ".".to_owned();
    r.append(file_name);
    r.append(".ipc");
    r
}

/// `file` lies in the folder of the path: it is the folder, a separator (`/`, or `\\` on
/// Windows) and the name [`ipc_name`] of the final component.
pub open spec fn beside(file: Seq<char>, path: Seq<char>) -> bool {
    let name = ipc_name(final_name(path));
    file == folder_part(path) + "/"@ + name || file == folder_part(path) + "\\"@ + name
}

/// `file` is the request file of the configuration file at `path`: it ends in the name
/// [`ipc_name`] of the configuration file's name and is not the configuration file itself; it
/// is that name alone when no folder comes before the file name, and it lies in the same folder
/// when that folder is plain.
pub open spec fn names_ipc_file(file: Seq<char>, path: Seq<char>) -> bool {
    let name = ipc_name(final_name(path));
    &&& ends_with(file, name)
    &&& file != path
    &&& !has_folder(path) ==> file == name
    &&& has_plain_folder(path) ==> beside(file, path)
}

/// What follows the last `/` is a stretch at the end without `/`, after a `/` when it is not
/// the whole text.
proof fn lemma_after_last_slash_shape(s: Seq<char>)
    ensures
        after_last_slash(s).len() <= s.len(),
        s.subrange(s.len() - after_last_slash(s).len(), s.len() as int) == after_last_slash(s),
        forall|i: int| 0 <= i < after_last_slash(s).len() ==> #[trigger] after_last_slash(s)[i] != '/',
        after_last_slash(s).len() < s.len() ==> s[s.len() - after_last_slash(s).len() - 1] == '/',
    decreases s.len(),
{
    if s.len() > 0 {
        let d = s.drop_last();
        lemma_after_last_slash_shape(d);
        if s.last() != '/' {
            let n = after_last_slash(d);
            assert(after_last_slash(s) == n.push(s.last()));
            assert(s.subrange(s.len() - n.len() - 1, s.len() as int) =~= n.push(s.last())) by {
                assert(d.subrange(d.len() - n.len(), d.len() as int) == n);
                assert forall|i: int| 0 <= i < n.len() + 1 implies s.subrange(s.len() - n.len() - 1, s.len() as int)[i]
                    == n.push(s.last())[i] by {
                    if i < n.len() {
                        assert(d.subrange(d.len() - n.len(), d.len() as int)[i] == n[i]);
                    }
                }
            }
            if n.len() < d.len() {
                assert(d[d.len() - n.len() - 1] == s[s.len() - n.len() - 2]);
            }
        } else {
            assert(s.subrange(s.len() as int, s.len() as int) =~= Seq::<char>::empty());
        }
    }
}

/// The request file is never the configuration file itself.
proof fn lemma_ipc_file_not_path(path: Seq<char>, file: Seq<char>)
    requires
        ends_with(file, ipc_name(final_name(path))),
    ensures
        file != path,
{
    reveal_strlit(".");
    reveal_strlit(".ipc");
    let t = without_trailing_slashes(path);
    lemma_after_last_slash_shape(t);
    let n = final_name(path);
    let name = ipc_name(n);
    if file == path {
        let l = path.len();
        let m = n.len();
        assert(name.len() == m + 5);
        assert(file.subrange(l - m - 5, l as int) == name);
        assert(path.last() == name[m as int + 4]);
        assert(t == path);
        assert(path[l - m - 1] == '/');
        assert(file.subrange(l - m - 5, l as int)[4] == path[l - m - 1]);
        if m >= 4 {
            assert(name[4] == n[3]);
        }
        assert(false);
    }
}

/// The request file's name is a plain name when the configuration file's name is a component
/// name: it begins with `.`, so not like a drive.
proof fn lemma_ipc_name_plain(f: Seq<char>)
    requires
        component_name(f),
    ensures
        plain_name(ipc_name(f)),
{
    reveal_strlit(".");
    reveal_strlit("..");
    reveal_strlit(".ipc");
    let n = ipc_name(f);
    assert(n.len() == f.len() + 5);
    assert(n[0] == '.');
    assert forall|i: int| 0 <= i < n.len() implies !is_separator(#[trigger] n[i]) by {
        if 1 <= i < f.len() + 1 {
            assert(n[i] == f[i - 1]);
        }
    }
}

/// Whether the path has no final component (nothing but `/`, or a final component `..`): the
/// paths that have no request file.
pub fn path_lacks_file_name(path: &str) -> (r: bool)
    ensures
        r == lacks_file_name(path@),
{
    proof {
        reveal_strlit("..");
    }
    let ghost s = path@;
    let n = path.unicode_len();
    let mut j = n;
    assert(s.subrange(0, n as int) =~= s);
    while j > 0 && path.get_char(j - 1) == '/'
        invariant
            j <= n,
            n == s.len(),
            s == path@,
            without_trailing_slashes(s) == without_trailing_slashes(s.subrange(0, j as int)),
        decreases j,
    {
        assert(s.subrange(0, j as int).drop_last() =~= s.subrange(0, j - 1));
        j = j - 1;
    }
    let ghost u = s.subrange(0, j as int);
    assert(without_trailing_slashes(s) == u);
    if j == 0 {
        return true;
    }
    let mut i = j;
    assert(u.subrange(i as int, j as int) =~= Seq::<char>::empty());
    assert(u.subrange(0, j as int) =~= u);
    assert(after_last_slash(u) =~= after_last_slash(u.subrange(0, i as int)) + u.subrange(i as int, j as int));
    while i > 0 && path.get_char(i - 1) != '/'
        invariant
            i <= j,
            j <= n,
            n == s.len(),
            s == path@,
            u == s.subrange(0, j as int),
            after_last_slash(u) == after_last_slash(u.subrange(0, i as int)) + u.subrange(i as int, j as int),
        decreases i,
    {
        let ghost w = u.subrange(0, i as int);
        assert(w.drop_last() =~= u.subrange(0, i - 1));
        assert(w.last() == s[i - 1]);
        assert(u.subrange(i - 1, j as int) =~= seq![w.last()] + u.subrange(i as int, j as int));
        assert(after_last_slash(u.subrange(0, i - 1)).push(w.last()) + u.subrange(i as int, j as int)
            =~= after_last_slash(u.subrange(0, i - 1)) + u.subrange(i - 1, j as int));
        i = i - 1;
    }
    proof {
        let w = u.subrange(0, i as int);
        if i > 0 {
            assert(w.last() == s[i - 1]);
        }
        assert(after_last_slash(w) =~= Seq::<char>::empty());
        assert(after_last_slash(u) =~= u.subrange(i as int, j as int));
    }
    if j - i == 2 {
        let a = path.get_char(i);
        let b = path.get_char(i + 1);
        proof {
            assert(u.subrange(i as int, j as int)[0] == a);
            assert(u.subrange(i as int, j as int)[1] == b);
            if a == '.' && b == '.' {
                assert(u.subrange(i as int, j as int) =~= ".."@);
            }
        }
        a == '.' && b == '.'
    } else {
        false
    }
}

/// The request file next to the configuration file at `path`: the same folder, the name
/// [`ipc_name`] of the configuration file's name. The path must have a final component (see
/// [`path_lacks_file_name`]). For a path whose final component every platform reads as
/// written, the request file is as [`names_ipc_file`] says: in the same folder when that folder
/// is plain (the root among them), and never the configuration file itself. The separator and
/// the folder of other paths follow the platform's path rules, and `None` comes only for such
/// paths.
pub fn get_ipc_file(path: &str) -> (r: Option<String>)
    requires
        !lacks_file_name(path@),
    ensures
        plain_file_path(path@) ==> (r matches Some(f) && names_ipc_file(f@, path@)),
{
    match path_file_name(path) {
        Some(name) => {
            let ipc = ipc_file_name(name.as_str());
            proof {
                if plain_file_path(path@) {
                    lemma_ipc_name_plain(name@);
                }
            }
            let file = path_with_file_name(path, ipc.as_str());
            proof {
                if plain_file_path(path@) {
                    lemma_ipc_file_not_path(path@, file@);
                }
            }
            Some(file)
        },
        None => None,
    }
}

/// What writing the request `msg` takes: the request file (as [`get_ipc_file`] gives it, next
/// to the configuration file) and the text to put in it, which is `msg`.
pub fn write_message(msg: &str, path: &str) -> (r: Option<(String, String)>)
    requires
        !lacks_file_name(path@),
    ensures
        r matches Some(w) ==> w.1@ == msg@,
        plain_file_path(path@) ==> (r matches Some(w) && names_ipc_file(w.0@, path@)),
{
    match get_ipc_file(path) {
        Some(file) => Some((file, msg.to_owned())),
        None => None,
    }
}

/// The request that the text of the request file holds: the text without surrounding
/// whitespace, or `None` when nothing else is left.
pub fn message_from_contents(contents: &str) -> (r: Option<String>)
    ensures
        match r {
            Some(m) => m@ == trimmed(contents@) && m@.len() > 0,
            None => trimmed(contents@).len() == 0,
        },
{
    let t = trim_text(contents);
    if t.as_str().unicode_len() == 0 {
        None
    } else {
        Some(t)
    }
}

/// The request text that a command for a running instance writes.
pub open spec fn request_text(c: CommandArgs) -> Seq<char> {
    match c {
        CommandArgs::Restart { service } => "restart "@ + service@,
        CommandArgs::Start { tag, service_or_tag } => "start "@ + service_or_tag@,
        CommandArgs::Stop { service } => "stop "@ + service@,
        CommandArgs::Status => "status _"@,
        CommandArgs::Shutdown => "shutdown _"@,
    }
}

/// The request text that a command for a running instance writes: the verb, a space, and the
/// service (`_` for the commands without one).
pub fn ipc_request(command: &CommandArgs) -> (r: String)
    ensures
        r@ == request_text(*command),
{
    match command {
        CommandArgs::Restart { service } => {
            let mut r = "restart ".to_owned();
            r.append(service.as_str());
            r
        },
        CommandArgs::Start { tag, service_or_tag } => {
            let mut r = "start ".to_owned();
            r.append(service_or_tag.as_str());
            r
        },
        CommandArgs::Stop { service } => {
            let mut r = "stop ".to_owned();
            r.append(service.as_str());
            r
        },
        CommandArgs::Status => "status _".to_owned(),
        CommandArgs::Shutdown => "shutdown _".to_owned(),
    }
}

/// The place of the first space at `from` or later, or the length when there is none.
pub open spec fn space_from(s: Seq<char>, from: int) -> int
    decreases s.len() - from,
{
    if from >= s.len() {
        s.len() as int
    } else if s[from] == ' ' {
        from
    } else {
        space_from(s, from + 1)
    }
}

/// The first two words of a request split at single spaces: the verb and the service; `None`
/// when there is no space, hence no second word.
pub open spec fn request_words(msg: Seq<char>) -> Option<(Seq<char>, Seq<char>)> {
    let i = space_from(msg, 0);
    if i >= msg.len() {
        None
    } else {
        Some((msg.subrange(0, i), msg.subrange(i + 1, space_from(msg, i + 1))))
    }
}

pub proof fn lemma_space_from(s: Seq<char>, from: int)
    requires
        0 <= from <= s.len(),
    ensures
        from <= space_from(s, from) <= s.len(),
        space_from(s, from) < s.len() ==> s[space_from(s, from)] == ' ',
    decreases s.len() - from,
{
    if from < s.len() && s[from] != ' ' {
        lemma_space_from(s, from + 1);
    }
}

fn find_space(s: &str, from: usize) -> (r: usize)
    requires
        from <= s@.len(),
    ensures
        r as int == space_from(s@, from as int),
{
    let n = s.unicode_len();
    let mut i = from;
    while i < n
        invariant
            n == s@.len(),
            from <= i <= n,
            space_from(s@, from as int) == space_from(s@, i as int),
        decreases n - i,
    {
        if s.get_char(i) == ' ' {
            return i;
        }
        i = i + 1;
    }
    i
}

/// What a request asks of the running instance.
#[derive(Debug, PartialEq, Eq, Structural)]
pub enum IpcCommand {
    Restart,
    Start,
    Stop,
    Status,
    Shutdown,
    Unknown,
}

/// The command a verb names.
pub open spec fn command_of(verb: Seq<char>) -> IpcCommand {
    if verb == "restart"@ {
        IpcCommand::Restart
    } else if verb == "start"@ {
        IpcCommand::Start
    } else if verb == "stop"@ {
        IpcCommand::Stop
    } else if verb == "status"@ {
        IpcCommand::Status
    } else if verb == "shutdown"@ {
        IpcCommand::Shutdown
    } else {
        IpcCommand::Unknown
    }
}

fn same_text(a: &str, b: &str) -> (r: bool)
    ensures
        r == (a@ == b@),
{
    let n = a.unicode_len();
    if n != b.unicode_len() {
        return false;
    }
    let mut i: usize = 0;
    while i < n
        invariant
            n == a@.len(),
            n == b@.len(),
            i <= n,
            forall|j: int| 0 <= j < i ==> a@[j] == b@[j],
        decreases n - i,
    {
        if a.get_char(i) != b.get_char(i) {
            return false;
        }
        i = i + 1;
    }
    assert(a@ =~= b@);
    true
}

/// The command a verb names.
pub fn ipc_command(verb: &str) -> (r: IpcCommand)
    ensures
        r == command_of(verb@),
{
    if same_text(verb, "restart") {
        IpcCommand::Restart
    } else if same_text(verb, "start") {
        IpcCommand::Start
    } else if same_text(verb, "stop") {
        IpcCommand::Stop
    } else if same_text(verb, "status") {
        IpcCommand::Status
    } else if same_text(verb, "shutdown") {
        IpcCommand::Shutdown
    } else {
        IpcCommand::Unknown
    }
}

/// Splits a request into its verb and its service; `None` when it has no space.
pub fn parse_ipc_message(message: &str) -> (r: Option<(String, String)>)
    ensures
        match r {
            Some((verb, service)) => request_words(message@) == Some((verb@, service@)),
            None => request_words(message@) is None,
        },
{
    let n = message.unicode_len();
    let i = find_space(message, 0);
    proof {
        lemma_space_from(message@, 0);
    }
    if i >= n {
        return None;
    }
    let j = find_space(message, i + 1);
    proof {
        lemma_space_from(message@, i + 1);
    }
    let verb = message.substring_char(0, i).to_owned();
    let service = message.substring_char(i + 1, j).to_owned();
    Some((verb, service))
}

/// The verb and the service that a command for a running instance sends.
pub open spec fn request_parts(c: CommandArgs) -> (Seq<char>, Seq<char>) {
    match c {
        CommandArgs::Restart { service } => ("restart"@, service@),
        CommandArgs::Start { tag, service_or_tag } => ("start"@, service_or_tag@),
        CommandArgs::Stop { service } => ("stop"@, service@),
        CommandArgs::Status => ("status"@, "_"@),
        CommandArgs::Shutdown => ("shutdown"@, "_"@),
    }
}

proof fn lemma_no_space_from(s: Seq<char>, from: int)
    requires
        0 <= from <= s.len(),
        forall|i: int| from <= i < s.len() ==> s[i] != ' ',
    ensures
        space_from(s, from) == s.len(),
    decreases s.len() - from,
{
    if from < s.len() {
        lemma_no_space_from(s, from + 1);
    }
}

proof fn lemma_words_of_joined(verb: Seq<char>, service: Seq<char>)
    requires
        forall|i: int| 0 <= i < verb.len() ==> verb[i] != ' ',
        forall|i: int| 0 <= i < service.len() ==> service[i] != ' ',
    ensures
        request_words(verb + " "@ + service) == Some((verb, service)),
{
    reveal_strlit(" ");
    let msg = verb + " "@ + service;
    assert forall|k: int| 0 <= k <= verb.len() implies space_from(msg, k) == verb.len() by {
        lemma_space_walk(msg, k, verb.len() as int);
    }
    assert(msg[verb.len() as int] == ' ');
    assert forall|i: int| verb.len() + 1 <= i < msg.len() implies msg[i] != ' ' by {
        assert(msg[i] == service[i - verb.len() - 1]);
    }
    lemma_no_space_from(msg, verb.len() as int + 1);
    assert(msg.subrange(0, verb.len() as int) =~= verb);
    assert(msg.subrange(verb.len() as int + 1, msg.len() as int) =~= service);
}

proof fn lemma_space_walk(s: Seq<char>, from: int, to: int)
    requires
        0 <= from <= to < s.len(),
        forall|i: int| from <= i < to ==> s[i] != ' ',
        s[to] == ' ',
    ensures
        space_from(s, from) == to,
    decreases to - from,
{
    if from < to {
        lemma_space_walk(s, from + 1, to);
    }
}

/// What a command for a running instance writes, the running instance reads back: the text
/// of the request file, without surrounding white space, is the request itself and splits into
/// the same verb and the same service, as long as the service is not empty, holds no space and
/// does not end in white space; the verb names the same command.
pub proof fn law_request_roundtrip(c: CommandArgs)
    requires
        request_parts(c).1.len() > 0,
        !is_white_space(request_parts(c).1.last()),
        forall|i: int| 0 <= i < request_parts(c).1.len() ==> request_parts(c).1[i] != ' ',
    ensures
        trimmed(request_text(c)) == request_text(c),
        request_words(trimmed(request_text(c))) == Some(request_parts(c)),
        command_of(request_parts(c).0) == match c {
            CommandArgs::Restart { .. } => IpcCommand::Restart,
            CommandArgs::Start { .. } => IpcCommand::Start,
            CommandArgs::Stop { .. } => IpcCommand::Stop,
            CommandArgs::Status => IpcCommand::Status,
            CommandArgs::Shutdown => IpcCommand::Shutdown,
        },
{
    reveal_strlit("restart");
    reveal_strlit("start");
    reveal_strlit("stop");
    reveal_strlit("status");
    reveal_strlit("shutdown");
    reveal_strlit("_");
    reveal_strlit("restart ");
    reveal_strlit("start ");
    reveal_strlit("stop ");
    reveal_strlit("status _");
    reveal_strlit("shutdown _");
    reveal_strlit(" ");
    let (verb, service) = request_parts(c);
    let text = request_text(c);
    lemma_words_of_joined(verb, service);
    assert(text =~= verb + " "@ + service);
    assert(!is_white_space(text[0]));
    assert(text[text.len() - 1] == service.last());
    assert(text.subrange(0, text.len() as int) =~= text);
}

} // verus!
