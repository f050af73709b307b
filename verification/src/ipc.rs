//! The control protocol: one newline-terminated command per connection,
//! answered by one line.
//!
//! - `ping` is answered `pong`;
//! - `version` with a JSON version object;
//! - `dispatch <action>` runs an action (config grammar) and answers `ok`;
//! - `get workspaces`, `get windows`, `get activewindow` answer JSON.
//!
//! Errors are answered `ERR <message>`. This module decides what a command
//! asks for; the compositor performs it and renders the JSON.
use vstd::prelude::*;

use crate::config::{head_and_rest, parse_action, spec_parse_action, split_head};
use crate::fmt::{debug_path, debug_quoted, debug_str, path_debug_str};
use crate::keybinds::{Action, ActionModel};
use crate::order::{sorted_strs, str_views};
use crate::paths::{has_ext_in, joined, path_join, select_by_extension, with_ext};
use crate::text::{chars_eq_str, chars_of, concat_str, string_of, trim, trim_chars};

verus! {

/// What a `get` command asks for.
#[derive(Debug, Clone, Copy, PartialEq, Eq, Structural)]
pub enum Query {
    Workspaces,
    Windows,
    ActiveWindow,
}

/// What a command asks the compositor to do.
#[derive(Debug)]
pub enum Request {
    /// Answer with this line and do nothing else.
    Reply(String),
    /// Answer with the version object.
    Version,
    /// Run the action, then answer `ok`.
    Dispatch(Action),
    /// Answer with the queried state.
    Get(Query),
}

/// Model of a [`Request`].
pub enum RequestModel {
    Reply(Seq<char>),
    Version,
    Dispatch(ActionModel),
    Get(Query),
}

impl View for Request {
    type V = RequestModel;

    open spec fn view(&self) -> RequestModel {
        match self {
            Request::Reply(s) => RequestModel::Reply(s@),
            Request::Version => RequestModel::Version,
            Request::Dispatch(a) => RequestModel::Dispatch(a@),
            Request::Get(q) => RequestModel::Get(*q),
        }
    }
}

/// The request a received line makes.
pub open spec fn spec_request(line: Seq<char>) -> RequestModel {
    let c = trim(line);
    if c.len() == 0 {
        RequestModel::Reply("ERR empty command"@)
    } else {
        let (verb, rest) = head_and_rest(c);
        if verb == "ping"@ {
            RequestModel::Reply("pong"@)
        } else if verb == "version"@ {
            RequestModel::Version
        } else if verb == "dispatch"@ {
            match spec_parse_action(rest) {
                Some(a) => RequestModel::Dispatch(a),
                None => RequestModel::Reply("ERR unknown action "@ + debug_str(rest)),
            }
        } else if verb == "get"@ {
            if rest == "workspaces"@ {
                RequestModel::Get(Query::Workspaces)
            } else if rest == "windows"@ {
                RequestModel::Get(Query::Windows)
            } else if rest == "activewindow"@ {
                RequestModel::Get(Query::ActiveWindow)
            } else {
                RequestModel::Reply(
                    "ERR unknown get query "@ + debug_str(rest)
                        + " (try: workspaces, windows, activewindow)"@,
                )
            }
        } else {
            RequestModel::Reply(
                "ERR unknown command "@ + debug_str(verb)
                    + " (try: ping, version, dispatch <action>, get <workspaces|windows|activewindow>)"@,
            )
        }
    }
}

/// Decides what a received line (without its newline) asks for.
pub fn parse_request(line: &str) -> (r: Request)
    ensures
        r@ == spec_request(line@),
{
    let all = chars_of(line);
    let c = trim_chars(&all);
    if c.len() == 0 {
        return Request::Reply(String::from_str("ERR empty command"));
    }
    let (verb, rest) = split_head(&c);
    if chars_eq_str(&verb, "ping") {
        Request::Reply(String::from_str("pong"))
    } else if chars_eq_str(&verb, "version") {
        Request::Version
    } else if chars_eq_str(&verb, "dispatch") {
        let rest_s = string_of(&rest);
        match parse_action(rest_s.as_str()) {
            Some(a) => Request::Dispatch(a),
            None => {
                let q = debug_quoted(rest_s.as_str());
                Request::Reply(concat_str("ERR unknown action ", q.as_str()))
            },
        }
    } else if chars_eq_str(&verb, "get") {
        if chars_eq_str(&rest, "workspaces") {
            Request::Get(Query::Workspaces)
        } else if chars_eq_str(&rest, "windows") {
            Request::Get(Query::Windows)
        } else if chars_eq_str(&rest, "activewindow") {
            Request::Get(Query::ActiveWindow)
        } else {
            let rest_s = string_of(&rest);
            let q = debug_quoted(rest_s.as_str());
            let head = concat_str("ERR unknown get query ", q.as_str());
            Request::Reply(concat_str(head.as_str(), " (try: workspaces, windows, activewindow)"))
        }
    } else {
        let verb_s = string_of(&verb);
        let q = debug_quoted(verb_s.as_str());
        let head = concat_str("ERR unknown command ", q.as_str());
        Request::Reply(
            concat_str(
                head.as_str(),
                " (try: ping, version, dispatch <action>, get <workspaces|windows|activewindow>)",
            ),
        )
    }
}

/// The body of a `{:?}`-rendered list of paths: each path rendered, joined
/// by `", "`.
pub open spec fn path_list_body(paths: Seq<Seq<char>>) -> Seq<char>
    decreases paths.len(),
{
    if paths.len() == 0 {
        Seq::empty()
    } else if paths.len() == 1 {
        path_debug_str(paths[0])
    } else {
        path_list_body(paths.drop_last()) + ", "@ + path_debug_str(paths.last())
    }
}

/// The extensions of socket files.
pub open spec fn sock_exts() -> Seq<&'static str> {
    seq!["sock"]
}

/// The message for more than one socket: the full paths, sorted, rendered
/// as a `{:?}` list.
pub open spec fn many_sockets_message(dir: Seq<char>, sorted_names: Seq<Seq<char>>) -> Seq<char> {
    "multiple Katnip instances found; pick one via KATNIP_SOCKET: ["@ + path_list_body(
        sorted_names.map_values(|n: Seq<char>| joined(dir, n)),
    ) + "]"@
}

proof fn lemma_single_perm(a: Seq<Seq<char>>, b: Seq<Seq<char>>)
    requires
        a.to_multiset() == b.to_multiset(),
        b.len() == 1,
    ensures
        a == b,
{
    broadcast use vstd::seq_lib::group_to_multiset_ensures;

    vstd::seq_lib::to_multiset_len(a);
    vstd::seq_lib::to_multiset_len(b);
    assert(b.contains(b[0]));
    assert(a.to_multiset().count(b[0]) > 0);
    assert(a.contains(b[0]));
    assert(a.len() == 1);
    assert(a =~= b);
}

/// Picks the socket to talk to: `explicit` (from `$KATNIP_SOCKET`) when
/// given, otherwise the only `*.sock` among the file names `names` of the
/// runtime directory `dir`. With none or several, the error says so (and
/// lists them, sorted).
pub fn select_socket(explicit: Option<&str>, dir: &str, names: &Vec<String>) -> (r: Result<String, String>)
    ensures
        explicit matches Some(e) ==> (r matches Ok(p) && p@ == e@),
        explicit is None ==> {
            let socks = with_ext(str_views(names@), sock_exts());
            &&& socks.len() == 0 ==> (r matches Err(m) && m@ == "no Katnip socket found in "@ + dir@
                + " (is Katnip running?)"@)
            &&& socks.len() == 1 ==> (r matches Ok(p) && p@ == joined(dir@, socks[0]))
            &&& socks.len() > 1 ==> (r matches Err(m) && exists|s: Seq<Seq<char>>|
                sorted_strs(s) && s.to_multiset() == socks.to_multiset() && m@ == many_sockets_message(
                    dir@,
                    s,
                ))
        },
{
    if let Some(e) = explicit {
        return Ok(String::from_str(e));
    }
    let exts: [&str; 1] = ["sock"];
    proof {
        assert(exts@ =~= sock_exts());
    }
    let socks = select_by_extension(names, &exts);
    let ghost found = with_ext(str_views(names@), sock_exts());
    proof {
        broadcast use vstd::seq_lib::group_to_multiset_ensures;

        vstd::seq_lib::to_multiset_len(found);
        vstd::seq_lib::to_multiset_len(str_views(socks@));
        assert(str_views(socks@).len() == found.len());
    }
    if socks.len() == 0 {
        let head = concat_str("no Katnip socket found in ", dir);
        return Err(concat_str(head.as_str(), " (is Katnip running?)"));
    }
    if socks.len() == 1 {
        proof {
            lemma_single_perm(found, str_views(socks@));
            assert(str_views(socks@)[0] == socks@[0]@);
        }
        return Ok(path_join(dir, socks[0].as_str()));
    }
    let ghost sv = str_views(socks@);
    let ghost full = sv.map_values(|n: Seq<char>| joined(dir@, n));
    let mut body = String::new();
    let mut i: usize = 0;
    while i < socks.len()
        invariant
            i <= socks@.len(),
            sv == str_views(socks@),
            full == sv.map_values(|n: Seq<char>| joined(dir@, n)),
            body@ == path_list_body(full.take(i as int)),
        decreases socks.len() - i,
    {
        let p = path_join(dir, socks[i].as_str());
        let d = debug_path(p.as_str());
        proof {
            assert(sv[i as int] == socks@[i as int]@);
            assert(full.take(i + 1).drop_last() =~= full.take(i as int));
            assert(full.take(i + 1).last() == p@);
            assert(i == 0 ==> full.take(1) =~= seq![p@]);
        }
        if i == 0 {
            body = d;
        } else {
            let with_sep = concat_str(body.as_str(), ", ");
            body = concat_str(with_sep.as_str(), d.as_str());
        }
        i = i + 1;
    }
    proof {
        assert(full.take(socks@.len() as int) =~= full);
    }
    let head = concat_str("multiple Katnip instances found; pick one via KATNIP_SOCKET: [", body.as_str());
    let msg = concat_str(head.as_str(), "]");
    proof {
        assert(msg@ == many_sockets_message(dir@, sv));
    }
    Err(msg)
}

} // verus!
