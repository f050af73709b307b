//! Plugin bookkeeping shared by the two plugin flavours (Rhai scripts and
//! native libraries): what a plugin registered, how its binds are checked,
//! how a native plugin is named and its ABI version checked.
//!
//! Running a script or loading a library is the compositor's business; the
//! decisions around it are here.
use vstd::prelude::*;

use crate::config::{pair_models, parse_action, spec_parse_action};
use crate::fmt::{debug_quoted, debug_str, decimal, decimal_i64};
use crate::keybinds::{spec_insert, spec_parse_chord, BindModel, KeybindTable, Mods};
use crate::paths::{extension_of, last_dot};
use crate::text::{chars_of, concat_str, string_of};

verus! {

/// ABI version for native plugins. Bump on any layout/semantic change;
/// the loader refuses mismatched plugins.
pub const KATNIP_ABI_VERSION: u32 = 1;

/// What a plugin did during registration, collected by the host.
#[derive(Debug, Clone)]
pub struct PluginRegistration {
    pub binds: Vec<(String, String)>,
}

/// Collected registrations from one native plugin.
#[derive(Debug, Clone)]
pub struct NativeRegistration {
    pub binds: Vec<(String, String)>,
}

/// Result of loading one plugin file.
#[derive(Debug, Clone)]
pub struct LoadedPlugin {
    pub name: String,
    pub path: String,
}

impl PluginRegistration {
    /// No binds registered.
    pub fn new() -> (r: Self)
        ensures
            r.binds@.len() == 0,
    {
        PluginRegistration { binds: Vec::new() }
    }
}

impl NativeRegistration {
    /// No binds registered.
    pub fn new() -> (r: Self)
        ensures
            r.binds@.len() == 0,
    {
        NativeRegistration { binds: Vec::new() }
    }
}

/// Why a plugin bind is refused, if it is: its chord first, then its
/// action.
pub open spec fn bind_problem(spec: Seq<char>, action: Seq<char>) -> Option<Seq<char>> {
    if spec_parse_chord(spec) is None {
        Some("invalid chord spec "@ + debug_str(spec))
    } else if spec_parse_action(action) is None {
        Some("unknown action "@ + debug_str(action))
    } else {
        None
    }
}

/// Checks that a plugin bind has a valid chord and a known action.
pub fn validate_chord_and_action(spec: &str, action: &str) -> (r: Result<(), String>)
    ensures
        match bind_problem(spec@, action@) {
            None => r is Ok,
            Some(m) => r matches Err(e) && e@ == m,
        },
{
    if Mods::parse_chord(spec).is_none() {
        let q = debug_quoted(spec);
        return Err(concat_str("invalid chord spec ", q.as_str()));
    }
    if parse_action(action).is_none() {
        let q = debug_quoted(action);
        return Err(concat_str("unknown action ", q.as_str()));
    }
    Ok(())
}

/// The keybind table after plugin binds `(chord, action)` are added in
/// order: each bind whose chord and action are valid is inserted (a later
/// bind for the same chord replacing an earlier one); refused binds are
/// left out.
pub open spec fn with_plugin_binds(table: Seq<BindModel>, binds: Seq<(Seq<char>, Seq<char>)>) -> Seq<
    BindModel,
>
    decreases binds.len(),
{
    if binds.len() == 0 {
        table
    } else {
        let prev = with_plugin_binds(table, binds.drop_last());
        let (spec, action) = binds.last();
        match (spec_parse_chord(spec), spec_parse_action(action)) {
            (Some((m, k)), Some(a)) => spec_insert(prev, m, k, a),
            _ => prev,
        }
    }
}

/// Adds the binds that plugins registered to `table`, in order, leaving out
/// those with an invalid chord or an unknown action (the loader reports
/// them).
pub fn add_plugin_binds(table: &mut KeybindTable, binds: &Vec<(String, String)>)
    ensures
        final(table)@ == with_plugin_binds(old(table)@, pair_models(binds@)),
{
    let ghost start = table@;
    let ghost pb = pair_models(binds@);
    let mut i: usize = 0;
    while i < binds.len()
        invariant
            i <= binds@.len(),
            pb == pair_models(binds@),
            table@ == with_plugin_binds(start, pb.take(i as int)),
        decreases binds.len() - i,
    {
        proof {
            assert(pb.take(i + 1).drop_last() =~= pb.take(i as int));
            assert(pb.take(i + 1).last() == (binds@[i as int].0@, binds@[i as int].1@));
        }
        let spec = binds[i].0.as_str();
        let action = binds[i].1.as_str();
        if validate_chord_and_action(spec, action).is_ok() {
            if let Some(a) = parse_action(action) {
                let _ = table.insert(spec, a);
            }
        }
        i = i + 1;
    }
    proof {
        assert(pb.take(binds@.len() as int) =~= pb);
    }
}

/// The errors reported for the binds of the plugin at `path`: one
/// `"<path>: <problem>"` per refused bind, in order.
pub open spec fn bind_errors_of(path: Seq<char>, binds: Seq<(Seq<char>, Seq<char>)>) -> Seq<Seq<char>>
    decreases binds.len(),
{
    if binds.len() == 0 {
        Seq::empty()
    } else {
        let prev = bind_errors_of(path, binds.drop_last());
        match bind_problem(binds.last().0, binds.last().1) {
            Some(m) => prev.push(path + ": "@ + m),
            None => prev,
        }
    }
}

/// The views of a list of string pairs.
pub open spec fn pair_views(v: Seq<(String, String)>) -> Seq<(Seq<char>, Seq<char>)> {
    v.map_values(|p: (String, String)| (p.0@, p.1@))
}

/// Validates every bind a plugin registered; a refused bind is reported
/// without stopping the others.
pub fn bind_errors(path: &str, binds: &Vec<(String, String)>) -> (r: Vec<String>)
    ensures
        r@.map_values(|s: String| s@) == bind_errors_of(path@, pair_views(binds@)),
{
    let mut out: Vec<String> = Vec::new();
    let mut i: usize = 0;
    while i < binds.len()
        invariant
            i <= binds@.len(),
            out@.map_values(|s: String| s@) == bind_errors_of(path@, pair_views(binds@).take(i as int)),
        decreases binds.len() - i,
    {
        let ghost pre = pair_views(binds@).take(i as int);
        let ghost next = pair_views(binds@).take(i as int + 1);
        proof {
            assert(next.drop_last() =~= pre);
            assert(next.last() == (binds@[i as int].0@, binds@[i as int].1@));
        }
        let (spec, action) = (&binds[i].0, &binds[i].1);
        match validate_chord_and_action(spec.as_str(), action.as_str()) {
            Ok(()) => {},
            Err(e) => {
                let head = concat_str(path, ": ");
                let msg = concat_str(head.as_str(), e.as_str());
                let ghost before = out@;
                out.push(msg);
                proof {
                    assert(out@.map_values(|s: String| s@) =~= before.map_values(|s: String| s@).push(
                        msg@,
                    ));
                }
            },
        }
        i = i + 1;
    }
    assert(pair_views(binds@).take(binds@.len() as int) =~= pair_views(binds@));
    out
}

/// The stem of a file name, as `Path::file_stem` gives it: the name
/// without its extension.
pub open spec fn stem_of(name: Seq<char>) -> Seq<char> {
    if extension_of(name) is None {
        name
    } else {
        name.take(last_dot(name, name.len() as int))
    }
}

/// The name without every leading `lib`.
pub open spec fn strip_lib(s: Seq<char>) -> Seq<char>
    decreases s.len(),
{
    if s.len() >= 3 && s.take(3) == "lib"@ {
        strip_lib(s.skip(3))
    } else {
        s
    }
}

/// The display name of a native plugin from its file name: the stem with
/// leading `lib`s removed (`libfoo.so` is `foo`), or `plugin` when the path
/// has no file name.
pub fn native_plugin_name(file_name: Option<&str>) -> (r: String)
    ensures
        r@ == match file_name {
            Some(n) => strip_lib(stem_of(n@)),
            None => "plugin"@,
        },
{
    let name = match file_name {
        Some(n) => n,
        None => {
            return String::from_str("plugin");
        },
    };
    let chars = chars_of(name);
    let stem_len: usize = match crate::paths::extension(name) {
        None => chars.len(),
        Some(_) => {
            let mut i: usize = chars.len();
            while i > 0 && chars[i - 1] != '.'
                invariant
                    i <= chars@.len() == name@.len(),
                    chars@ == name@,
                    last_dot(name@, name@.len() as int) == last_dot(name@, i as int),
                decreases i,
            {
                i = i - 1;
            }
            proof {
                assert(i > 0 ==> last_dot(name@, i as int) == i - 1);
                assert(i == 0 ==> last_dot(name@, i as int) == -1);
            }
            i - 1
        },
    };
    let mut start: usize = 0;
    proof {
        reveal_strlit("lib");
    }
    let ghost stem = stem_of(name@);
    assert(stem =~= chars@.take(stem_len as int));
    while stem_len - start >= 3 && chars[start] == 'l' && chars[start + 1] == 'i' && chars[start + 2] == 'b'
        invariant
            stem_len <= chars@.len(),
            start <= stem_len,
            stem == chars@.take(stem_len as int),
            strip_lib(stem) == strip_lib(chars@.subrange(start as int, stem_len as int)),
        decreases stem_len - start,
    {
        let ghost cur = chars@.subrange(start as int, stem_len as int);
        proof {
            reveal_strlit("lib");
        }
        assert(cur.take(3) =~= "lib"@);
        assert(cur.skip(3) =~= chars@.subrange(start + 3, stem_len as int));
        start = start + 3;
    }
    let ghost cur = chars@.subrange(start as int, stem_len as int);
    proof {
        reveal_strlit("lib");
        if cur.len() >= 3 && cur.take(3) == "lib"@ {
            assert(cur.take(3)[0] == 'l' && cur.take(3)[1] == 'i' && cur.take(3)[2] == 'b');
            assert(cur[0] == 'l' && cur[1] == 'i' && cur[2] == 'b');
        }
    }
    let mut out: Vec<char> = Vec::new();
    let mut k: usize = start;
    while k < stem_len
        invariant
            start <= k <= stem_len <= chars@.len(),
            out@ =~= chars@.subrange(start as int, k as int),
        decreases stem_len - k,
    {
        out.push(chars[k]);
        k = k + 1;
    }
    string_of(&out)
}

/// The refusal of a native plugin reporting ABI version `reported`, if it
/// differs from the host's.
pub open spec fn abi_problem(reported: u32) -> Option<Seq<char>> {
    if reported == KATNIP_ABI_VERSION {
        None
    } else {
        Some(
            "ABI mismatch: plugin reports "@ + decimal(reported as int) + ", host expects "@ + decimal(
                KATNIP_ABI_VERSION as int,
            ),
        )
    }
}

/// Checks the ABI version a native plugin reports against the host's.
pub fn check_abi(reported: u32) -> (r: Result<(), String>)
    ensures
        match abi_problem(reported) {
            None => r is Ok,
            Some(m) => r matches Err(e) && e@ == m,
        },
{
    if reported == KATNIP_ABI_VERSION {
        return Ok(());
    }
    let got = string_of(&decimal_i64(reported as i64));
    let want = string_of(&decimal_i64(KATNIP_ABI_VERSION as i64));
    let a = concat_str("ABI mismatch: plugin reports ", got.as_str());
    let b = concat_str(a.as_str(), ", host expects ");
    Err(concat_str(b.as_str(), want.as_str()))
}

} // verus!
