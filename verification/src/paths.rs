//! Filesystem locations: the IPC runtime directory and socket, the config
//! file, the plugin and font directories.
//!
//! Paths are held as strings. Joining follows `PathBuf::push` on Unix: an
//! absolute part replaces the base, otherwise a `/` separates the two
//! unless the base is empty or already ends in one. Environment variables
//! are read by the caller and handed in as `Option`s (`None` when unset).
use vstd::prelude::*;

use crate::order::{sort_strings, sorted_strs, str_views};
use crate::text::{chars_of, concat_str, string_of};

verus! {

/// `base` joined with `part`, as `PathBuf::push` does on Unix.
pub open spec fn joined(base: Seq<char>, part: Seq<char>) -> Seq<char> {
    if part.len() > 0 && part[0] == '/' {
        part
    } else if base.len() > 0 && base.last() != '/' {
        base + seq!['/'] + part
    } else {
        base + part
    }
}

/// The per-user configuration base: `$XDG_CONFIG_HOME` when set and not
/// empty, else `$HOME/.config`, else `.config`.
pub open spec fn config_base(xdg_config: Option<Seq<char>>, home: Option<Seq<char>>) -> Seq<char> {
    match xdg_config {
        Some(x) if x.len() > 0 => x,
        _ => match home {
            Some(h) => h + "/.config"@,
            None => ".config"@,
        },
    }
}

/// The runtime directory holding Katnip's sockets.
pub open spec fn runtime_dir_of(xdg_runtime: Option<Seq<char>>) -> Seq<char> {
    joined(
        match xdg_runtime {
            Some(r) => r,
            None => "/tmp"@,
        },
        "katnip"@,
    )
}

/// The view of an optional string.
pub open spec fn opt_view(s: Option<&str>) -> Option<Seq<char>> {
    match s {
        Some(v) => Some(v@),
        None => None,
    }
}

/// Joins `part` onto `base` as `PathBuf::push` does on Unix.
pub fn path_join(base: &str, part: &str) -> (r: String)
    ensures
        r@ == joined(base@, part@),
{
    let pv = chars_of(part);
    if pv.len() > 0 && pv[0] == '/' {
        return string_of(&pv);
    }
    let bv = chars_of(base);
    if bv.len() > 0 && bv[bv.len() - 1] != '/' {
        let with_sep = concat_str(base, "/");
        proof {
            reveal_strlit("/");
            assert(bv@.last() == base@.last());
        }
        concat_str(with_sep.as_str(), part)
    } else {
        concat_str(base, part)
    }
}

/// `$XDG_RUNTIME_DIR/katnip` (with `/tmp` standing in for an unset
/// variable).
pub fn runtime_dir(xdg_runtime: Option<&str>) -> (r: String)
    ensures
        r@ == runtime_dir_of(opt_view(xdg_runtime)),
{
    let base = match xdg_runtime {
        Some(r) => r,
        None => "/tmp",
    };
    path_join(base, "katnip")
}

/// The control socket for a Wayland display: `<runtime dir>/<display>.sock`.
pub fn socket_path(xdg_runtime: Option<&str>, wayland_display: &str) -> (r: String)
    ensures
        r@ == joined(runtime_dir_of(opt_view(xdg_runtime)), wayland_display@ + ".sock"@),
{
    let dir = runtime_dir(xdg_runtime);
    let name = concat_str(wayland_display, ".sock");
    path_join(dir.as_str(), name.as_str())
}

/// The configuration base directory (see [`config_base`]).
pub fn config_home(xdg_config: Option<&str>, home: Option<&str>) -> (r: String)
    ensures
        r@ == config_base(opt_view(xdg_config), opt_view(home)),
{
    if let Some(x) = xdg_config {
        if x.unicode_len() > 0 {
            return String::from_str(x);
        }
    }
    match home {
        Some(h) => concat_str(h, "/.config"),
        None => String::from_str(".config"),
    }
}

/// `<config base>/katnip/katnip.conf.toml`.
pub fn default_config_path(xdg_config: Option<&str>, home: Option<&str>) -> (r: String)
    ensures
        r@ == joined(joined(config_base(opt_view(xdg_config), opt_view(home)), "katnip"@), "katnip.conf.toml"@),
{
    let base = config_home(xdg_config, home);
    let dir = path_join(base.as_str(), "katnip");
    path_join(dir.as_str(), "katnip.conf.toml")
}

/// Where user plugins live: `<config base>/katnip/plugins`.
pub fn plugin_dir(xdg_config: Option<&str>, home: Option<&str>) -> (r: String)
    ensures
        r@ == joined(joined(config_base(opt_view(xdg_config), opt_view(home)), "katnip"@), "plugins"@),
{
    let base = config_home(xdg_config, home);
    let dir = path_join(base.as_str(), "katnip");
    path_join(dir.as_str(), "plugins")
}

/// Index of the last `.` among the first `n` characters, or -1.
pub open spec fn last_dot(s: Seq<char>, n: int) -> int
    decreases n,
{
    if n <= 0 {
        -1
    } else if s[n - 1] == '.' {
        n - 1
    } else {
        last_dot(s, n - 1)
    }
}

/// The extension of a file name, as `Path::extension` gives it: what
/// follows the last `.`, unless there is none, it is the first character,
/// or the name is `..`.
pub open spec fn extension_of(name: Seq<char>) -> Option<Seq<char>> {
    let i = last_dot(name, name.len() as int);
    if name == ".."@ || i <= 0 {
        None
    } else {
        Some(name.subrange(i + 1, name.len() as int))
    }
}

/// The name's extension is one of `exts`.
pub open spec fn has_ext_in(name: Seq<char>, exts: Seq<&str>) -> bool {
    exists|k: int| 0 <= k < exts.len() && extension_of(name) == Some((#[trigger] exts[k])@)
}

/// The names with one of the extensions, in their order.
pub open spec fn with_ext(names: Seq<Seq<char>>, exts: Seq<&str>) -> Seq<Seq<char>>
    decreases names.len(),
{
    if names.len() == 0 {
        names
    } else if has_ext_in(names.last(), exts) {
        with_ext(names.drop_last(), exts).push(names.last())
    } else {
        with_ext(names.drop_last(), exts)
    }
}

/// The extension of a file name (see [`extension_of`]).
pub fn extension(name: &str) -> (r: Option<String>)
    ensures
        r matches Some(e) ==> extension_of(name@) == Some(e@),
        r is None ==> extension_of(name@) is None,
{
    let n = name.unicode_len();
    let mut i: usize = n;
    while i > 0 && name.get_char(i - 1) != '.'
        invariant
            i <= n == name@.len(),
            last_dot(name@, n as int) == last_dot(name@, i as int),
        decreases i,
    {
        i = i - 1;
    }
    let ghost d = last_dot(name@, n as int);
    assert(i == 0 ==> d == -1);
    assert(i > 0 ==> d == i - 1);
    proof {
        reveal_strlit("..");
    }
    if i <= 1 || (n == 2 && name.get_char(0) == '.' && name.get_char(1) == '.') {
        proof {
            if n == 2 && i > 1 {
                assert(name@ =~= ".."@ <==> (name@[0] == '.' && name@[1] == '.'));
            }
        }
        return None;
    }
    proof {
        if name@ == ".."@ {
            assert(name@[0] == '.' && name@[1] == '.');
        }
    }
    Some(name.substring_char(i, n).to_string())
}

/// Whether the name's extension is one of `exts`.
pub fn has_extension(name: &str, exts: &[&str]) -> (r: bool)
    ensures
        r == has_ext_in(name@, exts@),
{
    let e = extension(name);
    match e {
        None => false,
        Some(e) => {
            let mut k: usize = 0;
            while k < exts.len()
                invariant
                    k <= exts@.len(),
                    extension_of(name@) == Some(e@),
                    forall|j: int| 0 <= j < k ==> extension_of(name@) != Some((#[trigger] exts@[j])@),
                decreases exts.len() - k,
            {
                if crate::text::str_eq(e.as_str(), exts[k]) {
                    return true;
                }
                k = k + 1;
            }
            false
        },
    }
}

/// The names whose extension is one of `exts`, sorted. Directory listings
/// come in no particular order; this fixes the order plugins load in and
/// the order sockets are reported in.
pub fn select_by_extension(names: &Vec<String>, exts: &[&str]) -> (r: Vec<String>)
    ensures
        sorted_strs(str_views(r@)),
        str_views(r@).to_multiset() == with_ext(str_views(names@), exts@).to_multiset(),
{
    let mut kept: Vec<String> = Vec::new();
    let mut i: usize = 0;
    while i < names.len()
        invariant
            i <= names@.len(),
            str_views(kept@) == with_ext(str_views(names@).take(i as int), exts@),
        decreases names.len() - i,
    {
        let ghost pre = str_views(names@).take(i as int);
        let ghost next = str_views(names@).take(i as int + 1);
        proof {
            assert(next.drop_last() =~= pre);
            assert(next.last() == names@[i as int]@);
        }
        if has_extension(names[i].as_str(), exts) {
            let ghost before = kept@;
            kept.push(names[i].clone());
            proof {
                assert(str_views(kept@) =~= str_views(before).push(names@[i as int]@));
            }
        }
        i = i + 1;
    }
    assert(str_views(names@).take(names@.len() as int) =~= str_views(names@));
    sort_strings(kept)
}

/// The font directories scanned, best first: `$XDG_DATA_HOME/fonts` (with
/// `$HOME/.local/share` standing in for an unset or empty variable),
/// `$HOME/.fonts`, then the system font directories.
pub open spec fn font_dirs_of(home: Option<Seq<char>>, xdg_data: Option<Seq<char>>) -> Seq<Seq<char>> {
    let data = match xdg_data {
        Some(d) if d.len() > 0 => Some(d),
        _ => match home {
            Some(h) => Some(h + "/.local/share"@),
            None => None,
        },
    };
    let first = match data {
        Some(d) => seq![d + "/fonts"@],
        None => Seq::empty(),
    };
    let second = match home {
        Some(h) => seq![h + "/.fonts"@],
        None => Seq::empty(),
    };
    first + second + seq!["/usr/share/fonts"@, "/usr/local/share/fonts"@]
}

/// The font directories to scan (see [`font_dirs_of`]).
pub fn font_dirs(home: Option<&str>, xdg_data: Option<&str>) -> (r: Vec<String>)
    ensures
        str_views(r@) == font_dirs_of(opt_view(home), opt_view(xdg_data)),
{
    let data: Option<String> = match xdg_data {
        Some(d) if d.unicode_len() > 0 => Some(String::from_str(d)),
        _ => match home {
            Some(h) => Some(concat_str(h, "/.local/share")),
            None => None,
        },
    };
    let mut r: Vec<String> = Vec::new();
    if let Some(d) = data {
        r.push(concat_str(d.as_str(), "/fonts"));
    }
    if let Some(h) = home {
        r.push(concat_str(h, "/.fonts"));
    }
    r.push(String::from_str("/usr/share/fonts"));
    r.push(String::from_str("/usr/local/share/fonts"));
    assert(str_views(r@) =~= font_dirs_of(opt_view(home), opt_view(xdg_data)));
    r
}

} // verus!
