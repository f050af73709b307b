//! Katnip configuration: the validated, typed [`Config`] model, its built-in
//! defaults, the action grammar and the keybind table built from it.
//!
//! Reading the TOML text into [`ConfigRaw`] is the deserializer's job; from
//! there on everything (defaults, range checks, the action grammar) is here.
use vstd::prelude::*;

use crate::fmt::{decimal, decimal_i64, debug_quoted, debug_str};
use crate::keybinds::{
    spec_insert, spec_parse_chord, Action, ActionModel, BindModel, KeybindTable, distinct_chords,
};
use crate::order::{lemma_str_lt_trans, str_less, str_lt};
use crate::wm::WORKSPACE_COUNT;
use crate::text::{
    chars_eq_str, chars_of, is_space, is_space_char, lower_chars, lower_seq, string_of, trim,
    trim_chars,
};

verus! {

/// `[general]` section: layout metrics and ecosystem programs.
#[derive(Debug)]
pub struct General {
    pub outer_gap: i32,
    pub inner_gap: i32,
    pub border_width: i32,
    /// Program launched by the `terminal` action.
    pub terminal: String,
}

/// `[bar]` section: the built-in status bar.
#[derive(Debug, Clone, Copy, PartialEq, Eq, Structural)]
pub struct BarConfig {
    pub enabled: bool,
    pub height: i32,
}

/// A loaded and validated configuration.
#[derive(Debug)]
pub struct Config {
    pub general: General,
    pub bar: BarConfig,
    /// `[env]` entries, ordered by variable name.
    pub env: Vec<(String, String)>,
    /// Raw keybind entries in declaration order: chord spec -> action string.
    pub keybinds: Vec<(String, String)>,
    pub autostart: Vec<String>,
}

/// `[general]` as written in the file: every key optional.
#[derive(Debug)]
pub struct GeneralRaw {
    pub outer_gap: Option<i32>,
    pub inner_gap: Option<i32>,
    pub border_width: Option<i32>,
    pub terminal: Option<String>,
}

/// `[bar]` as written in the file.
#[derive(Debug)]
pub struct BarRaw {
    pub enabled: Option<bool>,
    pub height: Option<i32>,
}

/// The whole file as the deserializer reads it: sections missing from the
/// file are empty, map sections come ordered by key.
#[derive(Debug)]
pub struct ConfigRaw {
    pub general: GeneralRaw,
    pub bar: BarRaw,
    pub env: Vec<(String, String)>,
    pub keybinds: Vec<(String, String)>,
    /// `[autostart] exec`.
    pub autostart_exec: Option<Vec<String>>,
}

/// Errors that can occur while loading config.
#[derive(Debug, PartialEq, Eq)]
pub enum ConfigError {
    /// The file could not be read: path and reason.
    Io(String, String),
    /// The TOML text is malformed or has unknown keys.
    Parse(String),
    /// A value is out of range or a keybind entry is invalid.
    Validation(String),
}

/// The entries are ordered by key, each key once (as in a sorted map).
pub open spec fn ascending_keys(v: Seq<(String, String)>) -> bool {
    forall|i: int, j: int| 0 <= i < j < v.len() ==> str_lt((#[trigger] v[i]).0@, (#[trigger] v[j]).0@)
}

/// Whether the entries are ordered by key, each key once.
pub fn keys_ascending(v: &Vec<(String, String)>) -> (r: bool)
    ensures
        r == ascending_keys(v@),
{
    let n = v.len();
    if n == 0 {
        return true;
    }
    let mut i: usize = 0;
    while i + 1 < n
        invariant
            n == v@.len(),
            n >= 1,
            i + 1 <= n,
            forall|a: int, b: int| 0 <= a < b <= i ==> str_lt((#[trigger] v@[a]).0@, (#[trigger] v@[b]).0@),
        decreases n - i,
    {
        if !str_less(v[i].0.as_str(), v[i + 1].0.as_str()) {
            assert(!ascending_keys(v@)) by {
                assert(!str_lt(v@[i as int].0@, v@[i + 1].0@));
            }
            return false;
        }
        proof {
            assert forall|a: int, b: int| 0 <= a < b <= i + 1 implies str_lt(
                (#[trigger] v@[a]).0@,
                (#[trigger] v@[b]).0@,
            ) by {
                if b == i + 1 && a < i {
                    lemma_str_lt_trans(v@[a].0@, v@[i as int].0@, v@[b].0@);
                }
            }
        }
        i = i + 1;
    }
    true
}

/// The keybind table the compositor starts with for configuration `c`:
/// the configured one, or the built-in one when none is configured; an
/// error in the configured entries is reported.
pub open spec fn startup_table(c: Config) -> Result<Seq<BindModel>, Seq<char>> {
    match spec_table(pair_models(c.keybinds@)) {
        Ok(b) => if b.len() > 0 {
            Ok(b)
        } else {
            spec_table(default_keybinds())
        },
        Err(m) => Err(m),
    }
}

/// What the compositor starts with, given the outcome of loading the
/// configuration file: that configuration, or the built-in one when it
/// could not be loaded; and the keybind table for it ([`startup_table`]),
/// whose error stops the start.
pub fn startup(loaded: Result<Config, ConfigError>) -> (r: (Config, Result<KeybindTable, ConfigError>))
    ensures
        match loaded {
            Ok(c) => r.0 == c,
            Err(_) => is_default_config(r.0),
        },
        match startup_table(r.0) {
            Ok(b) => r.1 matches Ok(t) && t@ == b,
            Err(msg) => r.1 matches Err(ConfigError::Validation(m)) && m@ == msg,
        },
{
    let config = match loaded {
        Ok(c) => c,
        Err(_) => Config::with_defaults(),
    };
    let table = match config.keybind_table() {
        Ok(t) => if !t.is_empty() {
            Ok(t)
        } else {
            let d = Config::with_defaults();
            d.keybind_table()
        },
        Err(e) => Err(e),
    };
    (config, table)
}

/// Pairs of strings as pairs of character sequences.
pub open spec fn pair_models(v: Seq<(String, String)>) -> Seq<(Seq<char>, Seq<char>)> {
    v.map_values(|p: (String, String)| (p.0@, p.1@))
}

/// The built-in keybinds.
pub open spec fn default_keybinds() -> Seq<(Seq<char>, Seq<char>)> {
    seq![
        ("SUPER+Return"@, "exec lumiterm"@),
        ("SUPER+E"@, "exec lumiterm -e luminousity"@),
        ("SUPER+Q"@, "close"@),
        ("SUPER+F"@, "toggle-floating"@),
        ("SUPER+SHIFT+E"@, "quit"@),
    ]
}

/// The built-in environment for spawned programs.
pub open spec fn default_env() -> Seq<(Seq<char>, Seq<char>)> {
    seq![("SHELL"@, "/usr/bin/lush"@), ("TERMINAL"@, "lumiterm"@)]
}

/// The built-in defaults.
pub open spec fn is_default_config(c: Config) -> bool {
    &&& c.general.outer_gap == 8
    &&& c.general.inner_gap == 8
    &&& c.general.border_width == 2
    &&& c.general.terminal@ == "lumiterm"@
    &&& c.bar == BarConfig { enabled: true, height: 28 }
    &&& pair_models(c.env@) == default_env()
    &&& pair_models(c.keybinds@) == default_keybinds()
    &&& c.autostart@.len() == 0
}

/// Gaps must lie in `0..=512`.
pub open spec fn gap_ok(v: int) -> bool {
    0 <= v <= 512
}

/// The message for a gap outside its range.
pub open spec fn gap_error(field: Seq<char>, v: int) -> Seq<char> {
    "general."@ + field + " must be between 0 and 512, got "@ + decimal(v)
}

/// The first validation error of a raw config, checked in file order:
/// `outer_gap`, `inner_gap`, then `terminal`.
pub open spec fn raw_error(raw: ConfigRaw) -> Option<Seq<char>> {
    if raw.general.outer_gap is Some && !gap_ok(raw.general.outer_gap->0 as int) {
        Some(gap_error("outer_gap"@, raw.general.outer_gap->0 as int))
    } else if raw.general.inner_gap is Some && !gap_ok(raw.general.inner_gap->0 as int) {
        Some(gap_error("inner_gap"@, raw.general.inner_gap->0 as int))
    } else if raw.general.terminal is Some && trim(raw.general.terminal->0@).len() == 0 {
        Some("general.terminal must not be empty"@)
    } else {
        None
    }
}

/// The config a valid raw config yields: each key present overrides its
/// default (a negative border width counts as zero), and the map sections
/// and the autostart list are taken as they are.
pub open spec fn config_of_raw(c: Config, raw: ConfigRaw) -> bool {
    &&& c.general.outer_gap == (match raw.general.outer_gap {
        Some(g) => g,
        None => 8,
    })
    &&& c.general.inner_gap == (match raw.general.inner_gap {
        Some(g) => g,
        None => 8,
    })
    &&& c.general.border_width == (match raw.general.border_width {
        Some(b) => if b >= 0 {
            b
        } else {
            0
        },
        None => 2,
    })
    &&& c.general.terminal@ == (match raw.general.terminal {
        Some(t) => t@,
        None => "lumiterm"@,
    })
    &&& c.bar.enabled == (match raw.bar.enabled {
        Some(e) => e,
        None => true,
    })
    &&& c.bar.height == (match raw.bar.height {
        Some(h) => h,
        None => 28,
    })
    &&& c.env@ == raw.env@
    &&& c.keybinds@ == raw.keybinds@
    &&& c.autostart@ == (match raw.autostart_exec {
        Some(v) => v@,
        None => Seq::<String>::empty(),
    })
}

/// Index of the first whitespace character, if any.
pub open spec fn first_space_from(s: Seq<char>, i: int) -> Option<int>
    decreases s.len() - i,
{
    if i >= s.len() || i < 0 {
        None
    } else if is_space(s[i]) {
        Some(i)
    } else {
        first_space_from(s, i + 1)
    }
}

/// `s.split_once(char::is_whitespace)` followed by trimming the rest:
/// the word before the first whitespace and the trimmed remainder.
pub open spec fn head_and_rest(s: Seq<char>) -> (Seq<char>, Seq<char>) {
    match first_space_from(s, 0) {
        Some(i) => (s.take(i), trim(s.skip(i + 1))),
        None => (s, Seq::empty()),
    }
}

/// Value of a run of decimal digits.
pub open spec fn digits_value(d: Seq<char>) -> nat
    decreases d.len(),
{
    if d.len() == 0 {
        0
    } else {
        digits_value(d.drop_last()) * 10 + ((d.last() as u32) - ('0' as u32)) as nat
    }
}

/// Every character is an ASCII digit.
pub open spec fn all_digits(d: Seq<char>) -> bool {
    forall|i: int| 0 <= i < d.len() ==> is_digit(#[trigger] d[i])
}

pub open spec fn is_digit(c: char) -> bool {
    '0' <= c && c <= '9'
}

/// The characters after an optional leading `+`.
pub open spec fn unsigned_digits(s: Seq<char>) -> Seq<char> {
    if s.len() > 0 && s[0] == '+' {
        s.drop_first()
    } else {
        s
    }
}

/// `str::parse::<usize>`: an optional `+`, then at least one ASCII digit,
/// with a value that fits a `usize`.
pub open spec fn spec_parse_usize(s: Seq<char>) -> Option<nat> {
    let d = unsigned_digits(s);
    if d.len() >= 1 && all_digits(d) && digits_value(d) <= usize::MAX {
        Some(digits_value(d))
    } else {
        None
    }
}

/// A 1-based workspace number (1 to [`WORKSPACE_COUNT`]) as the 0-based
/// index it names.
pub open spec fn workspace_arg(rest: Seq<char>) -> Option<nat> {
    match spec_parse_usize(rest) {
        Some(n) => if 1 <= n <= WORKSPACE_COUNT {
            Some((n - 1) as nat)
        } else {
            None
        },
        None => None,
    }
}

/// The action grammar: `exec <cmd>`, `close`/`killwindow`,
/// `toggle-floating`/`float`, `quit`/`exit`, `workspace N` and
/// `move-to-workspace N` (1-based `N`, at most [`WORKSPACE_COUNT`]); the verb is case-insensitive and
/// verbs without an argument take none.
pub open spec fn spec_parse_action(s: Seq<char>) -> Option<ActionModel> {
    let (head, rest) = head_and_rest(trim(s));
    let verb = lower_seq(head);
    if verb == "exec"@ && rest.len() > 0 {
        Some(ActionModel::Exec(rest))
    } else if (verb == "close"@ || verb == "killwindow"@) && rest.len() == 0 {
        Some(ActionModel::CloseFocused)
    } else if (verb == "toggle-floating"@ || verb == "float"@) && rest.len() == 0 {
        Some(ActionModel::ToggleFloating)
    } else if (verb == "quit"@ || verb == "exit"@) && rest.len() == 0 {
        Some(ActionModel::Quit)
    } else if verb == "workspace"@ {
        match workspace_arg(rest) {
            Some(n) => Some(ActionModel::FocusWorkspace(n)),
            None => None,
        }
    } else if verb == "move-to-workspace"@ {
        match workspace_arg(rest) {
            Some(n) => Some(ActionModel::MoveToWorkspace(n)),
            None => None,
        }
    } else {
        None
    }
}

/// The keybind table built from entries in order, or the message of the
/// first entry that fails: its action first, then its chord.
pub open spec fn spec_table(entries: Seq<(Seq<char>, Seq<char>)>) -> Result<
    Seq<BindModel>,
    Seq<char>,
>
    decreases entries.len(),
{
    if entries.len() == 0 {
        Ok(Seq::empty())
    } else {
        match spec_table(entries.drop_last()) {
            Err(e) => Err(e),
            Ok(b) => {
                let (spec, action) = entries.last();
                match spec_parse_action(action) {
                    None => Err("unknown action "@ + debug_str(action)),
                    Some(a) => match spec_parse_chord(spec) {
                        None => Err("invalid keybind spec "@ + debug_str(spec)),
                        Some((m, k)) => Ok(spec_insert(b, m, k, a)),
                    },
                }
            },
        }
    }
}

fn owned(s: &str) -> (r: String)
    ensures
        r@ == s@,
{
    String::from_str(s)
}

fn pair(a: &str, b: &str) -> (r: (String, String))
    ensures
        r.0@ == a@,
        r.1@ == b@,
{
    (owned(a), owned(b))
}

/// Checks a gap value against its range.
fn validate_gap(field: &str, value: i32) -> (r: Result<i32, ConfigError>)
    ensures
        gap_ok(value as int) ==> r == Ok::<i32, ConfigError>(value),
        !gap_ok(value as int) ==> (r matches Err(ConfigError::Validation(m)) && m@ == gap_error(
            field@,
            value as int,
        )),
{
    if 0 <= value && value <= 512 {
        Ok(value)
    } else {
        let mut msg = owned("general.");
        msg.append(field);
        msg.append(" must be between 0 and 512, got ");
        let digits = decimal_i64(value as i64);
        let tail = string_of(&digits);
        msg.append(tail.as_str());
        Err(ConfigError::Validation(msg))
    }
}

/// `split_once(char::is_whitespace)` on characters, with the remainder
/// trimmed (see [`head_and_rest`]).
pub(crate) fn split_head(t: &Vec<char>) -> (r: (Vec<char>, Vec<char>))
    ensures
        (r.0@, r.1@) == head_and_rest(t@),
{
    // Split at the first whitespace character.
    let mut i: usize = 0;
    while i < t.len() && !is_space_char(t[i])
        invariant
            i <= t.len(),
            first_space_from(t@, 0) == first_space_from(t@, i as int),
        decreases t.len() - i,
    {
        i = i + 1;
    }
    let mut head: Vec<char> = Vec::new();
    let mut k: usize = 0;
    while k < i
        invariant
            k <= i <= t.len(),
            head@ =~= t@.take(k as int),
        decreases i - k,
    {
        head.push(t[k]);
        k = k + 1;
    }
    let mut rest_raw: Vec<char> = Vec::new();
    if i < t.len() {
        let mut k: usize = i + 1;
        while k < t.len()
            invariant
                i < t.len(),
                i + 1 <= k <= t.len(),
                rest_raw@ =~= t@.subrange(i + 1, k as int),
            decreases t.len() - k,
        {
            rest_raw.push(t[k]);
            k = k + 1;
        }
    }
    let rest = trim_chars(&rest_raw);
    proof {
        if i < t.len() {
            assert(first_space_from(t@, i as int) == Some(i as int));
            assert(t@.skip(i + 1) =~= rest_raw@);
        } else {
            assert(first_space_from(t@, i as int) is None);
            assert(head@ =~= t@);
            assert(rest_raw@ =~= Seq::<char>::empty());
            assert(trim(Seq::<char>::empty()) =~= Seq::<char>::empty());
        }
        assert(head_and_rest(t@) == (head@, rest@));
    }
    (head, rest)
}

/// Parses an action string (`"exec foo --bar"`, `"close"`, ...).
pub fn parse_action(s: &str) -> (r: Option<Action>)
    ensures
        match r {
            None => spec_parse_action(s@) is None,
            Some(a) => spec_parse_action(s@) == Some(a@),
        },
{
    let all = chars_of(s);
    let t = trim_chars(&all);
    let (head, rest) = split_head(&t);
    let verb = lower_chars(&head);
    if chars_eq_str(&verb, "exec") && rest.len() > 0 {
        Some(Action::Exec(string_of(&rest)))
    } else if (chars_eq_str(&verb, "close") || chars_eq_str(&verb, "killwindow")) && rest.len()
        == 0 {
        Some(Action::CloseFocused)
    } else if (chars_eq_str(&verb, "toggle-floating") || chars_eq_str(&verb, "float"))
        && rest.len() == 0 {
        Some(Action::ToggleFloating)
    } else if (chars_eq_str(&verb, "quit") || chars_eq_str(&verb, "exit")) && rest.len() == 0 {
        Some(Action::Quit)
    } else if chars_eq_str(&verb, "workspace") {
        match workspace_number(&rest) {
            Some(n) => Some(Action::FocusWorkspace(n)),
            None => None,
        }
    } else if chars_eq_str(&verb, "move-to-workspace") {
        match workspace_number(&rest) {
            Some(n) => Some(Action::MoveToWorkspace(n)),
            None => None,
        }
    } else {
        None
    }
}

/// A 1-based workspace number, returned 0-based.
fn workspace_number(rest: &Vec<char>) -> (r: Option<usize>)
    ensures
        match r {
            None => workspace_arg(rest@) is None,
            Some(n) => workspace_arg(rest@) == Some(n as nat),
        },
{
    match parse_usize(rest) {
        Some(n) => if n >= 1 && n <= WORKSPACE_COUNT {
            Some(n - 1)
        } else {
            None
        },
        None => None,
    }
}

/// `str::parse::<usize>` over characters.
pub fn parse_usize(s: &Vec<char>) -> (r: Option<usize>)
    ensures
        match r {
            None => spec_parse_usize(s@) is None,
            Some(n) => spec_parse_usize(s@) == Some(n as nat),
        },
{
    let start: usize = if s.len() > 0 && s[0] == '+' {
        1
    } else {
        0
    };
    let ghost d = unsigned_digits(s@);
    assert(d =~= s@.skip(start as int));
    if start >= s.len() {
        return None;
    }
    let mut value: usize = 0;
    let mut i: usize = start;
    while i < s.len()
        invariant
            start <= i <= s.len(),
            d =~= s@.skip(start as int),
            d == unsigned_digits(s@),
            forall|j: int| 0 <= j < i - start ==> is_digit(#[trigger] d[j]),
            value as nat == digits_value(d.take(i - start)),
        decreases s.len() - i,
    {
        let c = s[i];
        if c < '0' || c > '9' {
            assert(d[i - start] == c);
            assert(!is_digit(d[i - start]));
            return None;
        }
        let digit = (c as u32 - '0' as u32) as usize;
        let ghost pre = d.take(i - start + 1);
        assert(pre.drop_last() =~= d.take(i - start));
        assert(pre.last() == c);
        assert(digits_value(pre) == digits_value(d.take(i - start)) * 10 + digit);
        match value.checked_mul(10) {
            None => {
                proof {
                    lemma_digits_value_grows(d, (i - start + 1) as int);
                }
                return None;
            },
            Some(tens) => match tens.checked_add(digit) {
                None => {
                    proof {
                        lemma_digits_value_grows(d, (i - start + 1) as int);
                    }
                    return None;
                },
                Some(next) => {
                    value = next;
                },
            },
        }
        i = i + 1;
    }
    assert(d.take(i - start) =~= d);
    Some(value)
}

/// A longer run of digits is worth at least as much as its prefix.
proof fn lemma_digits_value_grows(d: Seq<char>, k: int)
    requires
        0 <= k <= d.len(),
    ensures
        all_digits(d) ==> digits_value(d) >= digits_value(d.take(k)),
{
    if all_digits(d) {
        lemma_prefix_value(d, k);
    }
}

proof fn lemma_prefix_value(d: Seq<char>, k: int)
    requires
        0 <= k <= d.len(),
        all_digits(d),
    ensures
        digits_value(d) >= digits_value(d.take(k)),
    decreases d.len() - k,
{
    if k < d.len() {
        assert(all_digits(d.drop_last())) by {
            assert(forall|j: int| 0 <= j < d.drop_last().len() ==> d.drop_last()[j] == d[j]);
        }
        lemma_prefix_value(d.drop_last(), if k < d.len() - 1 {
            k
        } else {
            d.len() - 1
        });
        if k == d.len() - 1 {
            assert(d.take(k) =~= d.drop_last());
        } else {
            assert(d.drop_last().take(k) =~= d.take(k));
        }
    } else {
        assert(d.take(k) =~= d);
    }
}

impl ConfigError {
    /// The error as a user-facing message (the `Display` form).
    pub fn message(&self) -> (r: String)
        ensures
            r@ == match self {
                ConfigError::Io(path, reason) => "failed to read "@ + path@ + ": "@ + reason@,
                ConfigError::Parse(msg) => "config syntax error: "@ + msg@,
                ConfigError::Validation(msg) => msg@,
            },
    {
        match self {
            ConfigError::Io(path, reason) => {
                let mut s = owned("failed to read ");
                s.append(path.as_str());
                s.append(": ");
                s.append(reason.as_str());
                s
            },
            ConfigError::Parse(msg) => {
                let mut s = owned("config syntax error: ");
                s.append(msg.as_str());
                s
            },
            ConfigError::Validation(msg) => msg.clone(),
        }
    }
}

impl ConfigRaw {
    /// The map sections are ordered by key, each key once, as the
    /// deserializer's sorted maps give them.
    pub open spec fn wf(&self) -> bool {
        ascending_keys(self.env@) && ascending_keys(self.keybinds@)
    }
}

impl Config {
    /// The environment is ordered by variable name, each name once.
    pub open spec fn wf(&self) -> bool {
        ascending_keys(self.env@)
    }

    /// The built-in defaults, including Lush/LumiTerm/Luminousity wiring.
    pub fn with_defaults() -> (c: Self)
        ensures
            is_default_config(c),
            c.wf(),
    {
        let mut env: Vec<(String, String)> = Vec::new();
        env.push(pair("SHELL", "/usr/bin/lush"));
        env.push(pair("TERMINAL", "lumiterm"));
        let mut keybinds: Vec<(String, String)> = Vec::new();
        keybinds.push(pair("SUPER+Return", "exec lumiterm"));
        keybinds.push(pair("SUPER+E", "exec lumiterm -e luminousity"));
        keybinds.push(pair("SUPER+Q", "close"));
        keybinds.push(pair("SUPER+F", "toggle-floating"));
        keybinds.push(pair("SUPER+SHIFT+E", "quit"));
        let c = Config {
            general: General {
                outer_gap: 8,
                inner_gap: 8,
                border_width: 2,
                terminal: owned("lumiterm"),
            },
            bar: BarConfig { enabled: true, height: 28 },
            env,
            keybinds,
            autostart: Vec::new(),
        };
        assert(pair_models(c.env@) =~= default_env());
        assert(pair_models(c.keybinds@) =~= default_keybinds());
        proof {
            reveal_strlit("SHELL");
            reveal_strlit("TERMINAL");
            assert(c.env@[0].0@ == "SHELL"@);
            assert(c.env@[1].0@ == "TERMINAL"@);
            assert(str_lt("SHELL"@, "TERMINAL"@));
        }
        c
    }

    /// Validates raw parsed sections into a config: missing keys take their
    /// defaults, gaps must lie in `0..=512`, a negative border width counts
    /// as zero, and the terminal must not be blank.
    pub fn from_raw(raw: ConfigRaw) -> (r: Result<Self, ConfigError>)
        requires
            raw.wf(),
        ensures
            r matches Ok(c) ==> c.wf(),
            match raw_error(raw) {
                Some(msg) => r matches Err(ConfigError::Validation(m)) && m@ == msg,
                None => r matches Ok(c) && config_of_raw(c, raw),
            },
    {
        let ghost raw0 = raw;
        let mut cfg = Self::with_defaults();
        let ConfigRaw { general, bar, env, keybinds, autostart_exec } = raw;
        if let Some(g) = general.outer_gap {
            match validate_gap("outer_gap", g) {
                Ok(v) => {
                    cfg.general.outer_gap = v;
                },
                Err(e) => {
                    return Err(e);
                },
            }
        }
        if let Some(g) = general.inner_gap {
            match validate_gap("inner_gap", g) {
                Ok(v) => {
                    cfg.general.inner_gap = v;
                },
                Err(e) => {
                    return Err(e);
                },
            }
        }
        if let Some(bw) = general.border_width {
            cfg.general.border_width = if bw >= 0 {
                bw
            } else {
                0
            };
        }
        if let Some(t) = general.terminal {
            let tc = trim_chars(&chars_of(t.as_str()));
            if tc.len() == 0 {
                return Err(ConfigError::Validation(owned("general.terminal must not be empty")));
            }
            cfg.general.terminal = t;
        }
        if let Some(e) = bar.enabled {
            cfg.bar.enabled = e;
        }
        if let Some(h) = bar.height {
            cfg.bar.height = h;
        }
        cfg.env = env;
        cfg.keybinds = keybinds;
        cfg.autostart = match autostart_exec {
            Some(v) => v,
            None => Vec::new(),
        };
        Ok(cfg)
    }

    /// Builds the resolved keybind table from configured chords, entry by
    /// entry; the first bad entry (unknown action, then invalid chord) is
    /// reported.
    pub fn keybind_table(&self) -> (r: Result<KeybindTable, ConfigError>)
        ensures
            match spec_table(pair_models(self.keybinds@)) {
                Ok(b) => r matches Ok(t) && t@ == b,
                Err(msg) => r matches Err(ConfigError::Validation(m)) && m@ == msg,
            },
    {
        let mut table = KeybindTable::new();
        let ghost entries = pair_models(self.keybinds@);
        let mut i: usize = 0;
        while i < self.keybinds.len()
            invariant
                i <= self.keybinds@.len(),
                entries == pair_models(self.keybinds@),
                spec_table(entries.take(i as int)) == Ok::<Seq<BindModel>, Seq<char>>(table@),
            decreases self.keybinds.len() - i,
        {
            let ghost pre = entries.take(i + 1);
            assert(pre.drop_last() =~= entries.take(i as int));
            assert(pre.last() == (self.keybinds@[i as int].0@, self.keybinds@[i as int].1@));
            let spec = &self.keybinds[i].0;
            let action_str = &self.keybinds[i].1;
            match parse_action(action_str.as_str()) {
                None => {
                    proof {
                        lemma_table_err_extends(entries, i + 1);
                    }
                    let mut msg = owned("unknown action ");
                    let q = debug_quoted(action_str.as_str());
                    msg.append(q.as_str());
                    return Err(ConfigError::Validation(msg));
                },
                Some(action) => match table.insert(spec.as_str(), action) {
                    Ok(()) => {},
                    Err(msg) => {
                        proof {
                            lemma_table_err_extends(entries, i + 1);
                        }
                        return Err(ConfigError::Validation(msg));
                    },
                },
            }
            i = i + 1;
        }
        assert(entries.take(i as int) =~= entries);
        Ok(table)
    }
}

/// Once a prefix of the entries fails, the whole list fails with the same
/// message.
proof fn lemma_table_err_extends(entries: Seq<(Seq<char>, Seq<char>)>, i: int)
    requires
        0 <= i <= entries.len(),
        spec_table(entries.take(i)) is Err,
    ensures
        spec_table(entries) == spec_table(entries.take(i)),
    decreases entries.len() - i,
{
    if i < entries.len() {
        let p = entries.take(i + 1);
        assert(p.drop_last() =~= entries.take(i));
        lemma_table_err_extends(entries, i + 1);
    } else {
        assert(entries.take(i) =~= entries);
    }
}

} // verus!
