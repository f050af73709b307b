//! Keybind model: modifier chords parsed from spec strings plus an action
//! dispatch table.
//!
//! Chords store the keysym *name* (e.g. `"return"`, `"1"`, `"q"`); resolving
//! names to raw xkb keysyms happens in [`crate::binds`].
use vstd::prelude::*;

use crate::fmt::{debug_quoted, debug_str};
use crate::text::{
    case_seq, chars_eq_str, chars_of, lemma_case_split, lemma_case_trim, lemma_case_twice,
    lemma_split_len, lower_chars, lower_seq, split_chars, split_on, string_of, trim, trim_chars,
    upper_chars, upper_seq,
};

verus! {

/// Modifier set held during a chord.
#[derive(Debug, Clone, Copy, PartialEq, Eq, Hash, Structural)]
pub struct Mods {
    pub shift: bool,
    pub ctrl: bool,
    pub alt: bool,
    pub logo: bool,
}

impl Default for Mods {
    fn default() -> (m: Self)
        ensures
            m == Mods::spec_none(),
    {
        Mods::none()
    }
}

/// One modifier key of a chord.
#[derive(Debug, Clone, Copy, PartialEq, Eq, Structural)]
pub enum Modifier {
    Logo,
    Ctrl,
    Alt,
    Shift,
}

/// The modifier an (already upper-cased) token names: `SUPER`/`MOD4`,
/// `CTRL`/`CONTROL`, `ALT`/`MOD1` or `SHIFT`.
pub open spec fn modifier_of(token: Seq<char>) -> Option<Modifier> {
    if token == "SUPER"@ || token == "MOD4"@ {
        Some(Modifier::Logo)
    } else if token == "CTRL"@ || token == "CONTROL"@ {
        Some(Modifier::Ctrl)
    } else if token == "ALT"@ || token == "MOD1"@ {
        Some(Modifier::Alt)
    } else if token == "SHIFT"@ {
        Some(Modifier::Shift)
    } else {
        None
    }
}

/// `m` with one more modifier held.
pub open spec fn with_modifier(m: Mods, k: Modifier) -> Mods {
    match k {
        Modifier::Logo => Mods { logo: true, ..m },
        Modifier::Ctrl => Mods { ctrl: true, ..m },
        Modifier::Alt => Mods { alt: true, ..m },
        Modifier::Shift => Mods { shift: true, ..m },
    }
}

/// The modifiers named by a list of raw chord tokens (each trimmed and
/// upper-cased first), or `None` if one of them names no modifier.
pub open spec fn spec_mods(tokens: Seq<Seq<char>>) -> Option<Mods>
    decreases tokens.len(),
{
    if tokens.len() == 0 {
        Some(Mods::spec_none())
    } else {
        match spec_mods(tokens.drop_last()) {
            None => None,
            Some(m) => match modifier_of(upper_seq(trim(tokens.last()))) {
                None => None,
                Some(k) => Some(with_modifier(m, k)),
            },
        }
    }
}

/// A chord spec `MOD+MOD+key`: the `+`-separated pieces, each trimmed; the
/// last piece, lower-cased, is the key and must not be empty; every other
/// piece must name a modifier.
pub open spec fn spec_parse_chord(spec: Seq<char>) -> Option<(Mods, Seq<char>)> {
    let parts = split_on(spec, '+');
    let key = lower_seq(trim(parts.last()));
    if key.len() == 0 {
        None
    } else {
        match spec_mods(parts.drop_last()) {
            None => None,
            Some(m) => Some((m, key)),
        }
    }
}

impl Mods {
    /// No modifier held.
    pub open spec fn spec_none() -> Mods {
        Mods { shift: false, ctrl: false, alt: false, logo: false }
    }

    /// No modifier held.
    pub fn none() -> (m: Mods)
        ensures
            m == Mods::spec_none(),
    {
        Mods { shift: false, ctrl: false, alt: false, logo: false }
    }

    /// Parses one trimmed modifier token (`SUPER`, `CTRL`, `ALT`, `SHIFT`
    /// and their aliases, case-insensitive).
    fn parse_token(token: &Vec<char>) -> (r: Option<Modifier>)
        ensures
            r == modifier_of(upper_seq(token@)),
    {
        let t = upper_chars(token);
        if chars_eq_str(&t, "SUPER") || chars_eq_str(&t, "MOD4") {
            Some(Modifier::Logo)
        } else if chars_eq_str(&t, "CTRL") || chars_eq_str(&t, "CONTROL") {
            Some(Modifier::Ctrl)
        } else if chars_eq_str(&t, "ALT") || chars_eq_str(&t, "MOD1") {
            Some(Modifier::Alt)
        } else if chars_eq_str(&t, "SHIFT") {
            Some(Modifier::Shift)
        } else {
            None
        }
    }

    /// Parses a full chord like `"SUPER+SHIFT+1"` into modifiers and the
    /// lower-cased trailing key name. Returns `None` on an unknown modifier
    /// or an empty key segment (including empty input).
    pub fn parse_chord(spec: &str) -> (r: Option<(Self, String)>)
        ensures
            match r {
                None => spec_parse_chord(spec@) is None,
                Some((m, k)) => spec_parse_chord(spec@) == Some((m, k@)),
            },
    {
        let chars = chars_of(spec);
        let parts = split_chars(&chars, '+');
        let ghost sp = split_on(spec@, '+');
        assert(sp.len() >= 1) by {
            lemma_split_nonempty(spec@, '+');
        }
        let n = parts.len();
        assert(parts@[n - 1]@ == sp.last());
        let key_raw = trim_chars(&parts[n - 1]);
        let key = lower_chars(&key_raw);
        assert(key@ == lower_seq(trim(sp.last())));
        if key.len() == 0 {
            return None;
        }
        let mut mods = Mods::none();
        let mut i: usize = 0;
        while i < n - 1
            invariant
                n == parts@.len() == sp.len(),
                sp == split_on(spec@, '+'),
                i <= n - 1,
                forall|j: int| 0 <= j < n ==> #[trigger] parts@[j]@ == sp[j],
                spec_mods(sp.drop_last().take(i as int)) == Some(mods),
            decreases n - 1 - i,
        {
            let token = trim_chars(&parts[i]);
            let ghost prefix = sp.drop_last().take(i + 1);
            assert(prefix.drop_last() =~= sp.drop_last().take(i as int));
            assert(prefix.last() == sp[i as int]);
            assert(parts@[i as int]@ == sp[i as int]);
            assert(token@ == trim(prefix.last()));
            let parsed_token = Self::parse_token(&token);
            assert(parsed_token == modifier_of(upper_seq(trim(prefix.last()))));
            match parsed_token {
                None => {
                    proof {
                        assert(spec_mods(prefix) is None);
                        lemma_mods_none_extends(sp.drop_last(), i + 1);
                        assert(spec_mods(sp.drop_last()) is None);
                        assert(sp == split_on(spec@, '+'));
                    }
                    return None;
                },
                Some(Modifier::Logo) => mods.logo = true,
                Some(Modifier::Ctrl) => mods.ctrl = true,
                Some(Modifier::Alt) => mods.alt = true,
                Some(Modifier::Shift) => mods.shift = true,
            }
            i = i + 1;
        }
        assert(sp.drop_last().take((n - 1) as int) =~= sp.drop_last());
        Some((mods, string_of(&key)))
    }
}

proof fn lemma_split_nonempty(s: Seq<char>, sep: char)
    ensures
        split_on(s, sep).len() >= 1,
    decreases s.len(),
{
    if s.len() > 0 {
        lemma_split_nonempty(s.drop_first(), sep);
    }
}

/// Once a prefix of the tokens fails to parse, so does every longer prefix.
proof fn lemma_mods_none_extends(tokens: Seq<Seq<char>>, i: int)
    requires
        0 <= i <= tokens.len(),
        spec_mods(tokens.take(i)) is None,
    ensures
        spec_mods(tokens) is None,
    decreases tokens.len() - i,
{
    if i < tokens.len() {
        let p = tokens.take(i + 1);
        assert(p.drop_last() =~= tokens.take(i));
        lemma_mods_none_extends(tokens, i + 1);
    } else {
        assert(tokens.take(i) =~= tokens);
    }
}

/// What the compositor does when a chord fires.
#[derive(Debug, PartialEq, Eq)]
pub enum Action {
    /// Spawn a command.
    Exec(String),
    CloseFocused,
    ToggleFloating,
    FocusWorkspace(usize),
    MoveToWorkspace(usize),
    Quit,
}

/// Model of an [`Action`]: the command of `Exec` as its characters.
pub enum ActionModel {
    Exec(Seq<char>),
    CloseFocused,
    ToggleFloating,
    FocusWorkspace(nat),
    MoveToWorkspace(nat),
    Quit,
}

impl View for Action {
    type V = ActionModel;

    open spec fn view(&self) -> ActionModel {
        match self {
            Action::Exec(cmd) => ActionModel::Exec(cmd@),
            Action::CloseFocused => ActionModel::CloseFocused,
            Action::ToggleFloating => ActionModel::ToggleFloating,
            Action::FocusWorkspace(i) => ActionModel::FocusWorkspace(*i as nat),
            Action::MoveToWorkspace(i) => ActionModel::MoveToWorkspace(*i as nat),
            Action::Quit => ActionModel::Quit,
        }
    }
}

impl Clone for Action {
    fn clone(&self) -> (r: Self)
        ensures
            r == *self,
    {
        match self {
            Action::Exec(cmd) => Action::Exec(cmd.clone()),
            Action::CloseFocused => Action::CloseFocused,
            Action::ToggleFloating => Action::ToggleFloating,
            Action::FocusWorkspace(i) => Action::FocusWorkspace(*i),
            Action::MoveToWorkspace(i) => Action::MoveToWorkspace(*i),
            Action::Quit => Action::Quit,
        }
    }
}

/// One registered bind as the table's model sees it.
pub type BindModel = (Mods, Seq<char>, ActionModel);

/// The bind registers this chord.
pub open spec fn same_chord(b: BindModel, m: Mods, k: Seq<char>) -> bool {
    b.0 == m && b.1 == k
}

/// The binds without those of the given chord, order kept.
pub open spec fn without_chord(binds: Seq<BindModel>, m: Mods, k: Seq<char>) -> Seq<BindModel>
    decreases binds.len(),
{
    if binds.len() == 0 {
        binds
    } else if same_chord(binds.last(), m, k) {
        without_chord(binds.drop_last(), m, k)
    } else {
        without_chord(binds.drop_last(), m, k).push(binds.last())
    }
}

/// The table after registering `a` for chord `(m, k)`: any earlier bind of
/// the chord is dropped and the new one goes last.
pub open spec fn spec_insert(binds: Seq<BindModel>, m: Mods, k: Seq<char>, a: ActionModel) -> Seq<
    BindModel,
> {
    without_chord(binds, m, k).push((m, k, a))
}

/// The action of the most recent bind for chord `(m, k)`.
pub open spec fn spec_lookup(binds: Seq<BindModel>, m: Mods, k: Seq<char>) -> Option<ActionModel>
    decreases binds.len(),
{
    if binds.len() == 0 {
        None
    } else if same_chord(binds.last(), m, k) {
        Some(binds.last().2)
    } else {
        spec_lookup(binds.drop_last(), m, k)
    }
}

/// How many binds register chord `(m, k)`.
pub open spec fn chord_count(binds: Seq<BindModel>, m: Mods, k: Seq<char>) -> nat
    decreases binds.len(),
{
    if binds.len() == 0 {
        0
    } else if same_chord(binds.last(), m, k) {
        chord_count(binds.drop_last(), m, k) + 1
    } else {
        chord_count(binds.drop_last(), m, k)
    }
}

/// No chord is registered twice.
pub open spec fn distinct_chords(binds: Seq<BindModel>) -> bool
    decreases binds.len(),
{
    if binds.len() == 0 {
        true
    } else {
        distinct_chords(binds.drop_last()) && chord_count(
            binds.drop_last(),
            binds.last().0,
            binds.last().1,
        ) == 0
    }
}

pub open spec fn bind_model(b: (Mods, String, Action)) -> BindModel {
    (b.0, b.1@, b.2@)
}

/// Ordered chord-to-action table with last-insert-wins semantics.
#[derive(Debug)]
pub struct KeybindTable {
    binds: Vec<(Mods, String, Action)>,
}

impl View for KeybindTable {
    type V = Seq<BindModel>;

    closed spec fn view(&self) -> Seq<BindModel> {
        self.binds@.map_values(|b: (Mods, String, Action)| bind_model(b))
    }
}

impl KeybindTable {
    /// The table never registers a chord twice.
    #[verifier::type_invariant]
    closed spec fn inv(self) -> bool {
        distinct_chords(self@)
    }

    pub fn new() -> (t: Self)
        ensures
            t@ == Seq::<BindModel>::empty(),
            distinct_chords(t@),
    {
        let t = KeybindTable { binds: Vec::new() };
        assert(t@ =~= Seq::<BindModel>::empty());
        t
    }

    /// Registers a bind; a later registration for the same chord replaces
    /// the earlier one. Fails, leaving the table unchanged, exactly when the
    /// chord spec does not parse.
    pub fn insert(&mut self, spec: &str, action: Action) -> (r: Result<(), String>)
        ensures
            distinct_chords(final(self)@),
            match spec_parse_chord(spec@) {
                None => {
                    &&& r matches Err(msg)
                    &&& msg@ == "invalid keybind spec "@ + debug_str(spec@)
                    &&& final(self)@ == old(self)@
                },
                Some((m, k)) => {
                    &&& r is Ok
                    &&& final(self)@ == spec_insert(old(self)@, m, k, action@)
                },
            },
    {
        proof {
            use_type_invariant(&*self);
        }
        let parsed = Mods::parse_chord(spec);
        match parsed {
            None => {
                let q = debug_quoted(spec);
                let mut msg = String::from_str("invalid keybind spec ");
                msg.append(q.as_str());
                proof {
                    reveal_strlit("invalid keybind spec ");
                }
                Err(msg)
            },
            Some((mods, key)) => {
                let ghost old_view = self@;
                let mut kept: Vec<(Mods, String, Action)> = Vec::new();
                let mut i: usize = 0;
                let n = self.binds.len();
                while i < n
                    invariant
                        n == self.binds@.len(),
                        i <= n,
                        old_view == self@,
                        self@ == self.binds@.map_values(
                            |b: (Mods, String, Action)| bind_model(b),
                        ),
                        kept@.map_values(|b: (Mods, String, Action)| bind_model(b))
                            == without_chord(old_view.take(i as int), mods, key@),
                    decreases n - i,
                {
                    let ghost pre = old_view.take(i + 1);
                    assert(pre.drop_last() =~= old_view.take(i as int));
                    assert(pre.last() == bind_model(self.binds@[i as int]));
                    let same = self.binds[i].0 == mods && self.binds[i].1 == key;
                    if !same {
                        let entry = (
                            self.binds[i].0,
                            self.binds[i].1.clone(),
                            self.binds[i].2.clone(),
                        );
                        let ghost before = kept@;
                        kept.push(entry);
                        assert(kept@.map_values(|b: (Mods, String, Action)| bind_model(b))
                            =~= before.map_values(|b: (Mods, String, Action)| bind_model(b)).push(
                            bind_model(entry),
                        ));
                    }
                    i = i + 1;
                }
                assert(old_view.take(n as int) =~= old_view);
                let ghost key_view = key@;
                let ghost pushed = (mods, key@, action@);
                let ghost before = kept@;
                kept.push((mods, key, action));
                proof {
                    assert(kept@.map_values(|b: (Mods, String, Action)| bind_model(b))
                        =~= before.map_values(|b: (Mods, String, Action)| bind_model(b)).push(
                        pushed,
                    ));
                    lemma_insert_distinct(old_view, mods, key_view, pushed.2);
                }
                self.binds = kept;
                Ok(())
            },
        }
    }

    /// Resolves the action for a pressed chord, if any; the key name is
    /// compared case-insensitively (ASCII).
    pub fn lookup(&self, mods: &Mods, key_name: &str) -> (r: Option<&Action>)
        ensures
            match r {
                None => spec_lookup(self@, *mods, lower_seq(key_name@)) is None,
                Some(a) => spec_lookup(self@, *mods, lower_seq(key_name@)) == Some(a@),
            },
    {
        let key = string_of(&lower_chars(&chars_of(key_name)));
        let mut i: usize = self.binds.len();
        assert(self@.take(i as int) =~= self@);
        while i > 0
            invariant
                i <= self.binds@.len(),
                key@ == lower_seq(key_name@),
                spec_lookup(self@, *mods, key@) == spec_lookup(self@.take(i as int), *mods, key@),
            decreases i,
        {
            let ghost pre = self@.take(i as int);
            assert(pre.drop_last() =~= self@.take(i - 1));
            assert(pre.last() == bind_model(self.binds@[i - 1]));
            if self.binds[i - 1].0 == *mods && self.binds[i - 1].1 == key {
                return Some(&self.binds[i - 1].2);
            }
            i = i - 1;
        }
        None
    }

    pub fn len(&self) -> (n: usize)
        ensures
            n == self@.len(),
    {
        self.binds.len()
    }

    pub fn is_empty(&self) -> (b: bool)
        ensures
            b == (self@.len() == 0),
    {
        self.binds.len() == 0
    }

    /// All registered chords as (modifiers, key name, action), oldest first.
    pub fn chords(&self) -> (r: &[(Mods, String, Action)])
        ensures
            r@.map_values(|b: (Mods, String, Action)| bind_model(b)) == self@,
    {
        self.binds.as_slice()
    }
}

impl Default for KeybindTable {
    fn default() -> (t: Self)
        ensures
            t@ == Seq::<BindModel>::empty(),
    {
        KeybindTable::new()
    }
}

proof fn lemma_without_count(binds: Seq<BindModel>, m: Mods, k: Seq<char>, m2: Mods, k2: Seq<char>)
    ensures
        chord_count(without_chord(binds, m, k), m2, k2) == if m2 == m && k2 == k {
            0
        } else {
            chord_count(binds, m2, k2)
        },
    decreases binds.len(),
{
    if binds.len() > 0 {
        lemma_without_count(binds.drop_last(), m, k, m2, k2);
        let w = without_chord(binds.drop_last(), m, k);
        if !same_chord(binds.last(), m, k) {
            assert(w.push(binds.last()).drop_last() =~= w);
        }
    }
}

proof fn lemma_without_distinct(binds: Seq<BindModel>, m: Mods, k: Seq<char>)
    requires
        distinct_chords(binds),
    ensures
        distinct_chords(without_chord(binds, m, k)),
    decreases binds.len(),
{
    if binds.len() > 0 {
        lemma_without_distinct(binds.drop_last(), m, k);
        let w = without_chord(binds.drop_last(), m, k);
        if !same_chord(binds.last(), m, k) {
            let x = binds.last();
            lemma_without_count(binds.drop_last(), m, k, x.0, x.1);
            assert(w.push(x).drop_last() =~= w);
        }
    }
}

proof fn lemma_insert_distinct(binds: Seq<BindModel>, m: Mods, k: Seq<char>, a: ActionModel)
    requires
        distinct_chords(binds),
    ensures
        distinct_chords(spec_insert(binds, m, k, a)),
{
    let w = without_chord(binds, m, k);
    lemma_without_distinct(binds, m, k);
    lemma_without_count(binds, m, k, m, k);
    assert(w.push((m, k, a)).drop_last() =~= w);
}

proof fn lemma_lookup_without(binds: Seq<BindModel>, m: Mods, k: Seq<char>, m2: Mods, k2: Seq<char>)
    requires
        !(m2 == m && k2 == k),
    ensures
        spec_lookup(without_chord(binds, m, k), m2, k2) == spec_lookup(binds, m2, k2),
    decreases binds.len(),
{
    if binds.len() > 0 {
        lemma_lookup_without(binds.drop_last(), m, k, m2, k2);
        let w = without_chord(binds.drop_last(), m, k);
        if !same_chord(binds.last(), m, k) {
            assert(w.push(binds.last()).drop_last() =~= w);
        }
    }
}

proof fn lemma_without_len(binds: Seq<BindModel>, m: Mods, k: Seq<char>)
    ensures
        without_chord(binds, m, k).len() + chord_count(binds, m, k) == binds.len(),
    decreases binds.len(),
{
    if binds.len() > 0 {
        lemma_without_len(binds.drop_last(), m, k);
    }
}

/// Law: after registering `a` for a chord, looking that chord up gives `a`,
/// and every other chord looks up as before.
pub proof fn lemma_insert_lookup(
    binds: Seq<BindModel>,
    m: Mods,
    k: Seq<char>,
    a: ActionModel,
    m2: Mods,
    k2: Seq<char>,
)
    ensures
        spec_lookup(spec_insert(binds, m, k, a), m, k) == Some(a),
        !(m2 == m && k2 == k) ==> spec_lookup(spec_insert(binds, m, k, a), m2, k2) == spec_lookup(
            binds,
            m2,
            k2,
        ),
{
    let w = without_chord(binds, m, k);
    assert(w.push((m, k, a)).drop_last() =~= w);
    if !(m2 == m && k2 == k) {
        lemma_lookup_without(binds, m, k, m2, k2);
    }
}

/// Law: registering a chord that is already bound replaces its bind, so the
/// table keeps its size; registering a new chord adds one entry. Either way
/// the chord is then bound exactly once.
pub proof fn lemma_insert_len(binds: Seq<BindModel>, m: Mods, k: Seq<char>, a: ActionModel)
    requires
        distinct_chords(binds),
    ensures
        chord_count(spec_insert(binds, m, k, a), m, k) == 1,
        spec_insert(binds, m, k, a).len() == binds.len() - chord_count(binds, m, k) + 1,
        chord_count(binds, m, k) <= 1,
{
    let w = without_chord(binds, m, k);
    assert(w.push((m, k, a)).drop_last() =~= w);
    lemma_without_count(binds, m, k, m, k);
    lemma_without_len(binds, m, k);
    lemma_distinct_count(binds, m, k);
}

proof fn lemma_distinct_count(binds: Seq<BindModel>, m: Mods, k: Seq<char>)
    requires
        distinct_chords(binds),
    ensures
        chord_count(binds, m, k) <= 1,
    decreases binds.len(),
{
    if binds.len() > 0 {
        lemma_distinct_count(binds.drop_last(), m, k);
    }
}

proof fn lemma_case_mods(tokens: Seq<Seq<char>>, up: bool)
    ensures
        spec_mods(tokens.map_values(|p: Seq<char>| case_seq(p, up))) == spec_mods(tokens),
    decreases tokens.len(),
{
    let mt = tokens.map_values(|p: Seq<char>| case_seq(p, up));
    if tokens.len() > 0 {
        assert(mt.drop_last() =~= tokens.drop_last().map_values(|p: Seq<char>| case_seq(p, up)));
        lemma_case_mods(tokens.drop_last(), up);
        lemma_case_trim(tokens.last(), up);
        lemma_case_twice(trim(tokens.last()), up);
        assert(mt.last() == case_seq(tokens.last(), up));
    }
}

proof fn lemma_chord_case(spec: Seq<char>, up: bool)
    ensures
        spec_parse_chord(case_seq(spec, up)) == spec_parse_chord(spec),
{
    let parts = split_on(spec, '+');
    lemma_case_split(spec, up);
    lemma_split_len(spec, '+');
    let mp = parts.map_values(|p: Seq<char>| case_seq(p, up));
    assert(mp.last() == case_seq(parts.last(), up));
    lemma_case_trim(parts.last(), up);
    lemma_case_twice(trim(parts.last()), up);
    assert(mp.drop_last() =~= parts.drop_last().map_values(|p: Seq<char>| case_seq(p, up)));
    lemma_case_mods(parts.drop_last(), up);
}

/// Chord specs are case-insensitive: a spec written in lower or upper
/// case parses to the same modifiers and key as the spec itself.
pub proof fn lemma_chord_case_insensitive(spec: Seq<char>)
    ensures
        spec_parse_chord(lower_seq(spec)) == spec_parse_chord(spec),
        spec_parse_chord(upper_seq(spec)) == spec_parse_chord(spec),
{
    lemma_chord_case(spec, false);
    lemma_chord_case(spec, true);
}

} // verus!
