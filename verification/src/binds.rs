//! Keybind resolution: chord spec -> raw xkb keysym lookup table.
//!
//! Key names are resolved to raw keysyms by libxkbcommon
//! (`xkb_keysym_from_name`, case-insensitive) in the compositor; the table
//! is built here from the names' keysyms.
use vstd::prelude::*;

use std::collections::HashMap;

use crate::keybinds::{bind_model, Action, ActionModel, BindModel, KeybindTable, Mods};

verus! {

/// Bit pattern of a modifier set: shift 1, ctrl 2, alt 4, logo 8.
pub open spec fn mods_bits(m: Mods) -> int {
    (if m.shift { 1int } else { 0int }) + (if m.ctrl { 2int } else { 0int }) + (if m.alt {
        4int
    } else {
        0int
    }) + (if m.logo { 8int } else { 0int })
}

/// The hash-table key of a chord: the modifier bits above the 32 keysym bits.
pub open spec fn chord_key(k: (Mods, u32)) -> u64 {
    (mods_bits(k.0) * 0x1_0000_0000 + k.1) as u64
}

/// The chord a hash-table key stands for.
pub open spec fn key_chord(x: u64) -> (Mods, u32) {
    let b = x / 0x1_0000_0000;
    (
        Mods { shift: b % 2 == 1, ctrl: (b / 2) % 2 == 1, alt: (b / 4) % 2 == 1, logo: (b / 8) % 2 == 1 },
        (x % 0x1_0000_0000) as u32,
    )
}

/// Keys of chords stay below 2^36 and decode to their chord.
proof fn lemma_chord_key_decodes(k: (Mods, u32))
    ensures
        chord_key(k) < 0x10_0000_0000,
        key_chord(chord_key(k)) == k,
{
    let b = mods_bits(k.0);
    assert(0 <= b < 16);
    let x = b * 0x1_0000_0000 + k.1;
    assert(chord_key(k) == x);
    assert(x / 0x1_0000_0000 == b);
    assert(x % 0x1_0000_0000 == k.1);
    let m = k.0;
    assert(Mods { shift: b % 2 == 1, ctrl: (b / 2) % 2 == 1, alt: (b / 4) % 2 == 1, logo: (b / 8) % 2 == 1 } == m);
}

/// A key below 2^36 is the key of the chord it decodes to.
proof fn lemma_key_chord_encodes(x: u64)
    requires
        x < 0x10_0000_0000,
    ensures
        chord_key(key_chord(x)) == x,
{
    let b = x / 0x1_0000_0000;
    let r = x % 0x1_0000_0000;
    assert(0 <= b < 16);
    assert(x == b * 0x1_0000_0000 + r);
    let m = key_chord(x).0;
    assert(mods_bits(m) == b);
}

/// [`chord_key`], computed.
fn key_of(mods: &Mods, sym: u32) -> (r: u64)
    ensures
        r == chord_key((*mods, sym)),
{
    let mut bits: u64 = 0;
    if mods.shift {
        bits = bits + 1;
    }
    if mods.ctrl {
        bits = bits + 2;
    }
    if mods.alt {
        bits = bits + 4;
    }
    if mods.logo {
        bits = bits + 8;
    }
    assert(bits == mods_bits(*mods));
    bits * 0x1_0000_0000 + sym as u64
}

/// The resolved table for a keybind table whose key names resolved to
/// `syms` (one raw keysym per chord, 0 for a name xkb does not know): each
/// resolved chord maps (modifiers, keysym) to its action, later chords
/// overriding earlier ones; chords with unknown key names are left out.
pub open spec fn spec_build(binds: Seq<BindModel>, syms: Seq<u32>) -> Map<(Mods, u32), ActionModel>
    decreases binds.len(),
{
    if binds.len() == 0 || syms.len() != binds.len() {
        Map::empty()
    } else {
        let b = binds.last();
        let raw = syms.last();
        if raw != 0 {
            spec_build(binds.drop_last(), syms.drop_last()).insert((b.0, raw), b.2)
        } else {
            spec_build(binds.drop_last(), syms.drop_last())
        }
    }
}

/// The keysyms the table is built from: a chord whose key name holds a NUL
/// counts as unknown (0), whatever keysym was given for it.
pub open spec fn guarded_keysyms(binds: Seq<BindModel>, syms: Seq<u32>) -> Seq<u32> {
    Seq::new(syms.len(), |i: int| if binds[i].1.contains('\0') { 0 } else { syms[i] })
}

/// Whether a key name can be looked up in libxkbcommon's keysym table:
/// it holds no NUL character (xkbcommon passes names as C strings).
pub fn resolvable_key_name(name: &str) -> (r: bool)
    ensures
        r == !name@.contains('\0'),
{
    let n = name.unicode_len();
    let mut i: usize = 0;
    while i < n
        invariant
            n == name@.len(),
            i <= n,
            forall|j: int| 0 <= j < i ==> name@[j] != '\0',
        decreases n - i,
    {
        if name.get_char(i) == '\0' {
            assert(name@[i as int] == '\0');
            return false;
        }
        i = i + 1;
    }
    true
}

/// A lookup-ready table: raw xkb keysym + modifiers -> action.
#[derive(Debug)]
pub struct ResolvedBinds {
    by_chord: HashMap<u64, Action>,
}

impl View for ResolvedBinds {
    type V = Map<(Mods, u32), ActionModel>;

    closed spec fn view(&self) -> Map<(Mods, u32), ActionModel> {
        Map::new(
            |k: (Mods, u32)| self.by_chord@.contains_key(chord_key(k)),
            |k: (Mods, u32)| self.by_chord@[chord_key(k)]@,
        )
    }
}

impl ResolvedBinds {
    /// Every key of the hash table is the key of a chord.
    #[verifier::type_invariant]
    closed spec fn inv(self) -> bool {
        forall|x: u64| #[trigger] self.by_chord@.contains_key(x) ==> x < 0x10_0000_0000
    }

    /// Builds the table from `table`'s chords, given the raw keysym each
    /// chord's key name resolves to (`keysyms[i]` for the `i`-th chord of
    /// [`KeybindTable::chords`], 0 for an unknown name); chords with
    /// unknown key names, and those whose name holds a NUL (which no keysym
    /// name does), are skipped.
    pub fn build(table: &KeybindTable, keysyms: &Vec<u32>) -> (r: Self)
        requires
            keysyms@.len() == table@.len(),
        ensures
            r@ == spec_build(table@, guarded_keysyms(table@, keysyms@)),
    {
        broadcast use vstd::std_specs::hash::group_hash_axioms;

        let ghost gs = guarded_keysyms(table@, keysyms@);
        let mut by_chord: HashMap<u64, Action> = HashMap::new();
        let chords = table.chords();
        let ghost binds = table@;
        let mut i: usize = 0;
        proof {
            assert(Map::new(
                |k: (Mods, u32)| by_chord@.contains_key(chord_key(k)),
                |k: (Mods, u32)| by_chord@[chord_key(k)]@,
            ) =~= spec_build(binds.take(0), gs.take(0)));
        }
        while i < chords.len()
            invariant
                i <= chords@.len(),
                binds == table@,
                keysyms@.len() == binds.len(),
                gs == guarded_keysyms(binds, keysyms@),
                chords@.map_values(|b: (Mods, String, Action)| bind_model(b)) == binds,
                forall|x: u64| #[trigger] by_chord@.contains_key(x) ==> x < 0x10_0000_0000,
                Map::new(
                    |k: (Mods, u32)| by_chord@.contains_key(chord_key(k)),
                    |k: (Mods, u32)| by_chord@[chord_key(k)]@,
                ) == spec_build(binds.take(i as int), gs.take(i as int)),
            decreases chords.len() - i,
        {
            let ghost pre = binds.take(i + 1);
            assert(pre.drop_last() =~= binds.take(i as int));
            assert(pre.last() == bind_model(chords@[i as int]));
            assert(binds[i as int] == bind_model(chords@[i as int]));
            assert(gs.take(i + 1).drop_last() =~= gs.take(i as int));
            let raw = if resolvable_key_name(chords[i].1.as_str()) {
                keysyms[i]
            } else {
                0
            };
            assert(raw == gs[i as int]);
            if raw != 0 {
                let ghost old_map = by_chord@;
                let ghost chord = (chords@[i as int].0, raw);
                let key = key_of(&chords[i].0, raw);
                let action = chords[i].2.clone();
                by_chord.insert(key, action);
                proof {
                    lemma_chord_key_decodes(chord);
                    let prev = spec_build(binds.take(i as int), gs.take(i as int));
                    let nm = Map::new(
                        |k: (Mods, u32)| by_chord@.contains_key(chord_key(k)),
                        |k: (Mods, u32)| by_chord@[chord_key(k)]@,
                    );
                    assert forall|k: (Mods, u32)| #[trigger] nm.contains_key(k) == prev.insert(
                        chord,
                        chords@[i as int].2@,
                    ).contains_key(k) by {
                        lemma_chord_key_decodes(k);
                    }
                    assert(nm =~= prev.insert(chord, chords@[i as int].2@)) by {
                        assert forall|k: (Mods, u32)| nm.contains_key(k) implies nm[k]
                            == prev.insert(chord, chords@[i as int].2@)[k] by {
                            lemma_chord_key_decodes(k);
                        }
                    }
                    assert(nm == spec_build(pre, gs.take(i + 1)));
                }
            }
            i = i + 1;
        }
        assert(binds.take(chords.len() as int) =~= binds);
        assert(gs.take(chords.len() as int) =~= gs);
        ResolvedBinds { by_chord }
    }

    pub fn lookup(&self, mods: &Mods, raw_keysym: u32) -> (r: Option<&Action>)
        ensures
            match r {
                None => !self@.contains_key((*mods, raw_keysym)),
                Some(a) => self@.contains_key((*mods, raw_keysym)) && self@[(*mods, raw_keysym)]
                    == a@,
            },
    {
        broadcast use vstd::std_specs::hash::group_hash_axioms;

        let key = key_of(mods, raw_keysym);
        self.by_chord.get(&key)
    }

    /// Number of distinct resolved chords.
    pub fn len(&self) -> (n: usize)
        ensures
            self@.dom().finite(),
            n == self@.dom().len(),
    {
        broadcast use vstd::std_specs::hash::group_hash_axioms;

        proof {
            use_type_invariant(self);
            let keys = self.by_chord@.dom();
            assert(keys.finite());
            assert(keys.map(|x: u64| key_chord(x)) =~= self@.dom()) by {
                assert forall|k: (Mods, u32)| self@.dom().contains(k) implies keys.map(
                    |x: u64| key_chord(x),
                ).contains(k) by {
                    lemma_chord_key_decodes(k);
                    assert(keys.contains(chord_key(k)));
                }
                assert forall|k: (Mods, u32)| keys.map(|x: u64| key_chord(x)).contains(k) implies self@.dom().contains(
                    k,
                ) by {
                    let x = choose|x: u64| keys.contains(x) && key_chord(x) == k;
                    lemma_key_chord_encodes(x);
                }
            }
            assert(vstd::relations::injective_on(|x: u64| key_chord(x), keys)) by {
                assert forall|x: u64, y: u64|
                    keys.contains(x) && keys.contains(y) && #[trigger] key_chord(x) == #[trigger] key_chord(
                        y,
                    ) implies x == y by {
                    lemma_key_chord_encodes(x);
                    lemma_key_chord_encodes(y);
                }
            }
            vstd::set_lib::lemma_map_size(keys, self@.dom(), |x: u64| key_chord(x));
        }
        self.by_chord.len()
    }
}

/// A built table holds exactly the resolved chords: looking up the
/// (modifiers, keysym) of a chord whose key name resolved gives that
/// chord's action, unless a later chord resolved to the same key; a key no
/// chord resolved to is absent.
pub proof fn lemma_build_lookup(binds: Seq<BindModel>, syms: Seq<u32>, i: int)
    requires
        syms.len() == binds.len(),
        0 <= i < binds.len(),
        syms[i] != 0,
        forall|j: int|
            i < j < binds.len() ==> !((#[trigger] binds[j]).0 == binds[i].0 && syms[j] == syms[i]),
    ensures
        spec_build(binds, syms).contains_key((binds[i].0, syms[i])),
        spec_build(binds, syms)[(binds[i].0, syms[i])] == binds[i].2,
    decreases binds.len(),
{
    let n = binds.len() - 1;
    if i < n {
        assert forall|j: int|
            i < j < binds.drop_last().len() implies !((#[trigger] binds.drop_last()[j]).0
            == binds.drop_last()[i].0 && syms.drop_last()[j] == syms.drop_last()[i]) by {
            assert(binds.drop_last()[j] == binds[j]);
        }
        lemma_build_lookup(binds.drop_last(), syms.drop_last(), i);
        assert(!(binds[n].0 == binds[i].0 && syms[n] == syms[i]));
    }
}

/// A key that no chord resolved to is not in the built table.
pub proof fn lemma_build_absent(binds: Seq<BindModel>, syms: Seq<u32>, m: Mods, sym: u32)
    requires
        syms.len() == binds.len(),
        forall|j: int| 0 <= j < binds.len() ==> !((#[trigger] binds[j]).0 == m && syms[j] == sym && sym != 0),
    ensures
        !spec_build(binds, syms).contains_key((m, sym)),
    decreases binds.len(),
{
    if binds.len() > 0 {
        assert forall|j: int| 0 <= j < binds.drop_last().len() implies !((
        #[trigger] binds.drop_last()[j]).0 == m && syms.drop_last()[j] == sym && sym != 0) by {
            assert(binds.drop_last()[j] == binds[j]);
        }
        lemma_build_absent(binds.drop_last(), syms.drop_last(), m, sym);
        assert(!(binds[binds.len() - 1].0 == m && syms[binds.len() - 1] == sym && sym != 0));
    }
}

} // verus!
