//! Input decisions: which keys are intercepted as binds, what a pointer
//! click does, what an action asks for, and which terminal to try.
use vstd::prelude::*;

use crate::binds::ResolvedBinds;
use crate::keybinds::{Action, ActionModel, Mods};
use crate::text::str_eq;

verus! {

/// `BTN_LEFT` (linux/input-event-codes.h).
pub const BTN_LEFT: u32 = 0x110;

/// `BTN_RIGHT` (linux/input-event-codes.h).
pub const BTN_RIGHT: u32 = 0x111;

/// The action a key event fires: only presses are looked up, and a bound
/// chord is consumed (never forwarded to clients).
pub fn key_action(binds: &ResolvedBinds, pressed: bool, mods: Mods, raw_keysym: u32) -> (r: Option<Action>)
    ensures
        !pressed ==> r is None,
        pressed ==> match r {
            None => !binds@.contains_key((mods, raw_keysym)),
            Some(a) => binds@.contains_key((mods, raw_keysym)) && binds@[(mods, raw_keysym)] == a@,
        },
{
    if !pressed {
        return None;
    }
    match binds.lookup(&mods, raw_keysym) {
        Some(a) => Some(a.clone()),
        None => None,
    }
}

/// What a pointer button press does before it is forwarded.
#[derive(Debug, Clone, Copy, PartialEq, Eq, Structural)]
pub enum Click {
    /// Nothing: a release, or a press while a grab runs.
    Nothing,
    /// Focus the window (or nothing, for a click on the background).
    Focus(Option<u64>),
    /// SUPER + left button: focus the window, float it and drag it.
    StartMove(u64),
    /// SUPER + right button: focus the window and resize it.
    StartResize(u64),
}

/// The outcome of a button event (`pressed`, no grab running, SUPER held,
/// `button`, the window under the pointer).
pub open spec fn spec_click(pressed: bool, grabbed: bool, logo: bool, button: u32, under: Option<u64>) -> Click {
    if !pressed || grabbed {
        Click::Nothing
    } else {
        match under {
            Some(w) => if logo && button == BTN_LEFT {
                Click::StartMove(w)
            } else if logo && button == BTN_RIGHT {
                Click::StartResize(w)
            } else {
                Click::Focus(Some(w))
            },
            None => Click::Focus(None),
        }
    }
}

/// Decides what a pointer button event does.
pub fn click(pressed: bool, grabbed: bool, logo: bool, button: u32, under: Option<u64>) -> (r: Click)
    ensures
        r == spec_click(pressed, grabbed, logo, button, under),
{
    if !pressed || grabbed {
        return Click::Nothing;
    }
    match under {
        Some(w) => if logo && button == BTN_LEFT {
            Click::StartMove(w)
        } else if logo && button == BTN_RIGHT {
            Click::StartResize(w)
        } else {
            Click::Focus(Some(w))
        },
        None => Click::Focus(None),
    }
}

/// A move grab ends once the left button is no longer held.
pub fn move_grab_ends(pressed: &Vec<u32>) -> (r: bool)
    ensures
        r == !pressed@.contains(BTN_LEFT),
{
    let mut i: usize = 0;
    while i < pressed.len()
        invariant
            i <= pressed@.len(),
            forall|j: int| 0 <= j < i ==> pressed@[j] != BTN_LEFT,
        decreases pressed.len() - i,
    {
        if pressed[i] == BTN_LEFT {
            assert(pressed@[i as int] == BTN_LEFT);
            return false;
        }
        i = i + 1;
    }
    true
}

/// What running an action asks of the compositor.
#[derive(Debug, Clone, PartialEq, Eq)]
pub enum Effect {
    /// Launch the configured terminal (the `exec terminal` shorthand).
    SpawnTerminal,
    /// Run the command through `sh -c`.
    Shell(String),
    CloseFocused,
    ToggleFloating,
    /// Switch to this (0-based) workspace.
    FocusWorkspace(usize),
    /// Move the focused window to this (0-based) workspace.
    MoveToWorkspace(usize),
    Quit,
}

/// What an action does: `exec terminal` launches the terminal, any other
/// command goes to the shell, the rest map one for one.
pub fn action_effect(a: &Action) -> (r: Effect)
    ensures
        match a@ {
            ActionModel::Exec(cmd) => if cmd == "terminal"@ {
                r == Effect::SpawnTerminal
            } else {
                r matches Effect::Shell(s) && s@ == cmd
            },
            ActionModel::CloseFocused => r == Effect::CloseFocused,
            ActionModel::ToggleFloating => r == Effect::ToggleFloating,
            ActionModel::FocusWorkspace(i) => r == Effect::FocusWorkspace(i as usize),
            ActionModel::MoveToWorkspace(i) => r == Effect::MoveToWorkspace(i as usize),
            ActionModel::Quit => r == Effect::Quit,
        },
{
    match a {
        Action::Exec(cmd) => if str_eq(cmd.as_str(), "terminal") {
            Effect::SpawnTerminal
        } else {
            Effect::Shell(cmd.clone())
        },
        Action::CloseFocused => Effect::CloseFocused,
        Action::ToggleFloating => Effect::ToggleFloating,
        Action::FocusWorkspace(i) => Effect::FocusWorkspace(*i),
        Action::MoveToWorkspace(i) => Effect::MoveToWorkspace(*i),
        Action::Quit => Effect::Quit,
    }
}

/// `v` with runs of equal neighbours reduced to one (`Vec::dedup`).
pub open spec fn dedup_seq(v: Seq<Seq<char>>) -> Seq<Seq<char>>
    decreases v.len(),
{
    if v.len() <= 1 {
        v
    } else if v.last() == v[v.len() - 2] {
        dedup_seq(v.drop_last())
    } else {
        dedup_seq(v.drop_last()).push(v.last())
    }
}

/// The terminals to try, in order: `$KATNIP_TERMINAL` when set, the
/// configured terminal, then foot, alacritty and kitty, with repeated
/// neighbours dropped.
pub open spec fn terminal_list(env_term: Option<Seq<char>>, configured: Seq<char>) -> Seq<Seq<char>> {
    let base = match env_term {
        Some(e) => seq![e, configured],
        None => seq![configured],
    };
    dedup_seq(base + seq!["foot"@, "alacritty"@, "kitty"@])
}

proof fn lemma_dedup_last(v: Seq<Seq<char>>)
    requires
        v.len() > 0,
    ensures
        dedup_seq(v).len() > 0,
        dedup_seq(v).last() == v.last(),
    decreases v.len(),
{
    if v.len() > 1 {
        lemma_dedup_last(v.drop_last());
        if v.last() == v[v.len() - 2] {
            assert(v.drop_last().last() == v[v.len() - 2]);
        }
    }
}

/// The terminal candidates (see [`terminal_list`]).
pub fn terminal_candidates(env_term: Option<&str>, configured: &str) -> (r: Vec<String>)
    ensures
        r@.map_values(|s: String| s@) == terminal_list(
            match env_term {
                Some(e) => Some(e@),
                None => None,
            },
            configured@,
        ),
{
    let mut all: Vec<String> = Vec::new();
    if let Some(e) = env_term {
        all.push(String::from_str(e));
    }
    all.push(String::from_str(configured));
    all.push(String::from_str("foot"));
    all.push(String::from_str("alacritty"));
    all.push(String::from_str("kitty"));
    let ghost input = all@.map_values(|s: String| s@);
    proof {
        let base = match env_term {
            Some(e) => seq![e@, configured@],
            None => seq![configured@],
        };
        assert(input =~= base + seq!["foot"@, "alacritty"@, "kitty"@]);
    }
    let mut out: Vec<String> = Vec::new();
    let mut i: usize = 0;
    while i < all.len()
        invariant
            i <= all@.len(),
            input == all@.map_values(|s: String| s@),
            out@.map_values(|s: String| s@) == dedup_seq(input.take(i as int)),
        decreases all.len() - i,
    {
        let ghost pre = input.take(i as int);
        let ghost next = input.take(i as int + 1);
        proof {
            assert(next.drop_last() =~= pre);
            assert(next.last() == all@[i as int]@);
            if i >= 1 {
                assert(next[i - 1] == all@[i - 1]@);
                lemma_dedup_last(pre);
                assert(pre.last() == all@[i - 1]@);
            }
        }
        let repeat = i > 0 && str_eq(all[i].as_str(), all[i - 1].as_str());
        if !repeat {
            let ghost before = out@;
            out.push(all[i].clone());
            proof {
                assert(out@.map_values(|s: String| s@) =~= before.map_values(|s: String| s@).push(
                    all@[i as int]@,
                ));
            }
        }
        i = i + 1;
    }
    assert(input.take(all@.len() as int) =~= input);
    out
}

} // verus!
