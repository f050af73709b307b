//! Workspace state: which windows live on which of the virtual workspaces,
//! their tiling/floating placement data, per-workspace focus, and the
//! dwindling arrangement of the visible workspace.
//!
//! Windows are identified by opaque `u64` ids handed out by the compositor;
//! everything the compositor does to real surfaces (mapping, configuring,
//! keyboard focus) follows from the decisions made here.
use vstd::prelude::*;

use crate::layout::{
    Point, Rect, RectModel, dwindle, dwindle_fits, dwindle_in_range, fits_i32, max_int, rect_models,
    right_of, bottom_of, shrink_model, spec_dwindle,
};

verus! {

/// Number of virtual workspaces (1-9, Hyprland style).
pub const WORKSPACE_COUNT: usize = 9;

/// One managed window plus its per-workspace placement data.
#[derive(Debug, Clone, Copy, PartialEq, Eq, Structural)]
pub struct Tile {
    pub window: u64,
    pub floating: bool,
    /// Stored position for floating windows so re-arranges do not snap them
    /// back; `None` until the tile is first placed as a float.
    pub float_loc: Option<Point>,
}

/// A workspace: its tiles in stacking/tiling order and its focused window.
#[derive(Debug)]
pub struct Workspace {
    tiles: Vec<Tile>,
    focused: Option<u64>,
}

/// Model of a workspace.
pub struct WsModel {
    pub tiles: Seq<Tile>,
    pub focused: Option<u64>,
}

impl View for Workspace {
    type V = WsModel;

    closed spec fn view(&self) -> WsModel {
        WsModel { tiles: self.tiles@, focused: self.focused }
    }
}

/// Model of the whole window manager: every workspace and the active one.
pub struct WmModel {
    pub spaces: Seq<WsModel>,
    pub active: nat,
}

/// Layout metrics from config, applied at runtime.
#[derive(Debug, Clone, Copy, PartialEq, Eq, Structural)]
pub struct LayoutMetrics {
    pub outer_gap: i32,
    pub inner_gap: i32,
    pub border_width: i32,
}

/// Per-workspace tile lists and focus; index 0 is workspace 1.
#[derive(Debug)]
pub struct Workspaces {
    workspaces: Vec<Workspace>,
    active: usize,
}

impl View for Workspaces {
    type V = WmModel;

    closed spec fn view(&self) -> WmModel {
        WmModel {
            spaces: self.workspaces@.map_values(|w: Workspace| w@),
            active: self.active as nat,
        }
    }
}

/// The tiles hold a tile for window `id`.
pub open spec fn has_window(tiles: Seq<Tile>, id: u64) -> bool {
    exists|i: int| 0 <= i < tiles.len() && (#[trigger] tiles[i]).window == id
}

/// No window has two tiles.
pub open spec fn distinct_windows(tiles: Seq<Tile>) -> bool {
    forall|i: int, j: int|
        0 <= i < j < tiles.len() ==> (#[trigger] tiles[i]).window != (#[trigger] tiles[j]).window
}

/// The two tile lists share no window.
pub open spec fn disjoint(a: Seq<Tile>, b: Seq<Tile>) -> bool {
    forall|i: int| 0 <= i < a.len() ==> !has_window(b, (#[trigger] a[i]).window)
}

/// A workspace is consistent: one tile per window and its focus (if any)
/// among its tiles.
pub open spec fn ws_ok(w: WsModel) -> bool {
    &&& distinct_windows(w.tiles)
    &&& (w.focused matches Some(f) ==> has_window(w.tiles, f))
}

/// The window-manager invariant: nine workspaces, a valid active index,
/// every workspace consistent, and each window on one workspace only.
pub open spec fn wm_ok(m: WmModel) -> bool {
    &&& m.spaces.len() == WORKSPACE_COUNT
    &&& m.active < WORKSPACE_COUNT
    &&& forall|w: int| 0 <= w < m.spaces.len() ==> ws_ok(#[trigger] m.spaces[w])
    &&& forall|a: int, b: int|
        0 <= a < m.spaces.len() && 0 <= b < m.spaces.len() && a != b ==> disjoint(
            #[trigger] m.spaces[a].tiles,
            #[trigger] m.spaces[b].tiles,
        )
}

/// Law: moving the focused window to another workspace leaves that
/// workspace without a remembered focus and the moved window, tiled, as its
/// last tile — so arriving there focuses the moved window — and takes the
/// window off the workspace it left.
pub proof fn lemma_move_then_follow(m: WmModel, idx: int)
    requires
        wm_ok(m),
        0 <= idx < WORKSPACE_COUNT,
        idx != m.active,
        active_ws(m).focused is Some,
    ensures
        moved_spaces(m, idx)[idx].focused is None,
        moved_spaces(m, idx)[idx].tiles.last().window == active_ws(m).focused->0,
        !moved_spaces(m, idx)[idx].tiles.last().floating,
        arrival_focus(moved_spaces(m, idx)[idx]) == active_ws(m).focused,
        !has_window(moved_spaces(m, idx)[m.active as int].tiles, active_ws(m).focused->0),
{
    let a = m.active as int;
    let f = active_ws(m).focused->0;
    let src = active_ws(m).tiles;
    lemma_index_of(src, f);
    assert(ws_ok(m.spaces[a]));
    let p = index_of(src, f);
    let rest = src.remove(p);
    assert(distinct_windows(src));
    if has_window(rest, f) {
        let k = choose|k: int| 0 <= k < rest.len() && (#[trigger] rest[k]).window == f;
        if k < p {
            assert(rest[k] == src[k]);
        } else {
            assert(rest[k] == src[k + 1]);
        }
    }
}

/// Workspace `w` has a tile at position `p`.
pub open spec fn has_tile_at(m: WmModel, w: int, p: int) -> bool {
    0 <= w < m.spaces.len() && 0 <= p < m.spaces[w].tiles.len()
}

/// Entry `e` describes tile `p` of workspace `w`: the same window, floating
/// exactly when the tile floats, on workspace `w`, shown exactly when `w`
/// is the active workspace, focused exactly when it is `w`'s focus.
pub open spec fn reports_tile(m: WmModel, e: WindowEntry, w: int, p: int) -> bool {
    let t = m.spaces[w].tiles[p];
    &&& e.window == t.window
    &&& e.floating == t.floating
    &&& e.workspace == w
    &&& e.mapped == (w == m.active)
    &&& e.focused == (m.spaces[w].focused == Some(t.window))
}

/// Law: the window list of the first `n` workspaces describes their tiles
/// and nothing else — every entry describes the tile of its window on its
/// workspace (its floating flag, whether it is shown and focused), and every
/// tile is described by some entry.
pub proof fn lemma_entries_report_tiles(m: WmModel, n: int)
    requires
        wm_ok(m),
        0 <= n <= WORKSPACE_COUNT,
    ensures
        forall|k: int|
            #![trigger entries_upto(m, n)[k]]
            0 <= k < entries_upto(m, n).len() ==> {
                let e = entries_upto(m, n)[k];
                let tiles = m.spaces[e.workspace as int].tiles;
                &&& e.workspace < n
                &&& index_of(tiles, e.window) < tiles.len()
                &&& reports_tile(m, e, e.workspace as int, index_of(tiles, e.window))
            },
        forall|w: int, p: int|
            w < n && #[trigger] has_tile_at(m, w, p) ==> exists|k: int|
                #![trigger entries_upto(m, n)[k]]
                0 <= k < entries_upto(m, n).len() && reports_tile(m, entries_upto(m, n)[k], w, p),
    decreases n,
{
    if n > 0 {
        lemma_entries_report_tiles(m, n - 1);
        let pre = entries_upto(m, n - 1);
        let last = ws_entries(m, n - 1);
        let all = entries_upto(m, n);
        assert(all == pre + last);
        let tl = m.spaces[n - 1].tiles;
        assert(ws_ok(m.spaces[n - 1]));
        assert forall|k: int| #![trigger all[k]] 0 <= k < all.len() implies {
            let e = all[k];
            let tiles = m.spaces[e.workspace as int].tiles;
            &&& e.workspace < n
            &&& index_of(tiles, e.window) < tiles.len()
            &&& reports_tile(m, e, e.workspace as int, index_of(tiles, e.window))
        } by {
            if k < pre.len() {
                assert(all[k] == pre[k]);
            } else {
                let p = k - pre.len();
                assert(all[k] == last[p]);
                assert(last[p] == entry_of(m, n - 1, tl[p]));
                lemma_index_of(tl, tl[p].window);
                let q = index_of(tl, tl[p].window);
                if q != p {
                    if q < p {
                        assert(tl[q].window != tl[p].window);
                    } else {
                        assert(tl[p].window != tl[q].window);
                    }
                }
                assert(reports_tile(m, all[k], n - 1, p));
            }
        }
        assert forall|w: int, p: int|
            w < n && #[trigger] has_tile_at(m, w, p) implies exists|k: int|
            #![trigger all[k]]
            0 <= k < all.len() && reports_tile(m, all[k], w, p) by {
            let k = entry_index(m, n, w, p);
            assert(reports_tile(m, all[k], w, p));
        }
    }
}

/// The full window list, stated over the list itself.
proof fn lemma_list_reports_tiles(m: WmModel, s: Seq<WindowEntry>)
    requires
        wm_ok(m),
        s == entries_upto(m, WORKSPACE_COUNT as int),
    ensures
        forall|k: int|
            #![trigger s[k]]
            0 <= k < s.len() ==> {
                let e = s[k];
                let tiles = m.spaces[e.workspace as int].tiles;
                &&& e.workspace < WORKSPACE_COUNT
                &&& index_of(tiles, e.window) < tiles.len()
                &&& reports_tile(m, e, e.workspace as int, index_of(tiles, e.window))
            },
        forall|w: int, p: int|
            #[trigger] has_tile_at(m, w, p) ==> exists|k: int|
                #![trigger s[k]]
                0 <= k < s.len() && reports_tile(m, s[k], w, p),
{
    lemma_entries_report_tiles(m, WORKSPACE_COUNT as int);
    assert forall|w: int, p: int| #[trigger] has_tile_at(m, w, p) implies exists|k: int|
        #![trigger s[k]]
        0 <= k < s.len() && reports_tile(m, s[k], w, p) by {
        assert(w < WORKSPACE_COUNT as int);
    }
}

/// Where the list of the first `n` workspaces' windows describes tile `p`
/// of workspace `w`.
proof fn entry_index(m: WmModel, n: int, w: int, p: int) -> (k: int)
    requires
        0 <= w < n <= m.spaces.len(),
        n <= WORKSPACE_COUNT,
        0 <= p < m.spaces[w].tiles.len(),
    ensures
        0 <= k < entries_upto(m, n).len(),
        reports_tile(m, entries_upto(m, n)[k], w, p),
    decreases n,
{
    let pre = entries_upto(m, n - 1);
    let last = ws_entries(m, n - 1);
    assert(entries_upto(m, n) == pre + last);
    if w < n - 1 {
        let k = entry_index(m, n - 1, w, p);
        assert(entries_upto(m, n)[k] == pre[k]);
        k
    } else {
        let k = pre.len() + p;
        assert(entries_upto(m, n)[k] == last[p]);
        assert(last[p] == entry_of(m, n - 1, m.spaces[n - 1].tiles[p]));
        k
    }
}

/// The model of a fresh window manager: nine empty workspaces, none
/// focused, the first one active.
pub open spec fn fresh_model() -> WmModel {
    WmModel {
        spaces: Seq::new(WORKSPACE_COUNT as nat, |_w: int| WsModel { tiles: Seq::empty(), focused: None }),
        active: 0,
    }
}

/// Window `id` is managed on some workspace.
pub open spec fn managed(m: WmModel, id: u64) -> bool {
    exists|w: int| 0 <= w < m.spaces.len() && has_window(#[trigger] m.spaces[w].tiles, id)
}

/// The active workspace.
pub open spec fn active_ws(m: WmModel) -> WsModel {
    m.spaces[m.active as int]
}

/// A fresh tiled tile for a window.
pub open spec fn new_tile(id: u64) -> Tile {
    Tile { window: id, floating: false, float_loc: None }
}

/// Index of the first tile of window `id` at or after `i`, or the length.
pub open spec fn index_from(tiles: Seq<Tile>, id: u64, i: int) -> int
    decreases tiles.len() - i,
{
    if i >= tiles.len() || i < 0 {
        tiles.len() as int
    } else if tiles[i].window == id {
        i
    } else {
        index_from(tiles, id, i + 1)
    }
}

/// Index of the tile of window `id` (the length if there is none).
pub open spec fn index_of(tiles: Seq<Tile>, id: u64) -> int {
    index_from(tiles, id, 0)
}

/// The focus a workspace gets when it becomes visible: its remembered
/// focus, or else its last tile.
pub open spec fn arrival_focus(w: WsModel) -> Option<u64> {
    if w.focused is Some {
        w.focused
    } else if w.tiles.len() > 0 {
        Some(w.tiles.last().window)
    } else {
        None
    }
}

proof fn lemma_index_from(tiles: Seq<Tile>, id: u64, i: int)
    requires
        0 <= i <= tiles.len(),
    ensures
        i <= index_from(tiles, id, i) <= tiles.len(),
        index_from(tiles, id, i) < tiles.len() ==> tiles[index_from(tiles, id, i)].window == id,
        forall|j: int| i <= j < index_from(tiles, id, i) ==> (#[trigger] tiles[j]).window != id,
    decreases tiles.len() - i,
{
    if i < tiles.len() && tiles[i].window != id {
        lemma_index_from(tiles, id, i + 1);
    }
}

/// The index of a present window is where its tile is.
proof fn lemma_index_of(tiles: Seq<Tile>, id: u64)
    ensures
        0 <= index_of(tiles, id) <= tiles.len(),
        has_window(tiles, id) <==> index_of(tiles, id) < tiles.len(),
        index_of(tiles, id) < tiles.len() ==> tiles[index_of(tiles, id)].window == id,
{
    lemma_index_from(tiles, id, 0);
    if has_window(tiles, id) {
        let k = choose|k: int| 0 <= k < tiles.len() && (#[trigger] tiles[k]).window == id;
        assert(index_of(tiles, id) <= k);
    }
}

proof fn lemma_push_tiles(tiles: Seq<Tile>, t: Tile, id: u64)
    ensures
        has_window(tiles.push(t), id) <==> (has_window(tiles, id) || t.window == id),
        distinct_windows(tiles) && !has_window(tiles, t.window) ==> distinct_windows(
            tiles.push(t),
        ),
{
    let s = tiles.push(t);
    if has_window(tiles, id) {
        let k = choose|k: int| 0 <= k < tiles.len() && (#[trigger] tiles[k]).window == id;
        assert(s[k] == tiles[k]);
    }
    if t.window == id {
        assert(s[tiles.len() as int] == t);
    }
    if has_window(s, id) {
        let k = choose|k: int| 0 <= k < s.len() && (#[trigger] s[k]).window == id;
        if k < tiles.len() {
            assert(s[k] == tiles[k]);
        }
    }
    if distinct_windows(tiles) && !has_window(tiles, t.window) {
        assert forall|i: int, j: int| 0 <= i < j < s.len() implies (#[trigger] s[i]).window
            != (#[trigger] s[j]).window by {
            if j == tiles.len() {
                assert(s[i] == tiles[i]);
            } else {
                assert(s[i] == tiles[i]);
                assert(s[j] == tiles[j]);
            }
        }
    }
}

proof fn lemma_remove_tiles(tiles: Seq<Tile>, p: int, id: u64)
    requires
        0 <= p < tiles.len(),
        distinct_windows(tiles),
    ensures
        has_window(tiles.remove(p), id) <==> (has_window(tiles, id) && tiles[p].window != id),
        distinct_windows(tiles.remove(p)),
{
    let s = tiles.remove(p);
    assert forall|k: int| 0 <= k < s.len() implies #[trigger] s[k] == (if k < p {
        tiles[k]
    } else {
        tiles[k + 1]
    }) by {}
    if has_window(tiles, id) && tiles[p].window != id {
        let k = choose|k: int| 0 <= k < tiles.len() && (#[trigger] tiles[k]).window == id;
        if k < p {
            assert(s[k] == tiles[k]);
        } else {
            assert(k > p);
            assert(s[k - 1] == tiles[k]);
        }
    }
    if has_window(s, id) {
        let k = choose|k: int| 0 <= k < s.len() && (#[trigger] s[k]).window == id;
        if k < p {
            assert(s[k] == tiles[k]);
        } else {
            assert(s[k] == tiles[k + 1]);
        }
    }
    assert forall|i: int, j: int| 0 <= i < j < s.len() implies (#[trigger] s[i]).window
        != (#[trigger] s[j]).window by {
        let i2 = if i < p {
            i
        } else {
            i + 1
        };
        let j2 = if j < p {
            j
        } else {
            j + 1
        };
        assert(s[i] == tiles[i2]);
        assert(s[j] == tiles[j2]);
    }
}

/// Replacing a tile by one of the same window keeps membership and
/// distinctness.
proof fn lemma_update_tiles(tiles: Seq<Tile>, p: int, t: Tile, id: u64)
    requires
        0 <= p < tiles.len(),
        t.window == tiles[p].window,
    ensures
        has_window(tiles.update(p, t), id) <==> has_window(tiles, id),
        distinct_windows(tiles) ==> distinct_windows(tiles.update(p, t)),
{
    let s = tiles.update(p, t);
    if has_window(tiles, id) {
        let k = choose|k: int| 0 <= k < tiles.len() && (#[trigger] tiles[k]).window == id;
        assert(s[k].window == tiles[k].window);
    }
    if has_window(s, id) {
        let k = choose|k: int| 0 <= k < s.len() && (#[trigger] s[k]).window == id;
        assert(s[k].window == tiles[k].window);
    }
    if distinct_windows(tiles) {
        assert forall|i: int, j: int| 0 <= i < j < s.len() implies (#[trigger] s[i]).window
            != (#[trigger] s[j]).window by {
            assert(s[i].window == tiles[i].window);
            assert(s[j].window == tiles[j].window);
        }
    }
}

impl Workspaces {
    /// The invariant every value of this type keeps: [`wm_ok`] of its model.
    pub open spec fn wf(&self) -> bool {
        wm_ok(self@)
    }

    /// Nine empty workspaces, the first one active.
    pub fn new() -> (r: Self)
        ensures
            r.wf(),
            r@ == fresh_model(),
    {
        let mut workspaces: Vec<Workspace> = Vec::new();
        let mut i: usize = 0;
        while i < WORKSPACE_COUNT
            invariant
                i <= WORKSPACE_COUNT,
                workspaces@.len() == i,
                forall|w: int|
                    0 <= w < i ==> (#[trigger] workspaces@[w])@.tiles.len() == 0
                        && workspaces@[w]@.focused is None,
            decreases WORKSPACE_COUNT - i,
        {
            workspaces.push(Workspace { tiles: Vec::new(), focused: None });
            i = i + 1;
        }
        let r = Workspaces { workspaces, active: 0 };
        assert(forall|w: int| 0 <= w < WORKSPACE_COUNT ==> #[trigger] r@.spaces[w] == r.workspaces@[w]@);
        assert forall|w: int| 0 <= w < WORKSPACE_COUNT implies #[trigger] r@.spaces[w]
            == fresh_model().spaces[w] by {
            assert(r.workspaces@[w]@.tiles =~= Seq::<Tile>::empty());
        }
        assert(r@.spaces =~= fresh_model().spaces);
        r
    }

    /// Index of the visible workspace (0-based).
    pub fn active_workspace(&self) -> (r: usize)
        ensures
            r == self@.active,
    {
        self.active
    }

    /// The focused window of the active workspace.
    pub fn focused_window(&self) -> (r: Option<u64>)
        requires
            self.wf(),
        ensures
            r == active_ws(self@).focused,
    {
        self.workspaces[self.active].focused
    }

    /// Windows of the active workspace, in tile order.
    pub fn active_windows(&self) -> (r: Vec<u64>)
        requires
            self.wf(),
        ensures
            r@ == active_ws(self@).tiles.map_values(|t: Tile| t.window),
    {
        let tiles = &self.workspaces[self.active].tiles;
        let mut r: Vec<u64> = Vec::new();
        let mut i: usize = 0;
        while i < tiles.len()
            invariant
                i <= tiles@.len(),
                r@ =~= tiles@.take(i as int).map_values(|t: Tile| t.window),
            decreases tiles.len() - i,
        {
            r.push(tiles[i].window);
            i = i + 1;
        }
        assert(tiles@.take(i as int) =~= tiles@);
        r
    }

    /// Tiles of the active workspace, in order.
    pub fn active_tiles(&self) -> (r: &[Tile])
        requires
            self.wf(),
        ensures
            r@ == active_ws(self@).tiles,
    {
        self.workspaces[self.active].tiles.as_slice()
    }

    /// Whether the window is managed on any workspace.
    pub fn contains_window(&self, id: u64) -> (r: bool)
        requires
            self.wf(),
        ensures
            r == managed(self@, id),
    {
        let mut w: usize = 0;
        while w < self.workspaces.len()
            invariant
                w <= self.workspaces@.len() == WORKSPACE_COUNT,
                self.wf(),
                forall|v: int| 0 <= v < w ==> !has_window(#[trigger] self@.spaces[v].tiles, id),
            decreases self.workspaces.len() - w,
        {
            if let Some(p) = Self::find(&self.workspaces[w].tiles, id) {
                assert(self@.spaces[w as int].tiles == self.workspaces@[w as int].tiles@);
                assert(self@.spaces[w as int].tiles[p as int].window == id);
                return true;
            }
            w = w + 1;
        }
        false
    }

    /// Position of window `id` in a tile list.
    fn find(tiles: &Vec<Tile>, id: u64) -> (r: Option<usize>)
        ensures
            match r {
                Some(p) => p == index_of(tiles@, id) && p < tiles@.len() && tiles@[p as int].window
                    == id,
                None => !has_window(tiles@, id) && index_of(tiles@, id) == tiles@.len(),
            },
    {
        proof {
            lemma_index_of(tiles@, id);
            lemma_index_from(tiles@, id, 0);
        }
        let mut i: usize = 0;
        while i < tiles.len()
            invariant
                i <= tiles@.len(),
                index_of(tiles@, id) >= i,
                0 <= index_of(tiles@, id) <= tiles@.len(),
                index_of(tiles@, id) < tiles@.len() ==> tiles@[index_of(tiles@, id)].window == id,
                forall|j: int| 0 <= j < index_of(tiles@, id) ==> (#[trigger] tiles@[j]).window != id,
            decreases tiles.len() - i,
        {
            if tiles[i].window == id {
                return Some(i);
            }
            i = i + 1;
        }
        None
    }

    /// Adds a new window as the last tile of the active workspace and
    /// focuses it.
    pub fn add_tile(&mut self, id: u64)
        requires
            old(self).wf(),
            !managed(old(self)@, id),
        ensures
            final(self).wf(),
            final(self)@.active == old(self)@.active,
            final(self)@.spaces == old(self)@.spaces.update(
                old(self)@.active as int,
                WsModel {
                    tiles: active_ws(old(self)@).tiles.push(new_tile(id)),
                    focused: Some(id),
                },
            ),
            forall|x: u64| managed(final(self)@, x) <==> (managed(old(self)@, x) || x == id),
    {
        let a = self.active;
        let ghost old_m = self@;
        self.workspaces[a].focused = Some(id);
        self.workspaces[a].tiles.push(new_tile_exec(id));
        proof {
            let m = self@;
            assert(m.spaces =~= old_m.spaces.update(
                a as int,
                WsModel { tiles: old_m.spaces[a as int].tiles.push(new_tile(id)), focused: Some(id) },
            )) by {
                assert forall|w: int| 0 <= w < m.spaces.len() implies #[trigger] m.spaces[w]
                    == old_m.spaces.update(
                    a as int,
                    WsModel {
                        tiles: old_m.spaces[a as int].tiles.push(new_tile(id)),
                        focused: Some(id),
                    },
                )[w] by {}
            }
            lemma_add_keeps_ok(old_m, id);
            assert forall|x: u64| managed(m, x) <==> (managed(old_m, x) || x == id) by {
                lemma_push_tiles(old_m.spaces[a as int].tiles, new_tile(id), x);
                if managed(old_m, x) {
                    let v = choose|v: int| 0 <= v < old_m.spaces.len() && has_window(#[trigger] old_m.spaces[v].tiles, x);
                    assert(has_window(m.spaces[v].tiles, x));
                }
                if x == id {
                    assert(has_window(m.spaces[a as int].tiles, x));
                }
                if managed(m, x) {
                    let v = choose|v: int| 0 <= v < m.spaces.len() && has_window(#[trigger] m.spaces[v].tiles, x);
                    if v != a {
                        assert(has_window(old_m.spaces[v].tiles, x));
                    }
                }
            }
        }
    }

    /// Makes workspace `idx` the visible one. Arriving there keeps its
    /// remembered focus, or else focuses its last tile so that keybinds act
    /// at once. Returns false, changing nothing, when `idx` is already
    /// visible.
    pub fn switch_workspace(&mut self, idx: usize) -> (switched: bool)
        requires
            old(self).wf(),
            idx < WORKSPACE_COUNT,
        ensures
            final(self).wf(),
            switched == (idx != old(self)@.active),
            !switched ==> final(self)@ == old(self)@,
            switched ==> final(self)@.active == idx,
            switched ==> final(self)@.spaces == old(self)@.spaces.update(
                idx as int,
                WsModel {
                    tiles: old(self)@.spaces[idx as int].tiles,
                    focused: arrival_focus(old(self)@.spaces[idx as int]),
                },
            ),
            forall|id: u64| managed(final(self)@, id) <==> managed(old(self)@, id),
    {
        if idx == self.active {
            return false;
        }
        let ghost old_m = self@;
        let f = match self.workspaces[idx].focused {
            Some(f) => Some(f),
            None => {
                let n = self.workspaces[idx].tiles.len();
                if n > 0 {
                    Some(self.workspaces[idx].tiles[n - 1].window)
                } else {
                    None
                }
            },
        };
        self.workspaces[idx].focused = f;
        self.active = idx;
        proof {
            let m = self@;
            let i = idx as int;
            let nw = WsModel { tiles: old_m.spaces[i].tiles, focused: f };
            let target = old_m.spaces.update(i, nw);
            assert(m.spaces =~= target) by {
                assert forall|w: int| 0 <= w < m.spaces.len() implies #[trigger] m.spaces[w]
                    == target[w] by {}
            }
            assert(f == arrival_focus(old_m.spaces[i]));
            if old_m.spaces[i].focused is None && old_m.spaces[i].tiles.len() > 0 {
                lemma_last_present(old_m.spaces[i].tiles);
            }
            assert(ws_ok(old_m.spaces[i]));
            lemma_replace_ws(old_m, i, nw);
            assert forall|id: u64| managed(m, id) <==> managed(old_m, id) by {
                if managed(m, id) {
                    let w = choose|w: int| 0 <= w < m.spaces.len() && has_window(#[trigger] m.spaces[w].tiles, id);
                    assert(m.spaces[w].tiles == old_m.spaces[w].tiles);
                }
                if managed(old_m, id) {
                    let w = choose|w: int| 0 <= w < old_m.spaces.len() && has_window(#[trigger] old_m.spaces[w].tiles, id);
                    assert(m.spaces[w].tiles == old_m.spaces[w].tiles);
                }
            }
        }
        true
    }

    /// Moves the focused window of the active workspace to workspace `idx`,
    /// as a tiled tile at the end of its order; neither workspace keeps a
    /// focus. Returns false, changing nothing, when `idx` is the active
    /// workspace or nothing is focused.
    pub fn move_focused_to_workspace(&mut self, idx: usize) -> (moved: bool)
        requires
            old(self).wf(),
            idx < WORKSPACE_COUNT,
        ensures
            final(self).wf(),
            moved == (idx != old(self)@.active && active_ws(old(self)@).focused is Some),
            !moved ==> final(self)@ == old(self)@,
            final(self)@.active == old(self)@.active,
            moved ==> final(self)@.spaces == moved_spaces(old(self)@, idx as int),
            forall|id: u64| managed(final(self)@, id) <==> managed(old(self)@, id),
            moved ==> final(self)@.spaces[idx as int].focused is None,
            moved ==> final(self)@.spaces[idx as int].tiles.last().window == active_ws(
                old(self)@,
            ).focused->0,
            moved ==> !final(self)@.spaces[idx as int].tiles.last().floating,
            moved ==> arrival_focus(final(self)@.spaces[idx as int]) == active_ws(old(self)@).focused,
            moved ==> !has_window(active_ws(final(self)@).tiles, active_ws(old(self)@).focused->0),
    {
        let a = self.active;
        if idx == a {
            return false;
        }
        let f = match self.workspaces[a].focused {
            Some(f) => f,
            None => {
                return false;
            },
        };
        let ghost old_m = self@;
        proof {
            assert(ws_ok(old_m.spaces[a as int]));
        }
        let pos = match Self::find(&self.workspaces[a].tiles, f) {
            Some(p) => p,
            None => {
                return false;
            },
        };
        let _ = self.workspaces[a].tiles.remove(pos);
        self.workspaces[a].focused = None;
        self.workspaces[idx].tiles.push(new_tile_exec(f));
        self.workspaces[idx].focused = None;
        proof {
            let m = self@;
            let target = moved_spaces(old_m, idx as int);
            assert(m.spaces =~= target) by {
                assert forall|w: int| 0 <= w < m.spaces.len() implies #[trigger] m.spaces[w]
                    == target[w] by {}
            }
            lemma_move_ok(old_m, idx as int);
            lemma_move_then_follow(old_m, idx as int);
        }
        true
    }

    /// Flips the focused window of the active workspace between tiled and
    /// floating. A new float is placed centred under the pointer at
    /// `pointer`, using its size `size` (640x480 while it has none), kept
    /// right of and below `outer_gap`. Returns false, changing nothing, when
    /// nothing is focused.
    pub fn toggle_focused_floating(&mut self, pointer: Point, size: (i32, i32), outer_gap: i32) -> (toggled: bool)
        requires
            old(self).wf(),
        ensures
            final(self).wf(),
            toggled == active_ws(old(self)@).focused is Some,
            !toggled ==> final(self)@ == old(self)@,
            final(self)@.active == old(self)@.active,
            toggled ==> final(self)@.spaces == old(self)@.spaces.update(
                old(self)@.active as int,
                toggled_ws(
                    old(self)@,
                    pointer.x as int,
                    pointer.y as int,
                    size.0 as int,
                    size.1 as int,
                    outer_gap as int,
                ),
            ),
            forall|id: u64| managed(final(self)@, id) <==> managed(old(self)@, id),
    {
        let a = self.active;
        let f = match self.workspaces[a].focused {
            Some(f) => f,
            None => {
                return false;
            },
        };
        let ghost old_m = self@;
        proof {
            assert(ws_ok(old_m.spaces[a as int]));
        }
        let pos = match Self::find(&self.workspaces[a].tiles, f) {
            Some(p) => p,
            None => {
                return false;
            },
        };
        let t = self.workspaces[a].tiles[pos];
        if !t.floating {
            let ew: i64 = if size.0 > 0 {
                size.0 as i64
            } else {
                640
            };
            let eh: i64 = if size.1 > 0 {
                size.1 as i64
            } else {
                480
            };
            let x: i64 = pointer.x as i64 - ew / 2;
            let y: i64 = pointer.y as i64 - eh / 2;
            let x: i64 = if x >= outer_gap as i64 {
                x
            } else {
                outer_gap as i64
            };
            let y: i64 = if y >= outer_gap as i64 {
                y
            } else {
                outer_gap as i64
            };
            let loc = Point { x: x as i32, y: y as i32 };
            self.workspaces[a].tiles[pos] = Tile { window: f, floating: true, float_loc: Some(loc) };
        } else {
            let _ = self.workspaces[a].tiles.remove(pos);
            self.workspaces[a].tiles.push(Tile { window: f, floating: false, float_loc: t.float_loc });
        }
        proof {
            let m = self@;
            let nw = toggled_ws(
                old_m,
                pointer.x as int,
                pointer.y as int,
                size.0 as int,
                size.1 as int,
                outer_gap as int,
            );
            let target = old_m.spaces.update(a as int, nw);
            assert(m.spaces =~= target) by {
                assert forall|w: int| 0 <= w < m.spaces.len() implies #[trigger] m.spaces[w]
                    == target[w] by {}
            }
            lemma_toggle_ok(
                old_m,
                pointer.x as int,
                pointer.y as int,
                size.0 as int,
                size.1 as int,
                outer_gap as int,
            );
            lemma_same_windows(old_m, a as int, nw);
        }
        true
    }

    /// Whether window `id` is a float on the active workspace.
    pub fn is_floating(&self, id: u64) -> (r: bool)
        requires
            self.wf(),
        ensures
            r == (has_window(active_ws(self@).tiles, id) && active_ws(self@).tiles[index_of(
                active_ws(self@).tiles,
                id,
            )].floating),
    {
        match Self::find(&self.workspaces[self.active].tiles, id) {
            Some(p) => self.workspaces[self.active].tiles[p].floating,
            None => false,
        }
    }

    /// Records the live position of a floating window during a move grab,
    /// on whichever workspace holds it; a tiled or unknown window is left
    /// alone.
    pub fn update_float_loc(&mut self, id: u64, loc: Point)
        requires
            old(self).wf(),
        ensures
            final(self).wf(),
            final(self)@.active == old(self)@.active,
            final(self)@.spaces == old(self)@.spaces.map_values(
                |w: WsModel| float_moved(w, id, loc),
            ),
    {
        let ghost old_m = self@;
        let ghost target = old_m.spaces.map_values(|w: WsModel| float_moved(w, id, loc));
        let mut w: usize = 0;
        while w < self.workspaces.len()
            invariant
                self.workspaces@.len() == WORKSPACE_COUNT,
                self@ == old_m,
                old(self)@ == old_m,
                wm_ok(old_m),
                w <= WORKSPACE_COUNT,
                target == old_m.spaces.map_values(|w: WsModel| float_moved(w, id, loc)),
                forall|v: int| 0 <= v < w ==> !has_window(#[trigger] old_m.spaces[v].tiles, id),
            decreases self.workspaces.len() - w,
        {
            proof {
                assert(self@.spaces[w as int] == self.workspaces@[w as int]@);
            }
            if let Some(p) = Self::find(&self.workspaces[w].tiles, id) {
                let t = self.workspaces[w].tiles[p];
                if t.floating {
                    self.workspaces[w].tiles[p] = Tile { window: id, floating: true, float_loc: Some(loc) };
                }
                proof {
                    let m = self@;
                    let i = w as int;
                    let nw = float_moved(old_m.spaces[i], id, loc);
                    assert(has_window(old_m.spaces[i].tiles, id));
                    assert(m.spaces =~= old_m.spaces.update(i, nw)) by {
                        assert forall|v: int| 0 <= v < m.spaces.len() implies #[trigger] m.spaces[v]
                            == old_m.spaces.update(i, nw)[v] by {}
                    }
                    assert(ws_ok(old_m.spaces[i]));
                    assert forall|x: u64| has_window(nw.tiles, x) <==> has_window(old_m.spaces[i].tiles, x) by {
                        if t.floating {
                            lemma_update_tiles(old_m.spaces[i].tiles, p as int, Tile { window: id, floating: true, float_loc: Some(loc) }, x);
                        }
                    }
                    if t.floating {
                        lemma_update_tiles(old_m.spaces[i].tiles, p as int, Tile { window: id, floating: true, float_loc: Some(loc) }, id);
                    }
                    lemma_same_windows(old_m, i, nw);
                    assert(m.spaces =~= target) by {
                        assert forall|v: int| 0 <= v < m.spaces.len() implies #[trigger] m.spaces[v]
                            == target[v] by {
                            if v != i {
                                if v > i {
                                    lemma_wm_ok_elim(old_m, i, v, id);
                                }
                            }
                        }
                    }
                }
                return;
            }
            w = w + 1;
        }
        proof {
            assert(self@.spaces =~= target) by {
                assert forall|v: int| 0 <= v < self@.spaces.len() implies #[trigger] self@.spaces[v]
                    == target[v] by {}
            }
        }
    }

    /// Turns tiled window `id` of the active workspace into a float at
    /// `loc` (a window dragged out of the tiling). Returns false, changing
    /// nothing, when the window is not on the active workspace or already
    /// floats.
    pub fn ensure_floating_at(&mut self, id: u64, loc: Point) -> (changed: bool)
        requires
            old(self).wf(),
        ensures
            final(self).wf(),
            final(self)@.active == old(self)@.active,
            changed == (has_window(active_ws(old(self)@).tiles, id) && !active_ws(
                old(self)@,
            ).tiles[index_of(active_ws(old(self)@).tiles, id)].floating),
            !changed ==> final(self)@ == old(self)@,
            changed ==> final(self)@.spaces == old(self)@.spaces.update(
                old(self)@.active as int,
                floated_at(active_ws(old(self)@), id, loc),
            ),
            forall|x: u64| managed(final(self)@, x) <==> managed(old(self)@, x),
    {
        let a = self.active;
        let ghost old_m = self@;
        let pos = match Self::find(&self.workspaces[a].tiles, id) {
            Some(p) => p,
            None => {
                return false;
            },
        };
        if self.workspaces[a].tiles[pos].floating {
            return false;
        }
        self.workspaces[a].tiles[pos] = Tile { window: id, floating: true, float_loc: Some(loc) };
        proof {
            let m = self@;
            let i = a as int;
            let nw = floated_at(old_m.spaces[i], id, loc);
            let nt = Tile { window: id, floating: true, float_loc: Some(loc) };
            assert(m.spaces =~= old_m.spaces.update(i, nw)) by {
                assert forall|v: int| 0 <= v < m.spaces.len() implies #[trigger] m.spaces[v]
                    == old_m.spaces.update(i, nw)[v] by {}
            }
            assert(ws_ok(old_m.spaces[i]));
            assert forall|x: u64| has_window(nw.tiles, x) <==> has_window(old_m.spaces[i].tiles, x) by {
                lemma_update_tiles(old_m.spaces[i].tiles, pos as int, nt, x);
            }
            lemma_update_tiles(old_m.spaces[i].tiles, pos as int, nt, id);
            lemma_same_windows(old_m, i, nw);
        }
        true
    }

    /// Drops the tiles of dead windows from every workspace and forgets a
    /// dead focus. When something was dropped and the active workspace is
    /// left without focus, its last remaining tile (if any) is focused.
    pub fn cleanup_dead(&mut self, dead: &Vec<u64>) -> (r: Cleanup)
        requires
            old(self).wf(),
        ensures
            final(self).wf(),
            final(self)@.active == old(self)@.active,
            !any_dead(old(self)@, dead@) ==> r == Cleanup::Unchanged && final(self)@ == old(self)@,
            any_dead(old(self)@, dead@) ==> final(self)@.spaces == cleaned_spaces(old(self)@, dead@),
            any_dead(old(self)@, dead@) ==> (r == Cleanup::Refocused <==> spaces_without_dead(
                old(self)@,
                dead@,
            )[old(self)@.active as int].focused is None),
            any_dead(old(self)@, dead@) ==> r != Cleanup::Unchanged,
            forall|id: u64| managed(final(self)@, id) <==> (managed(old(self)@, id) && !dead@.contains(id)),
    {
        let ghost old_m = self@;
        let ghost s = spaces_without_dead(old_m, dead@);
        let mut any = false;
        let mut w: usize = 0;
        while w < self.workspaces.len()
            invariant
                self.workspaces@.len() == WORKSPACE_COUNT,
                w <= WORKSPACE_COUNT,
                wm_ok(old_m),
                old(self)@ == old_m,
                s == spaces_without_dead(old_m, dead@),
                self@.active == old_m.active,
                self@.spaces.len() == WORKSPACE_COUNT,
                forall|v: int| 0 <= v < w ==> #[trigger] self@.spaces[v] == s[v],
                forall|v: int| w <= v < WORKSPACE_COUNT ==> #[trigger] self@.spaces[v] == old_m.spaces[v],
                any == exists|v: int| 0 <= v < w && has_dead(#[trigger] old_m.spaces[v].tiles, dead@),
            decreases self.workspaces.len() - w,
        {
            proof {
                assert(self@.spaces[w as int] == self.workspaces@[w as int]@);
            }
            let ghost pre_ws = self.workspaces@;
            let ghost pre_m = self@;
            proof {
                assert forall|v: int| 0 <= v < WORKSPACE_COUNT implies #[trigger] pre_m.spaces[v] == pre_ws[v]@ by {}
            }
            let (tiles, d) = retain_alive(&self.workspaces[w].tiles, dead);
            self.workspaces[w].tiles = tiles;
            let f = self.workspaces[w].focused;
            if let Some(fid) = f {
                if contains_id(dead, fid) {
                    self.workspaces[w].focused = None;
                }
            }
            proof {
                assert(self@.spaces[w as int] == self.workspaces@[w as int]@);
                assert(self@.spaces[w as int] == s[w as int]);
                assert forall|v: int| 0 <= v < WORKSPACE_COUNT && v != w implies #[trigger] self@.spaces[v]
                    == pre_ws[v]@ by {
                    assert(self@.spaces[v] == self.workspaces@[v]@);
                }
                assert forall|v: int| 0 <= v < WORKSPACE_COUNT && v != w implies #[trigger] self@.spaces[v]
                    == pre_m.spaces[v] by {
                    assert(self@.spaces[v] == pre_ws[v]@);
                }
                if d {
                    assert(has_dead(old_m.spaces[w as int].tiles, dead@));
                }
            }
            any = any || d;
            w = w + 1;
        }
        proof {
            assert forall|v: int, id: u64| 0 <= v < WORKSPACE_COUNT implies ws_ok(#[trigger] s[v]) && (#[trigger] has_window(s[v].tiles, id) <==> (has_window(old_m.spaces[v].tiles, id) && !dead@.contains(id))) && (!has_dead(old_m.spaces[v].tiles, dead@) ==> s[v] == old_m.spaces[v]) by {
                assert(ws_ok(old_m.spaces[v]));
                lemma_without_dead_ws(old_m.spaces[v], dead@, id);
            }
            assert forall|v: int| 0 <= v < WORKSPACE_COUNT implies ws_ok(#[trigger] s[v]) && (!has_dead(old_m.spaces[v].tiles, dead@) ==> s[v] == old_m.spaces[v]) by {
                assert(ws_ok(old_m.spaces[v]));
                lemma_without_dead_ws(old_m.spaces[v], dead@, 0);
            }
            assert(any == any_dead(old_m, dead@)) by {
                if any {
                    let v = choose|v: int| 0 <= v < WORKSPACE_COUNT && has_dead(#[trigger] old_m.spaces[v].tiles, dead@);
                    let i = choose|i: int| 0 <= i < old_m.spaces[v].tiles.len() && dead@.contains((#[trigger] old_m.spaces[v].tiles[i]).window);
                    assert(dead@.contains(old_m.spaces[v].tiles[i].window));
                }
                if any_dead(old_m, dead@) {
                    let (v, i) = choose|v: int, i: int|
                        0 <= v < old_m.spaces.len() && 0 <= i < old_m.spaces[v].tiles.len() && dead@.contains(
                            (#[trigger] old_m.spaces[v].tiles[i]).window,
                        );
                    assert(has_dead(old_m.spaces[v].tiles, dead@));
                }
            }
        }
        if !any {
            proof {
                assert(self@.spaces =~= old_m.spaces) by {
                    assert forall|v: int| 0 <= v < WORKSPACE_COUNT implies #[trigger] self@.spaces[v]
                        == old_m.spaces[v] by {
                        assert(!has_dead(old_m.spaces[v].tiles, dead@));
                    }
                }
                assert forall|id: u64| managed(self@, id) <==> (managed(old_m, id) && !dead@.contains(id)) by {
                    if managed(old_m, id) {
                        let v = choose|v: int| 0 <= v < old_m.spaces.len() && has_window(#[trigger] old_m.spaces[v].tiles, id);
                        assert(!has_dead(old_m.spaces[v].tiles, dead@));
                        assert(has_window(s[v].tiles, id) <==> (has_window(old_m.spaces[v].tiles, id) && !dead@.contains(id)));
                    }
                }
            }
            return Cleanup::Unchanged;
        }
        let ghost mid = self@;
        proof {
            assert(mid.spaces =~= s) by {
                assert forall|v: int| 0 <= v < WORKSPACE_COUNT implies #[trigger] mid.spaces[v] == s[v] by {}
            }
            assert forall|x: int, y: int, id: u64|
                0 <= x < mid.spaces.len() && 0 <= y < mid.spaces.len() && x != y && #[trigger] has_window(
                    mid.spaces[x].tiles,
                    id,
                ) implies !#[trigger] has_window(mid.spaces[y].tiles, id) by {
                assert(has_window(old_m.spaces[x].tiles, id));
                lemma_wm_ok_elim(old_m, x, y, id);
            }
            lemma_wm_ok_intro(mid);
        }
        let a = self.active;
        let r = if self.workspaces[a].focused.is_none() {
            let n = self.workspaces[a].tiles.len();
            let nf = if n > 0 {
                Some(self.workspaces[a].tiles[n - 1].window)
            } else {
                None
            };
            self.workspaces[a].focused = nf;
            proof {
                let i = a as int;
                let nw = WsModel { tiles: mid.spaces[i].tiles, focused: nf };
                assert(self@.spaces =~= mid.spaces.update(i, nw)) by {
                    assert forall|v: int| 0 <= v < WORKSPACE_COUNT implies #[trigger] self@.spaces[v] == mid.spaces.update(i, nw)[v] by {}
                }
                if n > 0 {
                    lemma_last_present(mid.spaces[i].tiles);
                }
                assert(ws_ok(mid.spaces[i]));
                lemma_same_windows(mid, i, nw);
            }
            Cleanup::Refocused
        } else {
            Cleanup::Kept
        };
        proof {
            assert forall|id: u64| managed(self@, id) <==> (managed(old_m, id) && !dead@.contains(id)) by {
                if managed(old_m, id) && !dead@.contains(id) {
                    let v = choose|v: int| 0 <= v < old_m.spaces.len() && has_window(#[trigger] old_m.spaces[v].tiles, id);
                    assert(has_window(s[v].tiles, id));
                    assert(has_window(self@.spaces[v].tiles, id));
                }
                if managed(self@, id) {
                    let v = choose|v: int| 0 <= v < self@.spaces.len() && has_window(#[trigger] self@.spaces[v].tiles, id);
                    assert(has_window(s[v].tiles, id));
                }
            }
        }
        r
    }

    /// Lays out the active workspace on an output with geometry `output`:
    /// tiled windows fill the dwindling slots of the usable area (inside
    /// the outer gap, below a bar of height `bar_reserve`), each slot
    /// shrunk by the border width; floats keep their stored position, and
    /// a float without one is first centred (its size taken from `sizes`,
    /// the current geometry of each active tile in order). Returns the
    /// placements in tile order.
    pub fn arrange(
        &mut self,
        output: Rect,
        metrics: LayoutMetrics,
        bar_reserve: i32,
        sizes: &Vec<(i32, i32)>,
    ) -> (out: Vec<Placement>)
        requires
            old(self).wf(),
            sizes@.len() == active_ws(old(self)@).tiles.len(),
            arrange_fits(output@, metrics, bar_reserve as int, tiled_count(active_ws(old(self)@).tiles)),
        ensures
            final(self).wf(),
            final(self)@.active == old(self)@.active,
            final(self)@.spaces == old(self)@.spaces.update(
                old(self)@.active as int,
                WsModel {
                    tiles: placed_tiles(
                        active_ws(old(self)@).tiles,
                        sizes@,
                        usable_area(output@, metrics.outer_gap as int, bar_reserve as int),
                    ),
                    focused: active_ws(old(self)@).focused,
                },
            ),
            out@ == placements(
                active_ws(old(self)@).tiles,
                sizes@,
                usable_area(output@, metrics.outer_gap as int, bar_reserve as int),
                spec_dwindle(
                    usable_area(output@, metrics.outer_gap as int, bar_reserve as int),
                    tiled_count(active_ws(old(self)@).tiles),
                    metrics.inner_gap as int,
                ),
                metrics.border_width as int,
                active_ws(old(self)@).tiles.len() as int,
            ),
    {
        let a = self.active;
        let ghost old_m = self@;
        let ghost tiles0 = old_m.spaces[a as int].tiles;
        proof {
            assert(self.workspaces@[a as int]@.tiles == tiles0);
        }
        let og = metrics.outer_gap as i64;
        let ux: i64 = output.x as i64 + og;
        let uy: i64 = output.y as i64 + og + bar_reserve as i64;
        let uw: i64 = output.w as i64 - 2 * og;
        let uh: i64 = output.h as i64 - 2 * og - bar_reserve as i64;
        let usable = Rect::new(
            ux as i32,
            uy as i32,
            if uw >= 0 {
                uw as i32
            } else {
                0
            },
            if uh >= 0 {
                uh as i32
            } else {
                0
            },
        );
        let ghost u = usable_area(output@, metrics.outer_gap as int, bar_reserve as int);
        assert(usable@ == u);
        let n = self.workspaces[a].tiles.len();
        let mut count: usize = 0;
        let mut i: usize = 0;
        while i < n
            invariant
                n == tiles0.len(),
                self.workspaces@[a as int]@.tiles == tiles0,
                a < self.workspaces@.len(),
                i <= n,
                count == tiled_count(tiles0.take(i as int)),
                count <= i,
            decreases n - i,
        {
            proof {
                assert(tiles0.take(i as int + 1).drop_last() =~= tiles0.take(i as int));
            }
            if !self.workspaces[a].tiles[i].floating {
                count = count + 1;
            }
            i = i + 1;
        }
        proof {
            assert(tiles0.take(n as int) =~= tiles0);
        }
        let slots = dwindle(usable, count, metrics.inner_gap);
        let ghost slot_models = spec_dwindle(u, count as nat, metrics.inner_gap as int);
        let mut out: Vec<Placement> = Vec::new();
        let mut new_tiles: Vec<Tile> = Vec::new();
        let mut k: usize = 0;
        let mut i: usize = 0;
        while i < n
            invariant
                n == tiles0.len(),
                n == sizes@.len(),
                self.workspaces@[a as int]@.tiles == tiles0,
                a < self.workspaces@.len(),
                i <= n,
                usable@ == u,
                usable.w >= 0,
                usable.h >= 0,
                fits_i32(right_of(u)),
                fits_i32(bottom_of(u)),
                rect_models(slots@) == slot_models,
                forall|j: int|
                    0 <= j < slot_models.len() ==> shrink_fits(
                        #[trigger] slot_models[j],
                        metrics.border_width as int,
                    ),
                k == tiled_count(tiles0.take(i as int)),
                k <= i,
                new_tiles@ =~= placed_tiles(tiles0, sizes@, u).take(i as int),
                out@ == placements(tiles0, sizes@, u, slot_models, metrics.border_width as int, i as int),
            decreases n - i,
        {
            proof {
                assert(tiles0.take(i as int + 1).drop_last() =~= tiles0.take(i as int));
            }
            let t = self.workspaces[a].tiles[i];
            if t.floating {
                let loc = match t.float_loc {
                    Some(l) => l,
                    None => {
                        let size = sizes[i];
                        let ew: i32 = if size.0 <= 0 || size.1 <= 0 {
                            640
                        } else {
                            size.0
                        };
                        let eh: i32 = if size.0 <= 0 || size.1 <= 0 {
                            480
                        } else {
                            size.1
                        };
                        let dx: i32 = if usable.w - ew >= 0 {
                            usable.w - ew
                        } else {
                            0
                        };
                        let dy: i32 = if usable.h - eh >= 0 {
                            usable.h - eh
                        } else {
                            0
                        };
                        Point { x: usable.x + dx / 2, y: usable.y + dy / 2 }
                    },
                };
                let nt = Tile { window: t.window, floating: true, float_loc: Some(loc) };
                assert(nt == placed_tile(tiles0[i as int], u, sizes@[i as int]));
                new_tiles.push(nt);
                out.push(Placement::Floating { window: t.window, loc });
            } else {
                new_tiles.push(t);
                if k < slots.len() {
                    let r = slots[k];
                    proof {
                        assert(r@ == slot_models[k as int]);
                        assert(shrink_fits(slot_models[k as int], metrics.border_width as int));
                    }
                    let inner = r.shrink(metrics.border_width);
                    let w = if inner.w >= 1 {
                        inner.w
                    } else {
                        1
                    };
                    let h = if inner.h >= 1 {
                        inner.h
                    } else {
                        1
                    };
                    out.push(
                        Placement::Tiled { window: t.window, loc: Point { x: inner.x, y: inner.y }, w, h },
                    );
                }
                k = k + 1;
            }
            i = i + 1;
        }
        proof {
            assert(tiles0.take(n as int) =~= tiles0);
            assert(new_tiles@ =~= placed_tiles(tiles0, sizes@, u));
        }
        self.workspaces[a].tiles = new_tiles;
        proof {
            let m = self@;
            let nw = WsModel { tiles: placed_tiles(tiles0, sizes@, u), focused: old_m.spaces[a as int].focused };
            assert(m.spaces =~= old_m.spaces.update(a as int, nw)) by {
                assert forall|v: int| 0 <= v < m.spaces.len() implies #[trigger] m.spaces[v]
                    == old_m.spaces.update(a as int, nw)[v] by {}
            }
            lemma_same_ids(tiles0, nw.tiles);
            assert(ws_ok(old_m.spaces[a as int]));
            if let Some(f) = nw.focused {
                assert(has_window(tiles0, f));
            }
            lemma_same_windows(old_m, a as int, nw);
        }
        out
    }

    /// Entry of tile `p` of workspace `w`.
    fn entry_at(&self, w: usize, p: usize) -> (e: WindowEntry)
        requires
            self.wf(),
            w < WORKSPACE_COUNT,
            p < self@.spaces[w as int].tiles.len(),
        ensures
            e == entry_of(self@, w as int, self@.spaces[w as int].tiles[p as int]),
            e.window == self@.spaces[w as int].tiles[p as int].window,
            e.floating == self@.spaces[w as int].tiles[p as int].floating,
            e.workspace == w,
            e.mapped == (w == self@.active),
            e.focused == (self@.spaces[w as int].focused == Some(e.window)),
    {
        proof {
            assert(self@.spaces[w as int] == self.workspaces@[w as int]@);
        }
        let t = self.workspaces[w].tiles[p];
        let focused = match self.workspaces[w].focused {
            Some(f) => f == t.window,
            None => false,
        };
        WindowEntry { window: t.window, floating: t.floating, workspace: w, mapped: w == self.active, focused }
    }

    /// Every managed window, workspace by workspace, in tile order.
    pub fn all_windows(&self) -> (r: Vec<WindowEntry>)
        requires
            self.wf(),
        ensures
            r@ == entries_upto(self@, WORKSPACE_COUNT as int),
            forall|k: int|
                #![trigger r@[k]]
                0 <= k < r@.len() ==> {
                    let e = r@[k];
                    let tiles = self@.spaces[e.workspace as int].tiles;
                    &&& e.workspace < WORKSPACE_COUNT
                    &&& index_of(tiles, e.window) < tiles.len()
                    &&& reports_tile(self@, e, e.workspace as int, index_of(tiles, e.window))
                },
            forall|w: int, p: int|
                #[trigger] has_tile_at(self@, w, p) ==> exists|k: int|
                    #![trigger r@[k]]
                    0 <= k < r@.len() && reports_tile(self@, r@[k], w, p),
    {
        let mut r: Vec<WindowEntry> = Vec::new();
        let mut w: usize = 0;
        while w < WORKSPACE_COUNT
            invariant
                self.wf(),
                w <= WORKSPACE_COUNT,
                r@ == entries_upto(self@, w as int),
            decreases WORKSPACE_COUNT - w,
        {
            let ghost before = r@;
            proof {
                assert(self@.spaces[w as int] == self.workspaces@[w as int]@);
            }
            let n = self.workspaces[w].tiles.len();
            let mut p: usize = 0;
            while p < n
                invariant
                    self.wf(),
                    w < WORKSPACE_COUNT,
                    n == self@.spaces[w as int].tiles.len(),
                    p <= n,
                    r@ == before + ws_entries(self@, w as int).take(p as int),
                decreases n - p,
            {
                let e = self.entry_at(w, p);
                r.push(e);
                proof {
                    assert(ws_entries(self@, w as int).take(p as int + 1) =~= ws_entries(
                        self@,
                        w as int,
                    ).take(p as int).push(e));
                }
                p = p + 1;
            }
            proof {
                assert(ws_entries(self@, w as int).take(n as int) =~= ws_entries(self@, w as int));
            }
            w = w + 1;
        }
        proof {
            lemma_list_reports_tiles(self@, r@);
        }
        r
    }

    /// The entry of window `id`, or `None` when it is not managed.
    pub fn window_entry(&self, id: u64) -> (r: Option<WindowEntry>)
        requires
            self.wf(),
        ensures
            r is None <==> !managed(self@, id),
            r matches Some(e) ==> {
                let tiles = self@.spaces[e.workspace as int].tiles;
                &&& e.window == id
                &&& e.floating == tiles[index_of(tiles, id)].floating
                &&& tiles[index_of(tiles, id)].window == id
                &&& e.mapped == (e.workspace == self@.active)
                &&& e.focused == (self@.spaces[e.workspace as int].focused == Some(id))
            },
            r matches Some(e) ==> e.workspace < WORKSPACE_COUNT && has_window(
                self@.spaces[e.workspace as int].tiles,
                id,
            ) && e == entry_of(
                self@,
                e.workspace as int,
                self@.spaces[e.workspace as int].tiles[index_of(
                    self@.spaces[e.workspace as int].tiles,
                    id,
                )],
            ),
    {
        let mut w: usize = 0;
        while w < WORKSPACE_COUNT
            invariant
                self.wf(),
                w <= WORKSPACE_COUNT,
                forall|v: int| 0 <= v < w ==> !has_window(#[trigger] self@.spaces[v].tiles, id),
            decreases WORKSPACE_COUNT - w,
        {
            proof {
                assert(self@.spaces[w as int] == self.workspaces@[w as int]@);
            }
            if let Some(p) = Self::find(&self.workspaces[w].tiles, id) {
                let e = self.entry_at(w, p);
                proof {
                    assert(has_window(self@.spaces[w as int].tiles, id));
                }
                return Some(e);
            }
            w = w + 1;
        }
        None
    }

    /// For each tile of the active workspace, in order: its window and
    /// whether it should carry the xdg `Activated` state (it is the focused
    /// window).
    pub fn activation(&self) -> (r: Vec<(u64, bool)>)
        requires
            self.wf(),
        ensures
            r@ == active_ws(self@).tiles.map_values(
                |t: Tile| (t.window, active_ws(self@).focused == Some(t.window)),
            ),
    {
        let a = self.active;
        proof {
            assert(self@.spaces[a as int] == self.workspaces@[a as int]@);
        }
        let ghost tiles = active_ws(self@).tiles;
        let ghost f = active_ws(self@).focused;
        let focused = self.workspaces[a].focused;
        let n = self.workspaces[a].tiles.len();
        let mut r: Vec<(u64, bool)> = Vec::new();
        let mut i: usize = 0;
        while i < n
            invariant
                a < self.workspaces@.len(),
                self.workspaces@[a as int]@.tiles == tiles,
                focused == f,
                n == tiles.len(),
                i <= n,
                r@ =~= tiles.take(i as int).map_values(|t: Tile| (t.window, f == Some(t.window))),
            decreases n - i,
        {
            let w = self.workspaces[a].tiles[i].window;
            let on = match focused {
                Some(x) => x == w,
                None => false,
            };
            r.push((w, on));
            i = i + 1;
        }
        assert(tiles.take(n as int) =~= tiles);
        r
    }

    /// How many tiles of the active workspace are tiled (not floating).
    pub fn tiled_count(&self) -> (r: usize)
        requires
            self.wf(),
        ensures
            r == tiled_count(active_ws(self@).tiles),
    {
        let a = self.active;
        proof {
            assert(self@.spaces[a as int] == self.workspaces@[a as int]@);
        }
        let ghost tiles = active_ws(self@).tiles;
        let n = self.workspaces[a].tiles.len();
        let mut count: usize = 0;
        let mut i: usize = 0;
        while i < n
            invariant
                a < self.workspaces@.len(),
                self.workspaces@[a as int]@.tiles == tiles,
                n == tiles.len(),
                i <= n,
                count == tiled_count(tiles.take(i as int)),
                count <= i,
            decreases n - i,
        {
            proof {
                assert(tiles.take(i as int + 1).drop_last() =~= tiles.take(i as int));
            }
            if !self.workspaces[a].tiles[i].floating {
                count = count + 1;
            }
            i = i + 1;
        }
        assert(tiles.take(n as int) =~= tiles);
        count
    }

    /// Focuses a window of the active workspace (or nothing).
    pub fn focus_window(&mut self, id: Option<u64>) -> (focused: bool)
        requires
            old(self).wf(),
        ensures
            final(self).wf(),
            focused == (id matches Some(f) ==> has_window(active_ws(old(self)@).tiles, f)),
            focused ==> final(self)@ == (WmModel {
                spaces: old(self)@.spaces.update(
                    old(self)@.active as int,
                    WsModel { tiles: active_ws(old(self)@).tiles, focused: id },
                ),
                active: old(self)@.active,
            }),
            !focused ==> final(self)@ == old(self)@,
    {
        let a = self.active;
        let ghost old_m = self@;
        proof {
            assert(self.workspaces@[a as int]@ == old_m.spaces[a as int]);
        }
        if let Some(f) = id {
            if Self::find(&self.workspaces[a].tiles, f).is_none() {
                return false;
            }
        }
        self.workspaces[a].focused = id;
        proof {
            let m = self@;
            let target = old_m.spaces.update(
                a as int,
                WsModel { tiles: old_m.spaces[a as int].tiles, focused: id },
            );
            assert(m.spaces =~= target) by {
                assert forall|w: int| 0 <= w < m.spaces.len() implies #[trigger] m.spaces[w]
                    == target[w] by {}
            }
            assert(wm_ok(m)) by {
                assert forall|w: int| 0 <= w < m.spaces.len() implies ws_ok(#[trigger] m.spaces[w]) by {
                    assert(old_m.spaces[w].tiles == m.spaces[w].tiles);
                }
                assert forall|x: int, y: int|
                    0 <= x < m.spaces.len() && 0 <= y < m.spaces.len() && x != y implies disjoint(
                    #[trigger] m.spaces[x].tiles,
                    #[trigger] m.spaces[y].tiles,
                ) by {
                    assert(old_m.spaces[x].tiles == m.spaces[x].tiles);
                    assert(old_m.spaces[y].tiles == m.spaces[y].tiles);
                }
            }
        }
        true
    }
}

/// What a clean-up of dead windows changed.
#[derive(Debug, Clone, Copy, PartialEq, Eq, Structural)]
pub enum Cleanup {
    /// No tile was dead: nothing changed.
    Unchanged,
    /// Dead tiles were removed and the active workspace lost its focus, so
    /// its last remaining tile (if any) was focused.
    Refocused,
    /// Dead tiles were removed; the active focus survived.
    Kept,
}

/// The tiles whose window is not dead, order kept.
pub open spec fn alive_tiles(tiles: Seq<Tile>, dead: Seq<u64>) -> Seq<Tile>
    decreases tiles.len(),
{
    if tiles.len() == 0 {
        tiles
    } else if dead.contains(tiles.last().window) {
        alive_tiles(tiles.drop_last(), dead)
    } else {
        alive_tiles(tiles.drop_last(), dead).push(tiles.last())
    }
}

/// A workspace without its dead windows; a dead focus is forgotten.
pub open spec fn without_dead(w: WsModel, dead: Seq<u64>) -> WsModel {
    WsModel {
        tiles: alive_tiles(w.tiles, dead),
        focused: if w.focused is Some && dead.contains(w.focused->0) {
            None
        } else {
            w.focused
        },
    }
}

/// Some workspace holds a dead window.
pub open spec fn any_dead(m: WmModel, dead: Seq<u64>) -> bool {
    exists|w: int, i: int|
        0 <= w < m.spaces.len() && 0 <= i < m.spaces[w].tiles.len() && dead.contains(
            (#[trigger] m.spaces[w].tiles[i]).window,
        )
}

/// Every workspace without its dead windows.
pub open spec fn spaces_without_dead(m: WmModel, dead: Seq<u64>) -> Seq<WsModel> {
    m.spaces.map_values(|w: WsModel| without_dead(w, dead))
}

/// The last tile's window, if any.
pub open spec fn last_window(tiles: Seq<Tile>) -> Option<u64> {
    if tiles.len() > 0 {
        Some(tiles.last().window)
    } else {
        None
    }
}

/// The effective size of a window for placement: its geometry, or 640x480
/// while it has none.
pub open spec fn float_size(w: int, h: int) -> (int, int) {
    if w <= 0 || h <= 0 {
        (640, 480)
    } else {
        (w, h)
    }
}

/// Where a window toggled to floating goes: centred under the pointer,
/// kept right of and below the outer gap.
pub open spec fn toggle_loc(px: int, py: int, w: int, h: int, outer_gap: int) -> (int, int) {
    let ew = if w > 0 {
        w
    } else {
        640
    };
    let eh = if h > 0 {
        h
    } else {
        480
    };
    (max_int(px - ew / 2, outer_gap), max_int(py - eh / 2, outer_gap))
}

proof fn lemma_alive_tiles(tiles: Seq<Tile>, dead: Seq<u64>, id: u64)
    ensures
        has_window(alive_tiles(tiles, dead), id) <==> (has_window(tiles, id) && !dead.contains(
            id,
        )),
        distinct_windows(tiles) ==> distinct_windows(alive_tiles(tiles, dead)),
        alive_tiles(tiles, dead).len() <= tiles.len(),
    decreases tiles.len(),
{
    if tiles.len() > 0 {
        let d = tiles.drop_last();
        let x = tiles.last();
        lemma_alive_tiles(d, dead, id);
        lemma_alive_tiles(d, dead, x.window);
        lemma_push_tiles(d, x, id);
        assert(tiles == d.push(x));
        if distinct_windows(tiles) {
            assert(distinct_windows(d)) by {
                assert forall|i: int, j: int| 0 <= i < j < d.len() implies (#[trigger] d[i]).window
                    != (#[trigger] d[j]).window by {
                    assert(d[i] == tiles[i]);
                    assert(d[j] == tiles[j]);
                }
            }
            assert(!has_window(d, x.window)) by {
                if has_window(d, x.window) {
                    let k = choose|k: int| 0 <= k < d.len() && (#[trigger] d[k]).window == x.window;
                    assert(tiles[k] == d[k]);
                    assert(tiles[tiles.len() - 1] == x);
                }
            }
        }
        if !dead.contains(x.window) {
            lemma_push_tiles(alive_tiles(d, dead), x, id);
        }
    }
}

/// Replacing one workspace by a consistent one holding no window it did
/// not hold keeps the invariant.
proof fn lemma_replace_ws(m: WmModel, w: int, nw: WsModel)
    requires
        wm_ok(m),
        0 <= w < m.spaces.len(),
        ws_ok(nw),
        forall|id: u64| has_window(nw.tiles, id) ==> has_window(m.spaces[w].tiles, id),
    ensures
        wm_ok(WmModel { spaces: m.spaces.update(w, nw), active: m.active }),
{
    let s2 = m.spaces.update(w, nw);
    assert forall|x: int, y: int|
        0 <= x < s2.len() && 0 <= y < s2.len() && x != y implies disjoint(
        #[trigger] s2[x].tiles,
        #[trigger] s2[y].tiles,
    ) by {
        assert(disjoint(m.spaces[x].tiles, m.spaces[y].tiles));
        if x == w {
            assert forall|i: int| 0 <= i < nw.tiles.len() implies !has_window(
                s2[y].tiles,
                (#[trigger] nw.tiles[i]).window,
            ) by {
                let id = nw.tiles[i].window;
                assert(has_window(nw.tiles, id));
                assert(has_window(m.spaces[w].tiles, id));
                let k = choose|k: int|
                    0 <= k < m.spaces[w].tiles.len() && (#[trigger] m.spaces[w].tiles[k]).window
                        == id;
                assert(!has_window(m.spaces[y].tiles, m.spaces[w].tiles[k].window));
            }
        } else if y == w {
            assert forall|i: int| 0 <= i < s2[x].tiles.len() implies !has_window(
                nw.tiles,
                (#[trigger] s2[x].tiles[i]).window,
            ) by {
                let id = s2[x].tiles[i].window;
                assert(!has_window(m.spaces[w].tiles, m.spaces[x].tiles[i].window));
            }
        }
    }
    assert forall|v: int| 0 <= v < s2.len() implies ws_ok(#[trigger] s2[v]) by {
        if v != w {
            assert(s2[v] == m.spaces[v]);
        }
    }
}

/// Two tile lists are disjoint when no window of the first is in the second.
proof fn lemma_disjoint_intro(a: Seq<Tile>, b: Seq<Tile>)
    requires
        forall|id: u64| has_window(a, id) ==> !has_window(b, id),
    ensures
        disjoint(a, b),
{
    assert forall|i: int| 0 <= i < a.len() implies !has_window(b, (#[trigger] a[i]).window) by {
        assert(has_window(a, a[i].window));
    }
}

/// A window of one list is absent from a list disjoint from it.
proof fn lemma_disjoint_elim(a: Seq<Tile>, b: Seq<Tile>, id: u64)
    requires
        disjoint(a, b),
        has_window(a, id),
    ensures
        !has_window(b, id),
{
    let k = choose|k: int| 0 <= k < a.len() && (#[trigger] a[k]).window == id;
    assert(!has_window(b, a[k].window));
}

/// The invariant from its parts, with disjointness stated over windows.
proof fn lemma_wm_ok_intro(m: WmModel)
    requires
        m.spaces.len() == WORKSPACE_COUNT,
        m.active < WORKSPACE_COUNT,
        forall|w: int| 0 <= w < m.spaces.len() ==> ws_ok(#[trigger] m.spaces[w]),
        forall|x: int, y: int, id: u64|
            0 <= x < m.spaces.len() && 0 <= y < m.spaces.len() && x != y && #[trigger] has_window(
                m.spaces[x].tiles,
                id,
            ) ==> !#[trigger] has_window(m.spaces[y].tiles, id),
    ensures
        wm_ok(m),
{
    assert forall|x: int, y: int|
        0 <= x < m.spaces.len() && 0 <= y < m.spaces.len() && x != y implies disjoint(
        #[trigger] m.spaces[x].tiles,
        #[trigger] m.spaces[y].tiles,
    ) by {
        assert forall|id: u64| has_window(m.spaces[x].tiles, id) implies !has_window(
            m.spaces[y].tiles,
            id,
        ) by {}
        lemma_disjoint_intro(m.spaces[x].tiles, m.spaces[y].tiles);
    }
}

/// Under the invariant, a window lives on one workspace only.
proof fn lemma_wm_ok_elim(m: WmModel, x: int, y: int, id: u64)
    requires
        wm_ok(m),
        0 <= x < m.spaces.len(),
        0 <= y < m.spaces.len(),
        x != y,
        has_window(m.spaces[x].tiles, id),
    ensures
        !has_window(m.spaces[y].tiles, id),
{
    lemma_disjoint_elim(m.spaces[x].tiles, m.spaces[y].tiles, id);
}

/// The last tile's window is among the tiles.
proof fn lemma_last_present(tiles: Seq<Tile>)
    requires
        tiles.len() > 0,
    ensures
        has_window(tiles, tiles.last().window),
{
    assert(tiles[tiles.len() - 1] == tiles.last());
}

/// The workspaces after moving the focused window of the active workspace to
/// workspace `idx`: it leaves the active workspace, joins the end of the
/// target as a fresh tiled tile, and neither workspace keeps a focus.
pub open spec fn moved_spaces(m: WmModel, idx: int) -> Seq<WsModel> {
    let a = m.active as int;
    let f = active_ws(m).focused->0;
    let src = active_ws(m).tiles;
    m.spaces.update(a, WsModel { tiles: src.remove(index_of(src, f)), focused: None }).update(
        idx,
        WsModel { tiles: m.spaces[idx].tiles.push(new_tile(f)), focused: None },
    )
}

proof fn lemma_move_ok(m: WmModel, idx: int)
    requires
        wm_ok(m),
        0 <= idx < WORKSPACE_COUNT,
        idx != m.active,
        active_ws(m).focused is Some,
    ensures
        wm_ok(WmModel { spaces: moved_spaces(m, idx), active: m.active }),
        forall|id: u64| managed(WmModel { spaces: moved_spaces(m, idx), active: m.active }, id) <==> managed(m, id),
{
    let a = m.active as int;
    let f = active_ws(m).focused->0;
    let src = active_ws(m).tiles;
    let dst = m.spaces[idx].tiles;
    let p = index_of(src, f);
    let s2 = moved_spaces(m, idx);
    let m2 = WmModel { spaces: s2, active: m.active };
    assert(ws_ok(m.spaces[a]));
    lemma_index_of(src, f);
    lemma_wm_ok_elim(m, a, idx, f);
    assert(s2[a].tiles == src.remove(p));
    assert(s2[idx].tiles == dst.push(new_tile(f)));
    assert forall|id: u64| #![all_triggers]
        (has_window(s2[a].tiles, id) <==> (has_window(src, id) && id != f)) && (has_window(
            s2[idx].tiles,
            id,
        ) <==> (has_window(dst, id) || id == f)) by {
        lemma_remove_tiles(src, p, id);
        lemma_push_tiles(dst, new_tile(f), id);
    }
    lemma_push_tiles(dst, new_tile(f), f);
    assert forall|w: int| 0 <= w < s2.len() implies ws_ok(#[trigger] s2[w]) by {
        if w != a && w != idx {
            assert(s2[w] == m.spaces[w]);
        }
    }
    assert forall|x: int, y: int, id: u64|
        0 <= x < s2.len() && 0 <= y < s2.len() && x != y && #[trigger] has_window(
            s2[x].tiles,
            id,
        ) implies !#[trigger] has_window(s2[y].tiles, id) by {
        if x != a && x != idx {
            assert(s2[x] == m.spaces[x]);
        }
        if y != a && y != idx {
            assert(s2[y] == m.spaces[y]);
        }
        if has_window(m.spaces[x].tiles, id) && x != a && x != idx {
            lemma_wm_ok_elim(m, x, y, id);
            lemma_wm_ok_elim(m, x, a, id);
        }
        if x == a {
            lemma_wm_ok_elim(m, a, y, id);
        }
        if x == idx && id != f {
            lemma_wm_ok_elim(m, idx, y, id);
        }
        if x == idx && id == f && y != a {
            lemma_wm_ok_elim(m, a, y, f);
        }
    }
    lemma_wm_ok_intro(m2);
    assert forall|id: u64| managed(m2, id) <==> managed(m, id) by {
        if managed(m, id) {
            let w = choose|w: int| 0 <= w < m.spaces.len() && has_window(#[trigger] m.spaces[w].tiles, id);
            if w == a {
                if id == f {
                    assert(has_window(s2[idx].tiles, id));
                } else {
                    assert(has_window(s2[a].tiles, id));
                }
            } else if w == idx {
                assert(has_window(s2[idx].tiles, id));
            } else {
                assert(s2[w] == m.spaces[w]);
                assert(has_window(s2[w].tiles, id));
            }
        }
        if managed(m2, id) {
            let w = choose|w: int| 0 <= w < s2.len() && has_window(#[trigger] s2[w].tiles, id);
            if w == a {
                assert(has_window(m.spaces[a].tiles, id));
            } else if w == idx {
                if id == f {
                    assert(has_window(m.spaces[a].tiles, id));
                } else {
                    assert(has_window(m.spaces[idx].tiles, id));
                }
            } else {
                assert(s2[w] == m.spaces[w]);
                assert(has_window(m.spaces[w].tiles, id));
            }
        }
    }
}

/// The active workspace after the focused window flips between tiled and
/// floating. Becoming a float, it is placed by [`toggle_loc`] from the
/// pointer and its size; becoming tiled again, it goes to the end of the
/// tiling order (its stored float position is kept).
pub open spec fn toggled_ws(m: WmModel, px: int, py: int, w: int, h: int, outer_gap: int) -> WsModel {
    let f = active_ws(m).focused->0;
    let src = active_ws(m).tiles;
    let p = index_of(src, f);
    let t = src[p];
    if !t.floating {
        let loc = toggle_loc(px, py, w, h, outer_gap);
        WsModel {
            tiles: src.update(
                p,
                Tile { window: f, floating: true, float_loc: Some(Point { x: loc.0 as i32, y: loc.1 as i32 }) },
            ),
            focused: Some(f),
        }
    } else {
        WsModel {
            tiles: src.remove(p).push(Tile { window: f, floating: false, float_loc: t.float_loc }),
            focused: Some(f),
        }
    }
}

/// A workspace after a floating window `id` on it was dragged to `loc`:
/// the stored position of that float is `loc`; anything else is unchanged.
pub open spec fn float_moved(w: WsModel, id: u64, loc: Point) -> WsModel {
    let p = index_of(w.tiles, id);
    if has_window(w.tiles, id) && w.tiles[p].floating {
        WsModel {
            tiles: w.tiles.update(p, Tile { window: id, floating: true, float_loc: Some(loc) }),
            focused: w.focused,
        }
    } else {
        w
    }
}

/// The active workspace after tiled window `id` on it became a float at
/// `loc`.
pub open spec fn floated_at(w: WsModel, id: u64, loc: Point) -> WsModel {
    WsModel {
        tiles: w.tiles.update(
            index_of(w.tiles, id),
            Tile { window: id, floating: true, float_loc: Some(loc) },
        ),
        focused: w.focused,
    }
}

/// Rewriting one workspace whose window set stays the same (and which stays
/// consistent) keeps the invariant and the set of managed windows.
proof fn lemma_same_windows(m: WmModel, w: int, nw: WsModel)
    requires
        wm_ok(m),
        0 <= w < m.spaces.len(),
        ws_ok(nw),
        forall|id: u64| has_window(nw.tiles, id) <==> has_window(m.spaces[w].tiles, id),
    ensures
        wm_ok(WmModel { spaces: m.spaces.update(w, nw), active: m.active }),
        forall|id: u64|
            managed(WmModel { spaces: m.spaces.update(w, nw), active: m.active }, id) <==> managed(
                m,
                id,
            ),
{
    lemma_replace_ws(m, w, nw);
    let m2 = WmModel { spaces: m.spaces.update(w, nw), active: m.active };
    assert forall|id: u64| managed(m2, id) <==> managed(m, id) by {
        if managed(m, id) {
            let v = choose|v: int| 0 <= v < m.spaces.len() && has_window(#[trigger] m.spaces[v].tiles, id);
            assert(has_window(m2.spaces[v].tiles, id));
        }
        if managed(m2, id) {
            let v = choose|v: int| 0 <= v < m2.spaces.len() && has_window(#[trigger] m2.spaces[v].tiles, id);
            assert(has_window(m.spaces[v].tiles, id));
        }
    }
}

proof fn lemma_toggle_ok(m: WmModel, px: int, py: int, w: int, h: int, outer_gap: int)
    requires
        wm_ok(m),
        active_ws(m).focused is Some,
    ensures
        ws_ok(toggled_ws(m, px, py, w, h, outer_gap)),
        forall|id: u64|
            has_window(toggled_ws(m, px, py, w, h, outer_gap).tiles, id) <==> has_window(
                active_ws(m).tiles,
                id,
            ),
{
    let f = active_ws(m).focused->0;
    let src = active_ws(m).tiles;
    let p = index_of(src, f);
    let t = src[p];
    let nw = toggled_ws(m, px, py, w, h, outer_gap);
    assert(ws_ok(m.spaces[m.active as int]));
    lemma_index_of(src, f);
    if !t.floating {
        let loc = toggle_loc(px, py, w, h, outer_gap);
        let nt = Tile { window: f, floating: true, float_loc: Some(Point { x: loc.0 as i32, y: loc.1 as i32 }) };
        assert forall|id: u64| has_window(nw.tiles, id) <==> has_window(src, id) by {
            lemma_update_tiles(src, p, nt, id);
        }
        lemma_update_tiles(src, p, nt, f);
    } else {
        let nt = Tile { window: f, floating: false, float_loc: t.float_loc };
        let r = src.remove(p);
        lemma_remove_tiles(src, p, f);
        assert forall|id: u64| has_window(nw.tiles, id) <==> has_window(src, id) by {
            lemma_remove_tiles(src, p, id);
            lemma_push_tiles(r, nt, id);
        }
        lemma_push_tiles(r, nt, f);
    }
}

/// The tile list holds a tile of a dead window.
pub open spec fn has_dead(tiles: Seq<Tile>, dead: Seq<u64>) -> bool {
    exists|i: int| 0 <= i < tiles.len() && dead.contains((#[trigger] tiles[i]).window)
}

proof fn lemma_alive_none(tiles: Seq<Tile>, dead: Seq<u64>)
    requires
        !has_dead(tiles, dead),
    ensures
        alive_tiles(tiles, dead) == tiles,
    decreases tiles.len(),
{
    if tiles.len() > 0 {
        let d = tiles.drop_last();
        assert(!has_dead(d, dead)) by {
            if has_dead(d, dead) {
                let k = choose|k: int| 0 <= k < d.len() && dead.contains((#[trigger] d[k]).window);
                assert(tiles[k] == d[k]);
            }
        }
        lemma_alive_none(d, dead);
        assert(tiles[tiles.len() - 1] == tiles.last());
        assert(d.push(tiles.last()) =~= tiles);
    }
}

/// The whole manager after dead windows are dropped everywhere; when the
/// active workspace is left without focus, its last tile is focused.
pub open spec fn cleaned_spaces(m: WmModel, dead: Seq<u64>) -> Seq<WsModel> {
    let s = spaces_without_dead(m, dead);
    let a = m.active as int;
    if s[a].focused is None {
        s.update(a, WsModel { tiles: s[a].tiles, focused: last_window(s[a].tiles) })
    } else {
        s
    }
}

proof fn lemma_without_dead_ws(w: WsModel, dead: Seq<u64>, id: u64)
    requires
        ws_ok(w),
    ensures
        ws_ok(without_dead(w, dead)),
        has_window(without_dead(w, dead).tiles, id) <==> (has_window(w.tiles, id) && !dead.contains(id)),
        !has_dead(w.tiles, dead) ==> without_dead(w, dead) == w,
{
    lemma_alive_tiles(w.tiles, dead, id);
    if let Some(f) = w.focused {
        lemma_alive_tiles(w.tiles, dead, f);
    }
    if !has_dead(w.tiles, dead) {
        lemma_alive_none(w.tiles, dead);
        if let Some(f) = w.focused {
            let k = choose|k: int| 0 <= k < w.tiles.len() && (#[trigger] w.tiles[k]).window == f;
            assert(!dead.contains(w.tiles[k].window));
        }
    }
}

/// Whether `id` is in `ids`.
fn contains_id(ids: &Vec<u64>, id: u64) -> (r: bool)
    ensures
        r == ids@.contains(id),
{
    let mut i: usize = 0;
    while i < ids.len()
        invariant
            i <= ids@.len(),
            forall|j: int| 0 <= j < i ==> ids@[j] != id,
        decreases ids.len() - i,
    {
        if ids[i] == id {
            assert(ids@[i as int] == id);
            return true;
        }
        i = i + 1;
    }
    false
}

/// The tiles whose window is not dead, and whether any was dead.
fn retain_alive(tiles: &Vec<Tile>, dead: &Vec<u64>) -> (r: (Vec<Tile>, bool))
    ensures
        r.0@ == alive_tiles(tiles@, dead@),
        r.1 == has_dead(tiles@, dead@),
{
    let mut out: Vec<Tile> = Vec::new();
    let mut any = false;
    let mut i: usize = 0;
    while i < tiles.len()
        invariant
            i <= tiles@.len(),
            out@ == alive_tiles(tiles@.take(i as int), dead@),
            any == has_dead(tiles@.take(i as int), dead@),
        decreases tiles.len() - i,
    {
        let t = tiles[i];
        let ghost pre = tiles@.take(i as int);
        let ghost next = tiles@.take(i as int + 1);
        proof {
            assert(next.drop_last() =~= pre);
            assert(next.last() == t);
        }
        let d = contains_id(dead, t.window);
        if d {
            any = true;
            assert(next[i as int] == t);
        } else {
            out.push(t);
        }
        proof {
            if has_dead(next, dead@) && !d {
                let k = choose|k: int| 0 <= k < next.len() && dead@.contains((#[trigger] next[k]).window);
                assert(next[k] == pre[k]);
            }
            if has_dead(pre, dead@) {
                let k = choose|k: int| 0 <= k < pre.len() && dead@.contains((#[trigger] pre[k]).window);
                assert(next[k] == pre[k]);
            }
        }
        i = i + 1;
    }
    assert(tiles@.take(i as int) =~= tiles@);
    (out, any)
}

/// Where one tile of the active workspace goes on screen.
#[derive(Debug, Clone, Copy, PartialEq, Eq, Structural)]
pub enum Placement {
    /// A tiled window: mapped at `loc`, asked to take the size `w` x `h`.
    Tiled { window: u64, loc: Point, w: i32, h: i32 },
    /// A float: mapped at its stored position; its size is its own.
    Floating { window: u64, loc: Point },
}

/// The area left for windows on an output: inside the outer gap and below
/// the bar, its extent clamped at zero.
pub open spec fn usable_area(output: RectModel, outer_gap: int, bar_reserve: int) -> RectModel {
    RectModel {
        x: output.x + outer_gap,
        y: output.y + outer_gap + bar_reserve,
        w: max_int(output.w - 2 * outer_gap, 0),
        h: max_int(output.h - 2 * outer_gap - bar_reserve, 0),
    }
}

/// How many of the tiles are tiled (not floating).
pub open spec fn tiled_count(tiles: Seq<Tile>) -> nat
    decreases tiles.len(),
{
    if tiles.len() == 0 {
        0
    } else {
        tiled_count(tiles.drop_last()) + if tiles.last().floating {
            0nat
        } else {
            1nat
        }
    }
}

/// Where a float without a stored position is first placed: centred in
/// the usable area (flush with its top-left corner when it does not fit).
pub open spec fn default_float_loc(usable: RectModel, w: int, h: int) -> Point {
    let (ew, eh) = float_size(w, h);
    Point {
        x: (usable.x + max_int(usable.w - ew, 0) / 2) as i32,
        y: (usable.y + max_int(usable.h - eh, 0) / 2) as i32,
    }
}

/// A tile after arranging: a float without a stored position gets its
/// default one; every other tile is unchanged.
pub open spec fn placed_tile(t: Tile, usable: RectModel, size: (i32, i32)) -> Tile {
    if t.floating && t.float_loc is None {
        Tile {
            window: t.window,
            floating: true,
            float_loc: Some(default_float_loc(usable, size.0 as int, size.1 as int)),
        }
    } else {
        t
    }
}

/// All tiles after arranging.
pub open spec fn placed_tiles(tiles: Seq<Tile>, sizes: Seq<(i32, i32)>, usable: RectModel) -> Seq<
    Tile,
> {
    Seq::new(tiles.len(), |i: int| placed_tile(tiles[i], usable, sizes[i]))
}

/// The placement of a tiled window in layout slot `r`: the slot shrunk by
/// the border width, its size at least 1x1.
pub open spec fn tiled_placement(window: u64, r: RectModel, border: int) -> Placement {
    let inner = shrink_model(r, border);
    Placement::Tiled {
        window,
        loc: Point { x: inner.x as i32, y: inner.y as i32 },
        w: max_int(inner.w, 1) as i32,
        h: max_int(inner.h, 1) as i32,
    }
}

/// Placements of the first `n` tiles, in tile order: floats at their
/// (possibly new default) stored position, tiled windows in the layout
/// slots in order; a tiled window left without a slot is not placed.
pub open spec fn placements(
    tiles: Seq<Tile>,
    sizes: Seq<(i32, i32)>,
    usable: RectModel,
    slots: Seq<RectModel>,
    border: int,
    n: int,
) -> Seq<Placement>
    decreases n,
{
    if n <= 0 {
        Seq::empty()
    } else {
        let prev = placements(tiles, sizes, usable, slots, border, n - 1);
        let t = tiles[n - 1];
        if t.floating {
            prev.push(
                Placement::Floating {
                    window: t.window,
                    loc: placed_tile(t, usable, sizes[n - 1]).float_loc->0,
                },
            )
        } else {
            let k = tiled_count(tiles.take(n - 1)) as int;
            if k < slots.len() {
                prev.push(tiled_placement(t.window, slots[k], border))
            } else {
                prev
            }
        }
    }
}

/// Every machine operation of shrinking `r` by `border` stays in range.
pub open spec fn shrink_fits(r: RectModel, border: int) -> bool {
    &&& fits_i32(r.x + border)
    &&& fits_i32(r.y + border)
    &&& fits_i32(2 * border)
    &&& fits_i32(r.w - 2 * border)
    &&& fits_i32(r.h - 2 * border)
}

/// Every machine operation of arranging `count` tiled windows on `output`
/// stays in range: the usable area and its edges, the dwindling split, and
/// the border shrink of every slot.
pub open spec fn arrange_fits(output: RectModel, m: LayoutMetrics, bar_reserve: int, count: nat) -> bool {
    let u = usable_area(output, m.outer_gap as int, bar_reserve);
    &&& fits_i32(u.x)
    &&& fits_i32(u.y)
    &&& fits_i32(output.w - 2 * m.outer_gap)
    &&& fits_i32(output.h - 2 * m.outer_gap - bar_reserve)
    &&& fits_i32(right_of(u))
    &&& fits_i32(bottom_of(u))
    &&& dwindle_fits(u, count, m.inner_gap as int)
    &&& forall|i: int|
        0 <= i < spec_dwindle(u, count, m.inner_gap as int).len() ==> shrink_fits(
            #[trigger] spec_dwindle(u, count, m.inner_gap as int)[i],
            m.border_width as int,
        )
}

/// Tile lists with the same window at every position hold the same windows.
proof fn lemma_same_ids(a: Seq<Tile>, b: Seq<Tile>)
    requires
        a.len() == b.len(),
        forall|i: int| 0 <= i < a.len() ==> (#[trigger] a[i]).window == b[i].window,
    ensures
        forall|id: u64| has_window(a, id) <==> has_window(b, id),
        distinct_windows(a) ==> distinct_windows(b),
{
    assert forall|id: u64| has_window(a, id) <==> has_window(b, id) by {
        if has_window(a, id) {
            let k = choose|k: int| 0 <= k < a.len() && (#[trigger] a[k]).window == id;
            assert(b[k].window == id);
        }
        if has_window(b, id) {
            let k = choose|k: int| 0 <= k < b.len() && (#[trigger] b[k]).window == id;
            assert(a[k].window == id);
        }
    }
    if distinct_windows(a) {
        assert forall|i: int, j: int| 0 <= i < j < b.len() implies (#[trigger] b[i]).window
            != (#[trigger] b[j]).window by {
            assert(a[i].window != a[j].window);
        }
    }
}

/// Snapshot of one managed window for IPC clients (the compositor adds the
/// surface's address, title and class).
#[derive(Debug, Clone, Copy, PartialEq, Eq, Structural)]
pub struct WindowEntry {
    pub window: u64,
    pub floating: bool,
    /// 0-based workspace index.
    pub workspace: usize,
    /// On the visible workspace.
    pub mapped: bool,
    /// The focused window of its workspace.
    pub focused: bool,
}

/// The entry of tile `t` on workspace `w`.
pub open spec fn entry_of(m: WmModel, w: int, t: Tile) -> WindowEntry {
    WindowEntry {
        window: t.window,
        floating: t.floating,
        workspace: w as usize,
        mapped: w == m.active,
        focused: m.spaces[w].focused == Some(t.window),
    }
}

/// Entries of the tiles of workspace `w`, in tile order.
pub open spec fn ws_entries(m: WmModel, w: int) -> Seq<WindowEntry> {
    m.spaces[w].tiles.map_values(|t: Tile| entry_of(m, w, t))
}

/// Entries of the first `n` workspaces, workspace by workspace.
pub open spec fn entries_upto(m: WmModel, n: int) -> Seq<WindowEntry>
    decreases n,
{
    if n <= 0 {
        Seq::empty()
    } else {
        entries_upto(m, n - 1) + ws_entries(m, n - 1)
    }
}

/// Whether a committed window size calls for a re-arrange: `None` when it
/// equals the last recorded size; otherwise `Some(first_map)`, where
/// `first_map` tells that the window goes from unmapped (no size recorded,
/// or an empty one) to a non-empty size.
pub open spec fn spec_commit_resize(last: Option<(i32, i32)>, size: (i32, i32)) -> Option<bool> {
    if last == Some(size) {
        None
    } else {
        let was_unmapped = match last {
            None => true,
            Some((w, h)) => w == 0 || h == 0,
        };
        Some(was_unmapped && !(size.0 == 0 || size.1 == 0))
    }
}

/// Law: a commit re-arranges exactly when the window's size differs from
/// the last recorded one in width or in height (or none was recorded), and
/// it counts as the window's first map exactly when it was unmapped before
/// (nothing recorded, or a zero extent) and now has both extents non-zero.
pub proof fn lemma_commit_resize_reacts_to_any_change(last: Option<(i32, i32)>, size: (i32, i32))
    ensures
        spec_commit_resize(last, size) is None <==> (last matches Some(l) && l.0 == size.0 && l.1
            == size.1),
        spec_commit_resize(last, size) matches Some(first_map) ==> (first_map <==> ((last matches Some(
            l,
        ) ==> l.0 == 0 || l.1 == 0) && size.0 != 0 && size.1 != 0)),
{
}

/// Decides what a commit of a window with geometry `size` means, given the
/// size last recorded for it (see [`spec_commit_resize`]).
pub fn commit_resize(last: Option<(i32, i32)>, size: (i32, i32)) -> (r: Option<bool>)
    ensures
        r == spec_commit_resize(last, size),
        r is None <==> (last matches Some(l) && l.0 == size.0 && l.1 == size.1),
        r matches Some(first_map) ==> (first_map <==> ((last matches Some(l) ==> l.0 == 0 || l.1
            == 0) && size.0 != 0 && size.1 != 0)),
{
    proof {
        lemma_commit_resize_reacts_to_any_change(last, size);
    }
    let was_unmapped = match last {
        None => true,
        Some((w, h)) => {
            if w == size.0 && h == size.1 {
                return None;
            }
            w == 0 || h == 0
        },
    };
    Some(was_unmapped && !(size.0 == 0 || size.1 == 0))
}

/// Whether every machine operation of arranging `count` tiled windows on
/// `output` stays in range (see [`arrange_fits`]): the check to make before
/// [`Workspaces::arrange`].
pub fn arrange_in_range(output: Rect, metrics: LayoutMetrics, bar_reserve: i32, count: usize) -> (r: bool)
    ensures
        r == arrange_fits(output@, metrics, bar_reserve as int, count as nat),
{
    let og = metrics.outer_gap as i64;
    let ux: i64 = output.x as i64 + og;
    let uy: i64 = output.y as i64 + og + bar_reserve as i64;
    let uw: i64 = output.w as i64 - 2 * og;
    let uh: i64 = output.h as i64 - 2 * og - bar_reserve as i64;
    let lo = i32::MIN as i64;
    let hi = i32::MAX as i64;
    if !(lo <= ux && ux <= hi && lo <= uy && uy <= hi && lo <= uw && uw <= hi && lo <= uh && uh
        <= hi) {
        return false;
    }
    let w: i64 = if uw >= 0 {
        uw
    } else {
        0
    };
    let h: i64 = if uh >= 0 {
        uh
    } else {
        0
    };
    if !(ux + w <= hi && uy + h <= hi) {
        return false;
    }
    let usable = Rect::new(ux as i32, uy as i32, w as i32, h as i32);
    let ghost u = usable_area(output@, metrics.outer_gap as int, bar_reserve as int);
    assert(usable@ == u);
    if !dwindle_in_range(usable, count, metrics.inner_gap) {
        return false;
    }
    let slots = dwindle(usable, count, metrics.inner_gap);
    let ghost sm = spec_dwindle(u, count as nat, metrics.inner_gap as int);
    let bw = metrics.border_width as i64;
    assert(arrange_fits(output@, metrics, bar_reserve as int, count as nat) <==> (forall|j: int|
        0 <= j < sm.len() ==> shrink_fits(#[trigger] sm[j], metrics.border_width as int)));
    let mut i: usize = 0;
    while i < slots.len()
        invariant
            i <= slots@.len(),
            rect_models(slots@) == sm,
            bw == metrics.border_width,
            lo == i32::MIN,
            hi == i32::MAX,
            arrange_fits(output@, metrics, bar_reserve as int, count as nat) <==> (forall|j: int|
                0 <= j < sm.len() ==> shrink_fits(#[trigger] sm[j], metrics.border_width as int)),
            forall|j: int| 0 <= j < i ==> shrink_fits(#[trigger] sm[j], metrics.border_width as int),
        decreases slots.len() - i,
    {
        let r = slots[i];
        assert(r@ == sm[i as int]);
        let x = r.x as i64 + bw;
        let y = r.y as i64 + bw;
        let tw = 2 * bw;
        let sw = r.w as i64 - tw;
        let sh = r.h as i64 - tw;
        if !(lo <= x && x <= hi && lo <= y && y <= hi && lo <= tw && tw <= hi && lo <= sw && sw
            <= hi && lo <= sh && sh <= hi) {
            assert(!shrink_fits(sm[i as int], metrics.border_width as int));
            return false;
        }
        assert(shrink_fits(sm[i as int], metrics.border_width as int));
        i = i + 1;
    }
    true
}

fn new_tile_exec(id: u64) -> (t: Tile)
    ensures
        t == new_tile(id),
{
    Tile { window: id, floating: false, float_loc: None }
}

proof fn lemma_add_keeps_ok(m: WmModel, id: u64)
    requires
        wm_ok(m),
        !managed(m, id),
    ensures
        wm_ok(
            WmModel {
                spaces: m.spaces.update(
                    m.active as int,
                    WsModel { tiles: active_ws(m).tiles.push(new_tile(id)), focused: Some(id) },
                ),
                active: m.active,
            },
        ),
{
    let a = m.active as int;
    let old_t = m.spaces[a].tiles;
    let t2 = old_t.push(new_tile(id));
    let s2 = m.spaces.update(a, WsModel { tiles: t2, focused: Some(id) });
    assert(!has_window(old_t, id)) by {
        if has_window(old_t, id) {
            assert(has_window(m.spaces[a].tiles, id));
        }
    }
    lemma_push_tiles(old_t, new_tile(id), id);
    assert forall|w: int| 0 <= w < s2.len() implies ws_ok(#[trigger] s2[w]) by {
        if w == a {
            lemma_push_tiles(old_t, new_tile(id), id);
            if let Some(f) = m.spaces[a].focused {
                lemma_push_tiles(old_t, new_tile(id), f);
            }
        }
    }
    assert forall|x: int, y: int|
        0 <= x < s2.len() && 0 <= y < s2.len() && x != y implies disjoint(
        #[trigger] s2[x].tiles,
        #[trigger] s2[y].tiles,
    ) by {
        if x == a {
            assert forall|i: int| 0 <= i < t2.len() implies !has_window(
                s2[y].tiles,
                (#[trigger] t2[i]).window,
            ) by {
                if i < old_t.len() {
                    assert(t2[i] == old_t[i]);
                    assert(disjoint(m.spaces[a].tiles, m.spaces[y].tiles));
                } else {
                    assert(!has_window(m.spaces[y].tiles, id));
                }
            }
        } else if y == a {
            assert forall|i: int| 0 <= i < s2[x].tiles.len() implies !has_window(
                t2,
                (#[trigger] s2[x].tiles[i]).window,
            ) by {
                let wid = s2[x].tiles[i].window;
                assert(disjoint(m.spaces[x].tiles, m.spaces[a].tiles));
                lemma_push_tiles(old_t, new_tile(id), wid);
                if wid == id {
                    assert(has_window(m.spaces[x].tiles, id));
                }
            }
        } else {
            assert(disjoint(m.spaces[x].tiles, m.spaces[y].tiles));
        }
    }
}

} // verus!
