//! The built-in status bar: workspaces on the left, the focused window's
//! title centred, a clock on the right. This module decides what is shown
//! and where; the compositor measures and draws the text.
use vstd::prelude::*;

use crate::fmt::{decimal, decimal_i64};
use crate::layout::{fits_i32, half_gap, max_int};
use crate::text::{chars_of, concat_str, string_of};
use crate::wm::{active_ws, Workspaces, WORKSPACE_COUNT};

verus! {

/// Padding at the bar's left and right ends.
pub const BAR_PAD: i32 = 10;

/// Space between two workspace labels.
pub const WS_GAP: i32 = 10;

/// Snapshot of what the bar should display this frame.
#[derive(Debug, Clone)]
pub struct BarInfo {
    pub active_workspace: usize,
    pub title: Option<String>,
}

impl BarInfo {
    /// Display info from the window manager: the visible workspace, and
    /// the focused window's title (`title` is the one its client set, if
    /// any; a focused window without one shows an empty title).
    pub fn from_state(ws: &Workspaces, title: Option<String>) -> (r: Self)
        requires
            ws.wf(),
        ensures
            r.active_workspace == ws@.active,
            active_ws(ws@).focused is None ==> r.title is None,
            active_ws(ws@).focused is Some ==> (r.title matches Some(t) && t@ == match title {
                Some(s) => s@,
                None => Seq::<char>::empty(),
            }),
    {
        let t = match ws.focused_window() {
            None => None,
            Some(_) => match title {
                Some(s) => Some(s),
                None => Some(String::new()),
            },
        };
        BarInfo { active_workspace: ws.active_workspace(), title: t }
    }
}

/// The label of workspace `i` (0-based): its 1-based number.
pub fn workspace_label(i: usize) -> (r: String)
    requires
        i < WORKSPACE_COUNT,
    ensures
        r@ == decimal(i + 1),
{
    let n: i64 = i as i64 + 1;
    string_of(&decimal_i64(n))
}

/// Top of the text line so it is vertically centred in the bar (never
/// above it).
pub fn text_top(bar_height: i32, line_height: i32) -> (r: i32)
    requires
        fits_i32(bar_height - line_height),
    ensures
        r == max_int(half_gap(bar_height - line_height), 0),
{
    let d = (bar_height - line_height) / 2;
    if d >= 0 {
        d
    } else {
        0
    }
}

/// Left edge of the `k`-th workspace label, given the widths of the
/// labels before it.
pub open spec fn label_x(widths: Seq<i32>, k: int) -> int
    decreases k,
{
    if k <= 0 {
        BAR_PAD as int
    } else {
        label_x(widths, k - 1) + widths[k - 1] + WS_GAP
    }
}

/// Left edges of the workspace labels, laid out left to right.
pub fn label_positions(widths: &Vec<i32>) -> (r: Vec<i32>)
    requires
        forall|k: int| 0 <= k <= widths@.len() ==> fits_i32(#[trigger] label_x(widths@, k)),
        forall|k: int| 0 <= k < widths@.len() ==> fits_i32(label_x(widths@, k) + #[trigger] widths@[k]),
    ensures
        r@.len() == widths@.len(),
        forall|k: int| 0 <= k < widths@.len() ==> #[trigger] r@[k] == label_x(widths@, k),
{
    let mut r: Vec<i32> = Vec::new();
    let mut x: i32 = BAR_PAD;
    let mut i: usize = 0;
    while i < widths.len()
        invariant
            i <= widths@.len(),
            r@.len() == i,
            x == label_x(widths@, i as int),
            forall|k: int| 0 <= k <= widths@.len() ==> fits_i32(#[trigger] label_x(widths@, k)),
            forall|k: int| 0 <= k < widths@.len() ==> fits_i32(label_x(widths@, k) + #[trigger] widths@[k]),
            forall|k: int| 0 <= k < i ==> #[trigger] r@[k] == label_x(widths@, k),
        decreases widths.len() - i,
    {
        r.push(x);
        assert(fits_i32(label_x(widths@, i as int + 1)));
        let w = widths[i];
        assert(fits_i32(label_x(widths@, i as int) + widths@[i as int]));
        x = x + w + WS_GAP;
        i = i + 1;
    }
    r
}

/// The widest the title may be drawn: half the bar.
pub fn title_max_width(bar_width: i32) -> (r: i32)
    ensures
        r == half_gap(bar_width as int),
{
    bar_width / 2
}

/// Where the (already truncated) title of width `text_width` is drawn:
/// centred, and only when it starts right of the left end and fits in
/// half the bar.
pub fn title_x(bar_width: i32, text_width: i32) -> (r: Option<i32>)
    requires
        fits_i32(bar_width - text_width),
    ensures
        ({
            let tx = half_gap(bar_width - text_width);
            if tx > 0 && text_width <= half_gap(bar_width as int) {
                r == Some(tx as i32)
            } else {
                r is None
            }
        }),
{
    let tx = (bar_width - text_width) / 2;
    if tx > 0 && text_width <= bar_width / 2 {
        Some(tx)
    } else {
        None
    }
}

/// Left edge of the clock: its right end one padding from the bar's end.
pub fn clock_x(bar_width: i32, clock_width: i32) -> (r: i32)
    requires
        fits_i32(bar_width - clock_width),
        fits_i32(bar_width - clock_width - BAR_PAD),
    ensures
        r == bar_width - clock_width - BAR_PAD,
{
    bar_width - clock_width - BAR_PAD
}

/// Whether a text run is drawn at all: not empty, not left of the bar.
pub fn draws_text(text: &str, x: i32) -> (r: bool)
    ensures
        r == (text@.len() > 0 && x >= 0),
{
    text.unicode_len() > 0 && x >= 0
}

/// The ellipsis that ends a cut title.
pub open spec fn ellipsis() -> Seq<char> {
    seq!['\u{2026}']
}

/// The shortened titles to try, longest first: the whole title, then
/// the title cut to `n - 1`, ..., 1 characters with an ellipsis appended,
/// then the ellipsis alone (used when nothing else fits).
pub open spec fn truncations(text: Seq<char>) -> Seq<Seq<char>> {
    let n = text.len() as int;
    seq![text] + Seq::new(
        if n >= 2 {
            (n - 1) as nat
        } else {
            0
        },
        |i: int| text.take(n - 1 - i) + ellipsis(),
    ) + seq![ellipsis()]
}

/// The candidate titles (see [`truncations`]); the bar shows the first
/// that fits its width, or the last.
pub fn truncation_candidates(text: &str) -> (r: Vec<String>)
    ensures
        r@.map_values(|s: String| s@) == truncations(text@),
{
    let chars = chars_of(text);
    let n = chars.len();
    let ghost want = truncations(text@);
    let mut r: Vec<String> = Vec::new();
    r.push(String::from_str(text));
    let mut k: usize = n;
    while k >= 2
        invariant
            n == text@.len(),
            chars@ == text@,
            k <= n,
            n >= 2 ==> k >= 1,
            n < 2 ==> k == n,
            r@.map_values(|s: String| s@) =~= want.take((n - k + 1) as int),
            want == truncations(text@),
        decreases k,
    {
        let mut cut: Vec<char> = Vec::new();
        let mut j: usize = 0;
        while j < k - 1
            invariant
                j <= k - 1,
                k <= n,
                n == chars@.len(),
                chars@ == text@,
                cut@ =~= chars@.take(j as int),
            decreases k - 1 - j,
        {
            cut.push(chars[j]);
            j = j + 1;
        }
        cut.push('\u{2026}');
        let ghost before = r@;
        let s = string_of(&cut);
        r.push(s);
        proof {
            let idx = (n - k + 1) as int;
            assert(want[idx] == text@.take(k - 1) + ellipsis());
            assert(s@ =~= text@.take(k - 1) + ellipsis());
            assert(want.take(idx + 1) =~= want.take(idx).push(want[idx]));
            assert(r@.map_values(|s: String| s@) =~= before.map_values(|s: String| s@).push(s@));
        }
        k = k - 1;
    }
    let mut e: Vec<char> = Vec::new();
    e.push('\u{2026}');
    let ghost before = r@;
    let es = string_of(&e);
    r.push(es);
    proof {
        assert(es@ =~= ellipsis());
        let m = if n >= 2 {
            n - 1
        } else {
            0
        };
        assert(n - k + 1 == m + 1);
        assert(want.len() == m + 2);
        assert(want[m + 1] == ellipsis());
        assert(want.take(m + 2) =~= want);
        assert(want.take(m + 2) =~= want.take(m + 1).push(want[m + 1]));
        assert(r@.map_values(|s: String| s@) =~= before.map_values(|s: String| s@).push(es@));
    }
    r
}

} // verus!
