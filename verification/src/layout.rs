//! Tiling geometry: rectangles and the dwindling layout.
//!
//! Everything here works on logical pixels held in `i32`; the mathematical
//! model of a rectangle is [`RectModel`], whose fields are unbounded integers,
//! so the layout laws can be stated without worrying about machine limits.
use vstd::prelude::*;

verus! {

/// A rectangle in logical pixel coordinates.
#[derive(Debug, Clone, Copy, PartialEq, Eq, Structural)]
pub struct Rect {
    pub x: i32,
    pub y: i32,
    pub w: i32,
    pub h: i32,
}

/// A point in logical pixel coordinates.
#[derive(Debug, Clone, Copy, PartialEq, Eq, Structural)]
pub struct Point {
    pub x: i32,
    pub y: i32,
}

/// Mathematical model of a rectangle: origin and extent as integers.
pub struct RectModel {
    pub x: int,
    pub y: int,
    pub w: int,
    pub h: int,
}

impl View for Rect {
    type V = RectModel;

    open spec fn view(&self) -> RectModel {
        RectModel { x: self.x as int, y: self.y as int, w: self.w as int, h: self.h as int }
    }
}

/// Whether `v` fits in an `i32`.
pub open spec fn fits_i32(v: int) -> bool {
    i32::MIN <= v <= i32::MAX
}

/// The larger of two integers.
pub open spec fn max_int(a: int, b: int) -> int {
    if a >= b { a } else { b }
}

/// Right edge of a rectangle model.
pub open spec fn right_of(r: RectModel) -> int {
    r.x + r.w
}

/// Bottom edge of a rectangle model.
pub open spec fn bottom_of(r: RectModel) -> int {
    r.y + r.h
}

/// A rectangle with positive width and height.
pub open spec fn non_degenerate(r: RectModel) -> bool {
    r.w > 0 && r.h > 0
}

/// `inner` lies entirely inside `outer`.
pub open spec fn contains_model(outer: RectModel, inner: RectModel) -> bool {
    &&& inner.x >= outer.x
    &&& inner.y >= outer.y
    &&& right_of(inner) <= right_of(outer)
    &&& bottom_of(inner) <= bottom_of(outer)
}

/// The two rectangles share an interior point.
pub open spec fn intersects_model(a: RectModel, b: RectModel) -> bool {
    a.x < right_of(b) && b.x < right_of(a) && a.y < bottom_of(b) && b.y < bottom_of(a)
}

/// `a` and `b` are at least `d` pixels apart along one of the two axes.
pub open spec fn separated(a: RectModel, b: RectModel, d: int) -> bool {
    ||| b.x >= right_of(a) + d
    ||| a.x >= right_of(b) + d
    ||| b.y >= bottom_of(a) + d
    ||| a.y >= bottom_of(b) + d
}

/// The rectangle shrunk by `px` on every side, its extent clamped at zero.
pub open spec fn shrink_model(r: RectModel, px: int) -> RectModel {
    RectModel {
        x: r.x + px,
        y: r.y + px,
        w: max_int(r.w - 2 * px, 0),
        h: max_int(r.h - 2 * px, 0),
    }
}

impl Rect {
    pub fn new(x: i32, y: i32, w: i32, h: i32) -> (r: Self)
        ensures
            r.x == x,
            r.y == y,
            r.w == w,
            r.h == h,
    {
        Rect { x, y, w, h }
    }

    pub fn right(&self) -> (r: i32)
        requires
            fits_i32(self.x + self.w),
        ensures
            r == right_of(self@),
    {
        self.x + self.w
    }

    pub fn bottom(&self) -> (r: i32)
        requires
            fits_i32(self.y + self.h),
        ensures
            r == bottom_of(self@),
    {
        self.y + self.h
    }

    /// Shrinks the rect by `px` on every side, saturating at an empty rect.
    pub fn shrink(&self, px: i32) -> (r: Self)
        requires
            fits_i32(self.x + px),
            fits_i32(self.y + px),
            fits_i32(2 * px),
            fits_i32(self.w - 2 * px),
            fits_i32(self.h - 2 * px),
        ensures
            r@ == shrink_model(self@, px as int),
    {
        let twice = 2 * px;
        let w = self.w - twice;
        let h = self.h - twice;
        Rect {
            x: self.x + px,
            y: self.y + px,
            w: if w >= 0 { w } else { 0 },
            h: if h >= 0 { h } else { 0 },
        }
    }

    /// True if the rectangles share an interior point.
    pub fn intersects(&self, other: &Rect) -> (r: bool)
        requires
            fits_i32(right_of(self@)),
            fits_i32(bottom_of(self@)),
            fits_i32(right_of(other@)),
            fits_i32(bottom_of(other@)),
        ensures
            r == intersects_model(self@, other@),
    {
        self.x < other.right() && other.x < self.right() && self.y < other.bottom() && other.y
            < self.bottom()
    }

    /// True if this rect fully contains `other`.
    pub fn contains_rect(&self, other: &Rect) -> (r: bool)
        requires
            fits_i32(right_of(self@)),
            fits_i32(bottom_of(self@)),
            fits_i32(right_of(other@)),
            fits_i32(bottom_of(other@)),
        ensures
            r == contains_model(self@, other@),
    {
        other.x >= self.x && other.y >= self.y && other.right() <= self.right() && other.bottom()
            <= self.bottom()
    }
}

/// Rust's `gap / 2` on a signed value: division truncating toward zero.
pub open spec fn half_gap(gap: int) -> int {
    if gap >= 0 {
        gap / 2
    } else {
        -((-gap) / 2)
    }
}

/// How many of `count` windows go to the first (left or top) half: the
/// larger share when splitting a wide area, the smaller when splitting a
/// tall one.
pub open spec fn first_share(area: RectModel, count: nat) -> nat {
    if area.w >= area.h {
        ((count + 1) / 2) as nat
    } else {
        (count / 2) as nat
    }
}

/// Extent of the first half before gaps: the proportional, floored share of
/// the split axis.
pub open spec fn first_extent(area: RectModel, count: nat) -> int {
    let n = first_share(area, count);
    if area.w >= area.h {
        (area.w * n) / (count as int)
    } else {
        (area.h * n) / (count as int)
    }
}

/// The first (left or top) child area of a split.
pub open spec fn first_child(area: RectModel, count: nat, gap: int) -> RectModel {
    let e = first_extent(area, count);
    let hg = half_gap(gap);
    if area.w >= area.h {
        RectModel { x: area.x, y: area.y, w: max_int(e - hg, 0), h: area.h }
    } else {
        RectModel { x: area.x, y: area.y, w: area.w, h: max_int(e - hg, 0) }
    }
}

/// The smaller of two integers.
pub open spec fn min_int(a: int, b: int) -> int {
    if a <= b { a } else { b }
}

/// The second (right or bottom) child area of a split. When the gap leaves
/// it no room, it is an empty strip on the far edge of the area.
pub open spec fn second_child(area: RectModel, count: nat, gap: int) -> RectModel {
    let e = first_extent(area, count);
    let hg = half_gap(gap);
    if area.w >= area.h {
        RectModel {
            x: min_int(area.x + e + hg, right_of(area)),
            y: area.y,
            w: max_int(area.w - e - hg, 0),
            h: area.h,
        }
    } else {
        RectModel {
            x: area.x,
            y: min_int(area.y + e + hg, bottom_of(area)),
            w: area.w,
            h: max_int(area.h - e - hg, 0),
        }
    }
}

/// A split happens: more than one window and a non-empty area.
pub open spec fn splits(area: RectModel, count: nat) -> bool {
    count >= 2 && non_degenerate(area)
}

/// The tiles of `count` windows in a part of the layout: nothing for no
/// windows; `count` copies of the part itself when the gaps have left it
/// empty (every window keeps a tile, of zero size); the whole part for one
/// window; otherwise the tiles of the two halves, first half first.
pub open spec fn spec_tiles(area: RectModel, count: nat, gap: int) -> Seq<RectModel>
    decreases count,
{
    if count == 0 {
        Seq::empty()
    } else if !non_degenerate(area) {
        Seq::new(count, |_i: int| area)
    } else if count == 1 {
        seq![area]
    } else {
        let n = first_share(area, count);
        spec_tiles(first_child(area, count, gap), n, gap) + spec_tiles(
            second_child(area, count, gap),
            (count - n) as nat,
            gap,
        )
    }
}

/// The dwindling layout of `count` windows in `area` with inner gap `gap`:
/// nothing for an empty area, otherwise one tile per window.
pub open spec fn spec_dwindle(area: RectModel, count: nat, gap: int) -> Seq<RectModel> {
    if !non_degenerate(area) {
        Seq::empty()
    } else {
        spec_tiles(area, count, gap)
    }
}

/// Every machine operation of the dwindling split of `area` stays within
/// range: the `i64` product, the `usize` to `i64` casts, and every `i32`
/// coordinate computed, at every level of the recursion.
pub open spec fn dwindle_fits(area: RectModel, count: nat, gap: int) -> bool
    decreases count,
{
    if !splits(area, count) {
        true
    } else {
        let n = first_share(area, count);
        let e = first_extent(area, count);
        let hg = half_gap(gap);
        let along = if area.w >= area.h { area.w } else { area.h };
        let origin = if area.w >= area.h { area.x } else { area.y };
        &&& count <= i64::MAX
        &&& along * n <= i64::MAX
        &&& fits_i32(e - hg)
        &&& fits_i32(origin + e)
        &&& fits_i32(origin + e + hg)
        &&& fits_i32(along - e)
        &&& fits_i32(along - e - hg)
        &&& dwindle_fits(first_child(area, count, gap), n, gap)
        &&& dwindle_fits(second_child(area, count, gap), (count - n) as nat, gap)
    }
}

/// Maps executable rectangles to their models.
pub open spec fn rect_models(s: Seq<Rect>) -> Seq<RectModel> {
    s.map_values(|r: Rect| r@)
}

proof fn lemma_share_bounds(area: RectModel, count: nat)
    requires
        count >= 2,
    ensures
        1 <= first_share(area, count) < count,
{
}

proof fn lemma_extent_bounds(area: RectModel, count: nat)
    requires
        splits(area, count),
    ensures
        0 <= first_extent(area, count),
        area.w >= area.h ==> first_extent(area, count) <= area.w,
        area.w < area.h ==> first_extent(area, count) <= area.h,
{
    let n = first_share(area, count);
    lemma_share_bounds(area, count);
    let c = count as int;
    if area.w >= area.h {
        assert(0 <= area.w * n <= area.w * c) by (nonlinear_arith)
            requires
                area.w > 0,
                0 <= n <= c,
        ;
        assert((area.w * n) / c <= area.w) by (nonlinear_arith)
            requires
                0 <= area.w * n <= area.w * c,
                c > 0,
        ;
        assert(0 <= (area.w * n) / c) by (nonlinear_arith)
            requires
                0 <= area.w * n,
                c > 0,
        ;
    } else {
        assert(0 <= area.h * n <= area.h * c) by (nonlinear_arith)
            requires
                area.h > 0,
                0 <= n <= c,
        ;
        assert((area.h * n) / c <= area.h) by (nonlinear_arith)
            requires
                0 <= area.h * n <= area.h * c,
                c > 0,
        ;
        assert(0 <= (area.h * n) / c) by (nonlinear_arith)
            requires
                0 <= area.h * n,
                c > 0,
        ;
    }
}

proof fn lemma_tiles_len(area: RectModel, count: nat, gap: int)
    ensures
        spec_tiles(area, count, gap).len() == count,
    decreases count,
{
    if count >= 2 && non_degenerate(area) {
        let n = first_share(area, count);
        lemma_share_bounds(area, count);
        lemma_tiles_len(first_child(area, count, gap), n, gap);
        lemma_tiles_len(second_child(area, count, gap), (count - n) as nat, gap);
    }
}

/// Law: the layout has exactly one tile per window for a non-empty area,
/// and none for an empty one.
pub proof fn lemma_dwindle_len(area: RectModel, count: nat, gap: int)
    ensures
        spec_dwindle(area, count, gap).len() == if non_degenerate(area) {
            count
        } else {
            0
        },
{
    lemma_tiles_len(area, count, gap);
}

/// With a non-negative half gap both halves of a split lie inside the area,
/// the second starts no earlier than the first ends, and when both are
/// non-empty they are exactly twice the half gap apart.
proof fn lemma_children_fit(area: RectModel, count: nat, gap: int)
    requires
        splits(area, count),
        half_gap(gap) >= 0,
    ensures
        contains_model(area, first_child(area, count, gap)),
        contains_model(area, second_child(area, count, gap)),
        area.w >= area.h ==> second_child(area, count, gap).x >= right_of(
            first_child(area, count, gap),
        ),
        area.w < area.h ==> second_child(area, count, gap).y >= bottom_of(
            first_child(area, count, gap),
        ),
        non_degenerate(first_child(area, count, gap)) && non_degenerate(
            second_child(area, count, gap),
        ) ==> {
            &&& area.w >= area.h ==> second_child(area, count, gap).x == right_of(
                first_child(area, count, gap),
            ) + 2 * half_gap(gap)
            &&& area.w < area.h ==> second_child(area, count, gap).y == bottom_of(
                first_child(area, count, gap),
            ) + 2 * half_gap(gap)
        },
{
    lemma_share_bounds(area, count);
    lemma_extent_bounds(area, count);
}

/// Shape of the tiles of a part: each lies inside the part; of any two, the
/// later one starts where the earlier one ends or further along one axis
/// (so they share no interior point); and two non-empty tiles are at least
/// twice the half gap apart.
proof fn lemma_tiles_shape(area: RectModel, count: nat, gap: int)
    requires
        half_gap(gap) >= 0,
    ensures
        forall|i: int|
            0 <= i < spec_tiles(area, count, gap).len() ==> contains_model(
                area,
                #[trigger] spec_tiles(area, count, gap)[i],
            ),
        forall|i: int, j: int|
            0 <= i < j < spec_tiles(area, count, gap).len() ==> separated(
                #[trigger] spec_tiles(area, count, gap)[i],
                #[trigger] spec_tiles(area, count, gap)[j],
                0,
            ),
        forall|i: int, j: int|
            0 <= i < j < spec_tiles(area, count, gap).len() && non_degenerate(
                #[trigger] spec_tiles(area, count, gap)[i],
            ) && non_degenerate(#[trigger] spec_tiles(area, count, gap)[j]) ==> separated(
                spec_tiles(area, count, gap)[i],
                spec_tiles(area, count, gap)[j],
                2 * half_gap(gap),
            ),
    decreases count,
{
    let s = spec_tiles(area, count, gap);
    if count == 0 {
    } else if !non_degenerate(area) {
        assert forall|i: int, j: int| 0 <= i < j < s.len() implies separated(
            #[trigger] s[i],
            #[trigger] s[j],
            0,
        ) by {
            assert(s[i] == area && s[j] == area);
        }
    } else if count == 1 {
    } else {
        let n = first_share(area, count);
        let m = (count - n) as nat;
        let l = first_child(area, count, gap);
        let r = second_child(area, count, gap);
        lemma_share_bounds(area, count);
        lemma_children_fit(area, count, gap);
        lemma_tiles_shape(l, n, gap);
        lemma_tiles_shape(r, m, gap);
        let sl = spec_tiles(l, n, gap);
        let sr = spec_tiles(r, m, gap);
        assert(s == sl + sr);
        let hg = half_gap(gap);
        assert forall|i: int| 0 <= i < s.len() implies contains_model(area, #[trigger] s[i]) by {
            if i < sl.len() {
                assert(s[i] == sl[i]);
                assert(contains_model(l, sl[i]));
            } else {
                assert(s[i] == sr[i - sl.len()]);
                assert(contains_model(r, sr[i - sl.len()]));
            }
        }
        assert forall|i: int, j: int| 0 <= i < j < s.len() implies {
            &&& separated(#[trigger] s[i], #[trigger] s[j], 0)
            &&& non_degenerate(s[i]) && non_degenerate(s[j]) ==> separated(s[i], s[j], 2 * hg)
        } by {
            if j < sl.len() {
                assert(s[i] == sl[i]);
                assert(s[j] == sl[j]);
            } else if i >= sl.len() {
                assert(s[i] == sr[i - sl.len()]);
                assert(s[j] == sr[j - sl.len()]);
            } else {
                let a = sl[i];
                let b = sr[j - sl.len()];
                assert(s[i] == a);
                assert(s[j] == b);
                assert(contains_model(l, a));
                assert(contains_model(r, b));
            }
        }
    }
}

/// Law: with a non-negative half gap every tile lies inside the area; any
/// two tiles share no interior point (the later starts where the earlier
/// ends or further along one axis); and two non-empty tiles are at least
/// twice the half gap apart.
pub proof fn lemma_dwindle_tiles(area: RectModel, count: nat, gap: int)
    requires
        half_gap(gap) >= 0,
    ensures
        forall|i: int|
            0 <= i < spec_dwindle(area, count, gap).len() ==> contains_model(
                area,
                #[trigger] spec_dwindle(area, count, gap)[i],
            ),
        forall|i: int, j: int|
            0 <= i < j < spec_dwindle(area, count, gap).len() ==> separated(
                #[trigger] spec_dwindle(area, count, gap)[i],
                #[trigger] spec_dwindle(area, count, gap)[j],
                0,
            ),
        forall|i: int, j: int|
            0 <= i < j < spec_dwindle(area, count, gap).len() && non_degenerate(
                #[trigger] spec_dwindle(area, count, gap)[i],
            ) && non_degenerate(#[trigger] spec_dwindle(area, count, gap)[j]) ==> separated(
                spec_dwindle(area, count, gap)[i],
                spec_dwindle(area, count, gap)[j],
                2 * half_gap(gap),
            ),
{
    lemma_tiles_shape(area, count, gap);
}

/// Law: a layout of zero windows, or of any number of windows in an empty
/// area, has no tiles; a single window gets the whole (non-empty) area.
pub proof fn lemma_dwindle_trivial(area: RectModel, count: nat, gap: int)
    ensures
        count == 0 ==> spec_dwindle(area, count, gap) == Seq::<RectModel>::empty(),
        !non_degenerate(area) ==> spec_dwindle(area, count, gap) == Seq::<RectModel>::empty(),
        count == 1 && non_degenerate(area) ==> spec_dwindle(area, count, gap) == seq![area],
{
}

/// Law: tiles never overlap — for a non-negative half gap no two distinct
/// tiles of the layout share an interior point.
pub proof fn lemma_dwindle_disjoint(area: RectModel, count: nat, gap: int)
    requires
        half_gap(gap) >= 0,
    ensures
        forall|i: int, j: int|
            0 <= i < spec_dwindle(area, count, gap).len() && 0 <= j < spec_dwindle(
                area,
                count,
                gap,
            ).len() && i != j ==> !intersects_model(
                #[trigger] spec_dwindle(area, count, gap)[i],
                #[trigger] spec_dwindle(area, count, gap)[j],
            ),
{
    lemma_dwindle_tiles(area, count, gap);
    let s = spec_dwindle(area, count, gap);
    assert forall|i: int, j: int|
        0 <= i < s.len() && 0 <= j < s.len() && i != j implies !intersects_model(
        #[trigger] s[i],
        #[trigger] s[j],
    ) by {
        if i < j {
            assert(separated(s[i], s[j], 0));
        } else {
            assert(separated(s[j], s[i], 0));
        }
    }
}

/// The area of a rectangle.
pub open spec fn area_of(r: RectModel) -> int {
    r.w * r.h
}

/// The summed area of the rectangles.
pub open spec fn total_area(s: Seq<RectModel>) -> int
    decreases s.len(),
{
    if s.len() == 0 {
        0
    } else {
        total_area(s.drop_last()) + area_of(s.last())
    }
}

proof fn lemma_total_area_concat(a: Seq<RectModel>, b: Seq<RectModel>)
    ensures
        total_area(a + b) == total_area(a) + total_area(b),
    decreases b.len(),
{
    if b.len() > 0 {
        lemma_total_area_concat(a, b.drop_last());
        assert((a + b).drop_last() =~= a + b.drop_last());
        assert((a + b).last() == b.last());
    } else {
        assert(a + b =~= a);
    }
}

proof fn lemma_total_area_empty_copies(n: nat, r: RectModel)
    requires
        area_of(r) == 0,
    ensures
        total_area(Seq::new(n, |_i: int| r)) == 0,
    decreases n,
{
    if n > 0 {
        lemma_total_area_empty_copies((n - 1) as nat, r);
        assert(Seq::new(n, |_i: int| r).drop_last() =~= Seq::new((n - 1) as nat, |_i: int| r));
    }
}

proof fn lemma_tiles_area(area: RectModel, count: nat, gap: int)
    requires
        half_gap(gap) == 0,
        count >= 1,
        area.w >= 0,
        area.h >= 0,
    ensures
        total_area(spec_tiles(area, count, gap)) == area_of(area),
    decreases count,
{
    if !non_degenerate(area) {
        assert(area_of(area) == 0) by (nonlinear_arith)
            requires
                area.w == 0 || area.h == 0,
        ;
        lemma_total_area_empty_copies(count, area);
        assert(spec_tiles(area, count, gap) =~= Seq::new(count, |_i: int| area));
        assert(total_area(spec_tiles(area, count, gap)) == 0);
    } else if count == 1 {
        let one = seq![area];
        assert(spec_tiles(area, count, gap) == one);
        assert(one.drop_last() =~= Seq::<RectModel>::empty());
        assert(total_area(Seq::<RectModel>::empty()) == 0);
        assert(total_area(one) == total_area(one.drop_last()) + area_of(one.last()));
    } else {
        let n = first_share(area, count);
        let m = (count - n) as nat;
        let l = first_child(area, count, gap);
        let r = second_child(area, count, gap);
        let e = first_extent(area, count);
        lemma_share_bounds(area, count);
        lemma_extent_bounds(area, count);
        lemma_tiles_area(l, n, gap);
        lemma_tiles_area(r, m, gap);
        lemma_total_area_concat(spec_tiles(l, n, gap), spec_tiles(r, m, gap));
        assert(spec_tiles(area, count, gap) == spec_tiles(l, n, gap) + spec_tiles(r, m, gap));
        if area.w >= area.h {
            assert(l.w == e && l.h == area.h);
            assert(r.w == area.w - e && r.h == area.h);
            assert(e * area.h + (area.w - e) * area.h == area.w * area.h) by (nonlinear_arith);
        } else {
            assert(l.h == e && l.w == area.w);
            assert(r.h == area.h - e && r.w == area.w);
            assert(area.w * e + area.w * (area.h - e) == area.w * area.h) by (nonlinear_arith);
        }
        assert(total_area(spec_tiles(l, n, gap)) == area_of(l));
        assert(total_area(spec_tiles(r, m, gap)) == area_of(r));
    }
}

/// Law: without gaps (`gap / 2 == 0`) the tiles cover the area exactly —
/// their areas add up to the area's.
pub proof fn lemma_dwindle_area(area: RectModel, count: nat, gap: int)
    requires
        half_gap(gap) == 0,
        count >= 1,
        non_degenerate(area),
    ensures
        total_area(spec_dwindle(area, count, gap)) == area_of(area),
{
    lemma_tiles_area(area, count, gap);
}

/// A rectangle moved by `(dx, dy)`.
pub open spec fn translated(r: RectModel, dx: int, dy: int) -> RectModel {
    RectModel { x: r.x + dx, y: r.y + dy, w: r.w, h: r.h }
}

proof fn lemma_tiles_translate(area: RectModel, count: nat, gap: int, dx: int, dy: int)
    ensures
        spec_tiles(translated(area, dx, dy), count, gap) == spec_tiles(area, count, gap).map_values(
            |r: RectModel| translated(r, dx, dy),
        ),
    decreases count,
{
    let t = translated(area, dx, dy);
    let s = spec_tiles(area, count, gap);
    let st = spec_tiles(t, count, gap);
    if count == 0 {
        assert(st =~= s.map_values(|r: RectModel| translated(r, dx, dy)));
    } else if !non_degenerate(area) {
        assert(st =~= s.map_values(|r: RectModel| translated(r, dx, dy)));
    } else if count == 1 {
        assert(st =~= s.map_values(|r: RectModel| translated(r, dx, dy)));
    } else {
        let n = first_share(area, count);
        let m = (count - n) as nat;
        assert(first_share(t, count) == n);
        assert(first_extent(t, count) == first_extent(area, count));
        assert(first_child(t, count, gap) == translated(first_child(area, count, gap), dx, dy));
        assert(second_child(t, count, gap) == translated(second_child(area, count, gap), dx, dy));
        lemma_tiles_translate(first_child(area, count, gap), n, gap, dx, dy);
        lemma_tiles_translate(second_child(area, count, gap), m, gap, dx, dy);
        let sl = spec_tiles(first_child(area, count, gap), n, gap);
        let sr = spec_tiles(second_child(area, count, gap), m, gap);
        assert(s == sl + sr);
        assert(st =~= s.map_values(|r: RectModel| translated(r, dx, dy)));
    }
}

/// Law: the layout depends only on the size of the area — moving the area
/// by `(dx, dy)` moves every tile by `(dx, dy)`.
pub proof fn lemma_dwindle_translate(area: RectModel, count: nat, gap: int, dx: int, dy: int)
    ensures
        spec_dwindle(translated(area, dx, dy), count, gap) == spec_dwindle(
            area,
            count,
            gap,
        ).map_values(|r: RectModel| translated(r, dx, dy)),
{
    lemma_tiles_translate(area, count, gap, dx, dy);
    if !non_degenerate(area) {
        assert(spec_dwindle(area, count, gap).map_values(|r: RectModel| translated(r, dx, dy))
            =~= Seq::<RectModel>::empty());
    }
}

/// Smallest extent that holds `count` tiles of at least one pixel with a
/// `gap`-wide seam between neighbours: `count + (count - 1) * gap`.
pub open spec fn room_for(count: int, gap: int) -> int {
    count * (gap + 1) - gap
}

/// The area is roomy enough for `count` windows: its longer side holds
/// `count` tiles and its shorter side holds half of them (rounded up).
pub open spec fn roomy(area: RectModel, count: nat, gap: int) -> bool {
    &&& max_int(area.w, area.h) >= room_for(count as int, gap)
    &&& (if area.w >= area.h { area.h } else { area.w }) >= room_for(
        ((count + 1) / 2) as int,
        gap,
    )
}

proof fn lemma_room_monotone(a: int, b: int, gap: int)
    requires
        a <= b,
        gap >= 0,
    ensures
        room_for(a, gap) <= room_for(b, gap),
{
    assert(a * (gap + 1) <= b * (gap + 1)) by (nonlinear_arith)
        requires
            a <= b,
            gap >= 0,
    ;
}

/// Splitting an extent `d` that has room for `c` tiles gives `k` of them
/// (`1 <= k < c`) a proportional share with room for half of `k`, plus the
/// half gap it gives up.
proof fn lemma_share_room(d: int, c: int, k: int, gap: int)
    requires
        c >= 2,
        1 <= k < c,
        gap >= 0,
        d >= room_for(c, gap),
    ensures
        d * k >= c * (room_for((k + 1) / 2, gap) + gap / 2),
{
    let q = (k + 1) / 2;
    let hg = gap / 2;
    assert(2 * hg <= gap);
    if k == 1 {
        assert(q == 1);
        assert(d * k >= c * (room_for(q, gap) + hg)) by (nonlinear_arith)
            requires
                c >= 2,
                k == 1,
                q == 1,
                gap >= 0,
                2 * hg <= gap,
                d >= c * (gap + 1) - gap,
        ;
    } else {
        assert(1 <= q <= k - 1);
        assert(d * k >= c * (room_for(q, gap) + hg)) by (nonlinear_arith)
            requires
                c >= 2,
                2 <= k < c,
                1 <= q <= k - 1,
                gap >= 0,
                2 * hg <= gap,
                hg >= 0,
                d >= c * (gap + 1) - gap,
        ;
    }
}

/// The proportional first share `e = d * n / c` and the remaining `d - e`
/// each keep room for half of their windows beyond the half gap.
proof fn lemma_split_room(d: int, c: int, n: int, gap: int)
    requires
        c >= 2,
        1 <= n < c,
        gap >= 0,
        d >= room_for(c, gap),
    ensures
        (d * n) / c - gap / 2 >= room_for((n + 1) / 2, gap),
        d - (d * n) / c - gap / 2 >= room_for((c - n + 1) / 2, gap),
{
    let e = (d * n) / c;
    let hg = gap / 2;
    let t1 = room_for((n + 1) / 2, gap) + hg;
    let t2 = room_for((c - n + 1) / 2, gap) + hg;
    lemma_share_room(d, c, n, gap);
    lemma_share_room(d, c, c - n, gap);
    assert(d >= 0) by (nonlinear_arith)
        requires
            d >= c * (gap + 1) - gap,
            c >= 2,
            gap >= 0,
    ;
    assert(c * e <= d * n < c * (e + 1)) by (nonlinear_arith)
        requires
            e == (d * n) / c,
            c >= 2,
    ;
    assert(e >= t1) by (nonlinear_arith)
        requires
            d * n < c * (e + 1),
            d * n >= c * t1,
            c >= 2,
    ;
    assert(d * (c - n) == d * c - d * n) by (nonlinear_arith);
    assert(c * (d - e) >= d * (c - n)) by (nonlinear_arith)
        requires
            c * e <= d * n,
            d * (c - n) == d * c - d * n,
    ;
    assert(d - e >= t2) by (nonlinear_arith)
        requires
            c * (d - e) >= d * (c - n),
            d * (c - n) >= c * t2,
            c >= 2,
    ;
}

proof fn lemma_tiles_roomy(area: RectModel, count: nat, gap: int)
    requires
        gap >= 0,
        count >= 1,
        roomy(area, count, gap),
    ensures
        non_degenerate(area),
        forall|i: int|
            0 <= i < spec_tiles(area, count, gap).len() ==> non_degenerate(
                #[trigger] spec_tiles(area, count, gap)[i],
            ),
    decreases count,
{
    let c = count as int;
    lemma_room_monotone(1, (c + 1) / 2, gap);
    lemma_room_monotone((c + 1) / 2, c, gap);
    if count >= 2 {
        let n = first_share(area, count);
        let m = (count - n) as nat;
        let hg = half_gap(gap);
        assert(hg == gap / 2);
        lemma_share_bounds(area, count);
        let l = first_child(area, count, gap);
        let r = second_child(area, count, gap);
        if area.w >= area.h {
            lemma_split_room(area.w, c, n as int, gap);
            assert(n == (c + 1) / 2);
            lemma_room_monotone(((n + 1) / 2) as int, n as int, gap);
            lemma_room_monotone(m as int, n as int, gap);
            lemma_room_monotone(((m + 1) / 2) as int, m as int, gap);
        } else {
            lemma_split_room(area.h, c, n as int, gap);
            assert(m == (c + 1) / 2);
            lemma_room_monotone(n as int, m as int, gap);
            lemma_room_monotone(((n + 1) / 2) as int, n as int, gap);
            lemma_room_monotone(((m + 1) / 2) as int, m as int, gap);
        }
        assert(roomy(l, n, gap));
        assert(roomy(r, m, gap));
        lemma_tiles_roomy(l, n, gap);
        lemma_tiles_roomy(r, m, gap);
        let sl = spec_tiles(l, n, gap);
        let sr = spec_tiles(r, m, gap);
        let st = spec_tiles(area, count, gap);
        assert(st == sl + sr);
        assert forall|i: int| 0 <= i < st.len() implies non_degenerate(#[trigger] st[i]) by {
            if i < sl.len() {
                assert(st[i] == sl[i]);
            } else {
                assert(st[i] == sr[i - sl.len()]);
            }
        }
    }
}

/// Law: when the area is roomy enough for the windows (in particular when
/// both sides measure at least `count + (count - 1) * gap`), every tile of
/// the layout is non-empty.
pub proof fn lemma_dwindle_roomy(area: RectModel, count: nat, gap: int)
    requires
        gap >= 0,
        count >= 1,
        roomy(area, count, gap),
    ensures
        spec_dwindle(area, count, gap).len() == count,
        forall|i: int|
            0 <= i < spec_dwindle(area, count, gap).len() ==> non_degenerate(
                #[trigger] spec_dwindle(area, count, gap)[i],
            ),
{
    lemma_tiles_roomy(area, count, gap);
    lemma_tiles_len(area, count, gap);
}

/// Law: when both sides of the area have room for all `count` windows,
/// every tile of the layout is non-empty.
pub proof fn lemma_dwindle_roomy_square(area: RectModel, count: nat, gap: int)
    requires
        gap >= 0,
        count >= 1,
        area.w >= room_for(count as int, gap),
        area.h >= room_for(count as int, gap),
    ensures
        spec_dwindle(area, count, gap).len() == count,
        forall|i: int|
            0 <= i < spec_dwindle(area, count, gap).len() ==> non_degenerate(
                #[trigger] spec_dwindle(area, count, gap)[i],
            ),
{
    lemma_room_monotone(((count + 1) / 2) as int, count as int, gap);
    lemma_dwindle_roomy(area, count, gap);
}

/// Dwindling layout (Hyprland-style): recursively splits the usable area in
/// half along its longer axis, giving each half a proportional share of the
/// remaining windows. Inner gaps of `gap` logical pixels are inserted between
/// adjacent tiles. A non-empty area gets exactly `count` tiles; a window
/// whose share the gaps have used up gets an empty tile.
pub fn dwindle(usable: Rect, count: usize, gap: i32) -> (out: Vec<Rect>)
    requires
        dwindle_fits(usable@, count as nat, gap as int),
    ensures
        rect_models(out@) == spec_dwindle(usable@, count as nat, gap as int),
{
    let mut out: Vec<Rect> = Vec::new();
    if usable.w <= 0 || usable.h <= 0 {
        assert(rect_models(out@) =~= Seq::<RectModel>::empty());
        return out;
    }
    split_recursive(usable, count, gap, &mut out);
    assert(rect_models(out@) =~= Seq::<RectModel>::empty() + spec_tiles(
        usable@,
        count as nat,
        gap as int,
    ));
    out
}

fn split_recursive(area: Rect, count: usize, gap: i32, out: &mut Vec<Rect>)
    requires
        dwindle_fits(area@, count as nat, gap as int),
    ensures
        rect_models(final(out)@) == rect_models(old(out)@) + spec_tiles(
            area@,
            count as nat,
            gap as int,
        ),
    decreases count,
{
    let ghost before = out@;
    if count == 0 {
        assert(rect_models(out@) =~= rect_models(before) + Seq::<RectModel>::empty());
        return;
    }
    if area.w <= 0 || area.h <= 0 {
        let mut i: usize = 0;
        while i < count
            invariant
                i <= count,
                rect_models(out@) =~= rect_models(before) + Seq::new(i as nat, |_k: int| area@),
            decreases count - i,
        {
            let ghost prev = out@;
            out.push(area);
            proof {
                assert(rect_models(out@) =~= rect_models(prev).push(area@));
                assert(Seq::new((i + 1) as nat, |_k: int| area@) =~= Seq::new(i as nat, |_k: int| area@).push(area@));
            }
            i = i + 1;
        }
        return;
    }
    if count == 1 {
        out.push(area);
        assert(rect_models(out@) =~= rect_models(before) + seq![area@]);
        return;
    }
    proof {
        lemma_share_bounds(area@, count as nat);
        lemma_extent_bounds(area@, count as nat);
    }
    let wide = area.w >= area.h;
    let left_count: usize = if wide {
        count / 2 + count % 2
    } else {
        count / 2
    };
    assert(left_count == first_share(area@, count as nat));
    let right_count: usize = count - left_count;
    let hg = gap / 2;
    assert(hg as int == half_gap(gap as int));
    let along: i32 = if wide {
        area.w
    } else {
        area.h
    };
    let origin: i32 = if wide {
        area.x
    } else {
        area.y
    };
    let product: i64 = along as i64 * left_count as i64;
    let first: i32 = (product / count as i64) as i32;
    assert(first == first_extent(area@, count as nat));
    let first_len = first - hg;
    let rest = along - first;
    let second_len = rest - hg;
    let second_start: i32 = if second_len >= 0 {
        origin + first + hg
    } else {
        origin + along
    };
    let first_len = if first_len >= 0 {
        first_len
    } else {
        0
    };
    let second_len = if second_len >= 0 {
        second_len
    } else {
        0
    };
    let (a, b) = if wide {
        (
            Rect::new(area.x, area.y, first_len, area.h),
            Rect::new(second_start, area.y, second_len, area.h),
        )
    } else {
        (
            Rect::new(area.x, area.y, area.w, first_len),
            Rect::new(area.x, second_start, area.w, second_len),
        )
    };
    assert(a@ == first_child(area@, count as nat, gap as int));
    assert(b@ == second_child(area@, count as nat, gap as int));
    split_recursive(a, left_count, gap, out);
    split_recursive(b, right_count, gap, out);
    assert(rect_models(out@) =~= rect_models(before) + spec_tiles(
        area@,
        count as nat,
        gap as int,
    ));
}

/// Whether every machine operation of the dwindling split stays in range
/// (see [`dwindle_fits`]): the check to make before [`dwindle`] on areas
/// whose size is not known to be small.
pub fn dwindle_in_range(area: Rect, count: usize, gap: i32) -> (r: bool)
    ensures
        r == dwindle_fits(area@, count as nat, gap as int),
    decreases count,
{
    if count < 2 || area.w <= 0 || area.h <= 0 {
        return true;
    }
    proof {
        lemma_share_bounds(area@, count as nat);
        lemma_extent_bounds(area@, count as nat);
    }
    let wide = area.w >= area.h;
    let n: usize = if wide {
        count / 2 + count % 2
    } else {
        count / 2
    };
    assert(n == first_share(area@, count as nat));
    if count as u128 > i64::MAX as u128 {
        return false;
    }
    let along: i128 = if wide {
        area.w as i128
    } else {
        area.h as i128
    };
    let origin: i128 = if wide {
        area.x as i128
    } else {
        area.y as i128
    };
    assert(along * n <= 0x7fff_ffff * 0xffff_ffff_ffff_ffff) by (nonlinear_arith)
        requires
            0 < along <= 0x7fff_ffff,
            0 <= n <= 0xffff_ffff_ffff_ffff,
    ;
    let product: i128 = along * n as i128;
    if product > i64::MAX as i128 {
        return false;
    }
    let e: i128 = product / count as i128;
    assert(e == first_extent(area@, count as nat));
    let hg: i128 = (gap / 2) as i128;
    assert(hg == half_gap(gap as int));
    let lo: i128 = i32::MIN as i128;
    let hi: i128 = i32::MAX as i128;
    let ok = lo <= e - hg && e - hg <= hi && lo <= origin + e && origin + e <= hi && lo <= origin
        + e + hg && origin + e + hg <= hi && lo <= along - e && along - e <= hi && lo <= along - e
        - hg && along - e - hg <= hi;
    if !ok {
        return false;
    }
    let first_len: i32 = if e - hg >= 0 {
        (e - hg) as i32
    } else {
        0
    };
    let second_len: i32 = if along - e - hg >= 0 {
        (along - e - hg) as i32
    } else {
        0
    };
    let second_start: i32 = if along - e - hg >= 0 {
        (origin + e + hg) as i32
    } else {
        (origin + along) as i32
    };
    let (a, b) = if wide {
        (
            Rect::new(area.x, area.y, first_len, area.h),
            Rect::new(second_start, area.y, second_len, area.h),
        )
    } else {
        (
            Rect::new(area.x, area.y, area.w, first_len),
            Rect::new(area.x, second_start, area.w, second_len),
        )
    };
    assert(a@ == first_child(area@, count as nat, gap as int));
    assert(b@ == second_child(area@, count as nat, gap as int));
    dwindle_in_range(a, n, gap) && dwindle_in_range(b, count - n, gap)
}

} // verus!
