//! Output-level decisions: the backend to run, the startup line, window
//! border rectangles, and the font the bar uses.
use vstd::prelude::*;

use crate::layout::{fits_i32, Point, Rect};
use crate::text::{chars_of, concat_str, contains_chars, contains_seq, lower_chars, lower_seq, str_eq};

verus! {

/// Which backend the compositor runs on.
#[derive(Debug, Clone, Copy, PartialEq, Eq, Structural)]
pub enum BackendChoice {
    /// A window inside another compositor (development mode).
    Nested,
    /// Directly on the hardware (DRM/KMS).
    Drm,
}

/// The backend chosen by the command line (`--drm` among the arguments
/// after the program name) or by `$KATNIP_BACKEND` (`drm`).
pub fn select_backend(args: &Vec<String>, backend_env: Option<&str>) -> (r: BackendChoice)
    ensures
        r == (if (exists|i: int| 0 <= i < args@.len() && (#[trigger] args@[i])@ == "--drm"@) || (
        backend_env matches Some(e) && e@ == "drm"@) {
            BackendChoice::Drm
        } else {
            BackendChoice::Nested
        }),
{
    let mut i: usize = 0;
    while i < args.len()
        invariant
            i <= args@.len(),
            forall|j: int| 0 <= j < i ==> (#[trigger] args@[j])@ != "--drm"@,
        decreases args.len() - i,
    {
        if str_eq(args[i].as_str(), "--drm") {
            return BackendChoice::Drm;
        }
        i = i + 1;
    }
    match backend_env {
        Some(e) => if str_eq(e, "drm") {
            BackendChoice::Drm
        } else {
            BackendChoice::Nested
        },
        None => BackendChoice::Nested,
    }
}

/// The startup line announcing the Wayland socket.
pub fn info_listening(socket: &str) -> (r: String)
    ensures
        r@ == "listening on WAYLAND_DISPLAY="@ + socket@,
{
    concat_str("listening on WAYLAND_DISPLAY=", socket)
}

/// The border drawn around a mapped window at `loc` of size `w` x `h`: the
/// window rectangle grown by the border width on every side; none for a
/// window without a size yet.
pub fn border_rect(loc: Point, w: i32, h: i32, border: i32) -> (r: Option<Rect>)
    requires
        fits_i32(loc.x - border),
        fits_i32(loc.y - border),
        fits_i32(2 * border),
        fits_i32(w + 2 * border),
        fits_i32(h + 2 * border),
    ensures
        (w <= 0 || h <= 0) ==> r is None,
        (w > 0 && h > 0) ==> r == Some(
            Rect { x: (loc.x - border) as i32, y: (loc.y - border) as i32, w: (w + 2 * border) as i32, h: (h + 2 * border) as i32 },
        ),
{
    if w <= 0 || h <= 0 {
        return None;
    }
    Some(Rect { x: loc.x - border, y: loc.y - border, w: w + 2 * border, h: h + 2 * border })
}

/// A rendered single-line text run as RGBA pixels, row by row.
#[derive(Debug, Clone)]
pub struct RasterText {
    pub rgba: Vec<u8>,
    pub width: usize,
    pub height: usize,
}

impl RasterText {
    /// A transparent run of `width` x `height` pixels.
    pub fn blank(width: usize, height: usize) -> (r: Self)
        requires
            width * height * 4 <= usize::MAX,
        ensures
            r.width == width,
            r.height == height,
            r.rgba@.len() == width * height * 4,
            forall|i: int| 0 <= i < r.rgba@.len() ==> r.rgba@[i] == 0,
    {
        let n = width * height * 4;
        let mut rgba: Vec<u8> = Vec::new();
        let mut i: usize = 0;
        while i < n
            invariant
                i <= n,
                rgba@.len() == i,
                forall|j: int| 0 <= j < i ==> rgba@[j] == 0,
            decreases n - i,
        {
            rgba.push(0);
            i = i + 1;
        }
        RasterText { rgba, width, height }
    }
}

/// The first CRTC among `candidates` (the CRTCs each encoder of a
/// connector can drive, encoder by encoder) that is not in `used`.
pub fn first_free_crtc(candidates: &Vec<u32>, used: &Vec<u32>) -> (r: Option<u32>)
    ensures
        match r {
            None => forall|i: int| 0 <= i < candidates@.len() ==> used@.contains(#[trigger] candidates@[i]),
            Some(c) => exists|i: int|
                0 <= i < candidates@.len() && candidates@[i] == c && !used@.contains(c) && forall|j: int|
                    0 <= j < i ==> used@.contains(#[trigger] candidates@[j]),
        },
{
    let mut i: usize = 0;
    while i < candidates.len()
        invariant
            i <= candidates@.len(),
            forall|j: int| 0 <= j < i ==> used@.contains(#[trigger] candidates@[j]),
        decreases candidates.len() - i,
    {
        let c = candidates[i];
        let mut k: usize = 0;
        let mut taken = false;
        while k < used.len()
            invariant
                k <= used@.len(),
                taken == exists|j: int| 0 <= j < k && used@[j] == c,
            decreases used.len() - k,
        {
            if used[k] == c {
                taken = true;
            }
            k = k + 1;
        }
        if !taken {
            proof {
                if used@.contains(c) {
                    let j = choose|j: int| 0 <= j < used@.len() && used@[j] == c;
                    assert(used@[j] == c);
                }
            }
            return Some(c);
        }
        proof {
            let j = choose|j: int| 0 <= j < k && used@[j] == c;
            assert(used@.contains(used@[j]));
        }
        i = i + 1;
    }
    None
}

/// The CRTC that `known` (connector, CRTC pairs) gives connector `conn`:
/// the first pair for it, if any.
pub open spec fn own_crtc(known: Seq<(u32, u32)>, conn: Option<u32>) -> Option<u32>
    decreases known.len(),
{
    if known.len() == 0 {
        None
    } else if Some(known[0].0) == conn {
        Some(known[0].1)
    } else {
        own_crtc(known.drop_first(), conn)
    }
}

/// The CRTCs in use on a device, leaving out those of connector `exclude`:
/// the CRTC of every other known connector (in the known order), then every
/// CRTC driving a surface other than the one `exclude` owns.
pub open spec fn spec_used_crtcs(known: Seq<(u32, u32)>, surfaces: Seq<u32>, exclude: Option<u32>) -> Seq<u32> {
    known.filter(|q: (u32, u32)| Some(q.0) != exclude).map_values(|q: (u32, u32)| q.1)
        + surfaces.filter(|d: u32| Some(d) != own_crtc(known, exclude))
}

/// The CRTCs in use on a device, except those of connector `exclude`, from
/// the known connector-to-CRTC pairs and the CRTCs that drive surfaces.
pub fn used_crtcs(known: &Vec<(u32, u32)>, surfaces: &Vec<u32>, exclude: Option<u32>) -> (r: Vec<u32>)
    ensures
        r@ == spec_used_crtcs(known@, surfaces@, exclude),
{
    let mut own: Option<u32> = None;
    let mut i: usize = 0;
    assert(known@.skip(0) =~= known@);
    while i < known.len()
        invariant
            i <= known@.len(),
            own is None ==> own_crtc(known@, exclude) == own_crtc(known@.skip(i as int), exclude),
            own is Some ==> own_crtc(known@, exclude) == own,
        decreases known.len() - i,
    {
        proof {
            assert(known@.skip(i as int).drop_first() =~= known@.skip(i + 1));
            assert(known@.skip(i as int)[0] == known@[i as int]);
        }
        if own.is_none() {
            let p = known[i];
            let hit = match exclude {
                Some(e) => p.0 == e,
                None => false,
            };
            if hit {
                own = Some(p.1);
            }
        }
        i = i + 1;
    }
    proof {
        assert(known@.skip(known@.len() as int) =~= Seq::<(u32, u32)>::empty());
    }
    let mut r: Vec<u32> = Vec::new();
    let mut i: usize = 0;
    while i < known.len()
        invariant
            i <= known@.len(),
            r@ == known@.take(i as int).filter(|q: (u32, u32)| Some(q.0) != exclude).map_values(|q: (u32, u32)| q.1),
        decreases known.len() - i,
    {
        let p = known[i];
        let keep = match exclude {
            Some(e) => p.0 != e,
            None => true,
        };
        proof {
            reveal(Seq::filter);
            assert(known@.take(i + 1).drop_last() =~= known@.take(i as int));
            assert(known@.take(i + 1).last() == p);
            assert(keep == (Some(p.0) != exclude));
        }
        if keep {
            r.push(p.1);
            proof {
                assert(known@.take(i + 1).filter(|q: (u32, u32)| Some(q.0) != exclude) == known@.take(i as int).filter(|q: (u32, u32)| Some(q.0) != exclude).push(p));
                assert(known@.take(i + 1).filter(|q: (u32, u32)| Some(q.0) != exclude).map_values(|q: (u32, u32)| q.1) =~= known@.take(i as int).filter(|q: (u32, u32)| Some(q.0) != exclude).map_values(|q: (u32, u32)| q.1).push(p.1));
            }
        } else {
            proof {
                assert(known@.take(i + 1).filter(|q: (u32, u32)| Some(q.0) != exclude) == known@.take(i as int).filter(|q: (u32, u32)| Some(q.0) != exclude));
            }
        }
        i = i + 1;
    }
    proof {
        assert(known@.take(known@.len() as int) =~= known@);
    }
    let ghost head = r@;
    let mut k: usize = 0;
    while k < surfaces.len()
        invariant
            k <= surfaces@.len(),
            own == own_crtc(known@, exclude),
            r@ == head + surfaces@.take(k as int).filter(|d: u32| Some(d) != own_crtc(known@, exclude)),
        decreases surfaces.len() - k,
    {
        let c = surfaces[k];
        let keep = match own {
            Some(o) => c != o,
            None => true,
        };
        proof {
            reveal(Seq::filter);
            assert(surfaces@.take(k + 1).drop_last() =~= surfaces@.take(k as int));
            assert(surfaces@.take(k + 1).last() == c);
            assert(keep == (Some(c) != own_crtc(known@, exclude)));
        }
        if keep {
            r.push(c);
            proof {
                assert(surfaces@.take(k + 1).filter(|d: u32| Some(d) != own_crtc(known@, exclude)) == surfaces@.take(k as int).filter(|d: u32| Some(d) != own_crtc(known@, exclude)).push(c));
                assert(r@ =~= head + surfaces@.take(k + 1).filter(|d: u32| Some(d) != own_crtc(known@, exclude)));
            }
        } else {
            proof {
                assert(surfaces@.take(k + 1).filter(|d: u32| Some(d) != own_crtc(known@, exclude)) == surfaces@.take(k as int).filter(|d: u32| Some(d) != own_crtc(known@, exclude)));
            }
        }
        k = k + 1;
    }
    proof {
        assert(surfaces@.take(surfaces@.len() as int) =~= surfaces@);
    }
    r
}

/// The connectors known before a scan that the scan no longer saw, in the
/// known order.
pub fn vanished(known: &Vec<u32>, seen: &Vec<u32>) -> (r: Vec<u32>)
    ensures
        r@ == known@.filter(|c: u32| !seen@.contains(c)),
{
    let mut r: Vec<u32> = Vec::new();
    let mut i: usize = 0;
    while i < known.len()
        invariant
            i <= known@.len(),
            r@ == known@.take(i as int).filter(|c: u32| !seen@.contains(c)),
        decreases known.len() - i,
    {
        let c = known[i];
        let mut k: usize = 0;
        let mut found = false;
        while k < seen.len()
            invariant
                k <= seen@.len(),
                found == exists|j: int| 0 <= j < k && seen@[j] == c,
            decreases seen.len() - k,
        {
            if seen[k] == c {
                found = true;
            }
            k = k + 1;
        }
        proof {
            assert(found == seen@.contains(c)) by {
                if seen@.contains(c) {
                    let j = choose|j: int| 0 <= j < seen@.len() && seen@[j] == c;
                    assert(seen@[j] == c);
                }
            }
            reveal(Seq::filter);
            assert(known@.take(i + 1).drop_last() =~= known@.take(i as int));
            assert(known@.take(i + 1).last() == c);
        }
        if !found {
            r.push(c);
        }
        i = i + 1;
    }
    assert(known@.take(known@.len() as int) =~= known@);
    r
}

/// The mode a new output starts in: the first one marked preferred, or the
/// first one.
pub fn preferred_mode(preferred: &Vec<bool>) -> (r: usize)
    ensures
        (exists|i: int| 0 <= i < preferred@.len() && preferred@[i]) ==> r < preferred@.len()
            && preferred@[r as int] && forall|j: int| 0 <= j < r ==> !preferred@[j],
        !(exists|i: int| 0 <= i < preferred@.len() && preferred@[i]) ==> r == 0,
{
    let mut i: usize = 0;
    while i < preferred.len()
        invariant
            i <= preferred@.len(),
            forall|j: int| 0 <= j < i ==> !preferred@[j],
        decreases preferred.len() - i,
    {
        if preferred[i] {
            return i;
        }
        i = i + 1;
    }
    0
}

/// The sum of the first `n` widths.
pub open spec fn width_sum(widths: Seq<i32>, n: int) -> int
    decreases n,
{
    if n <= 0 {
        0
    } else {
        width_sum(widths, n - 1) + widths[n - 1]
    }
}

/// Where a new output goes: right of the outputs already mapped, side by
/// side from x = 0.
pub fn next_output_x(widths: &Vec<i32>) -> (r: i32)
    requires
        forall|k: int| 0 <= k <= widths@.len() ==> fits_i32(#[trigger] width_sum(widths@, k)),
    ensures
        r == width_sum(widths@, widths@.len() as int),
{
    let mut x: i32 = 0;
    let mut i: usize = 0;
    while i < widths.len()
        invariant
            i <= widths@.len(),
            x == width_sum(widths@, i as int),
            forall|k: int| 0 <= k <= widths@.len() ==> fits_i32(#[trigger] width_sum(widths@, k)),
        decreases widths.len() - i,
    {
        assert(fits_i32(width_sum(widths@, i + 1)));
        x = x + widths[i];
        i = i + 1;
    }
    x
}

/// The glyph pixel (row, column) that image byte `k` lies under, for a
/// glyph whose top-left corner is at (`top`, `left`) in an image `width`
/// pixels wide.
pub open spec fn glyph_cell(k: int, width: int, top: int, left: int) -> (int, int) {
    let p = k / 4;
    (p / width - top, p % width - left)
}

/// Whether image byte `k` is painted by the glyph: it lies inside the
/// image rows, under a glyph pixel with non-zero coverage.
pub open spec fn painted(
    k: int,
    width: int,
    height: int,
    top: int,
    left: int,
    gw: int,
    gh: int,
    coverage: Seq<u8>,
) -> bool {
    let (row, col) = glyph_cell(k, width, top, left);
    &&& (k / 4) / width < height
    &&& 0 <= row < gh
    &&& 0 <= col < gw
    &&& coverage[row * gw + col] != 0
}

/// The value the glyph paints into byte `k`: the colour's channel, with
/// the alpha channel scaled by the coverage.
pub open spec fn paint_value(k: int, width: int, top: int, left: int, gw: int, coverage: Seq<u8>, color: Seq<u8>) -> u8 {
    let (row, col) = glyph_cell(k, width, top, left);
    let ch = k % 4;
    if ch < 3 {
        color[ch]
    } else {
        ((coverage[row * gw + col] as int * color[3] as int) / 255) as u8
    }
}

proof fn lemma_pixel_bytes(y: int, x: int, w: int, j: int)
    requires
        0 <= y,
        0 <= x < w,
        0 <= j < 4,
    ensures
        ((y * w + x) * 4 + j) / 4 == y * w + x,
        ((y * w + x) * 4 + j) % 4 == j,
        (y * w + x) / w == y,
        (y * w + x) % w == x,
{
    let p = y * w + x;
    vstd::arithmetic::div_mod::lemma_fundamental_div_mod_converse(p * 4 + j, 4, p, j);
    vstd::arithmetic::div_mod::lemma_fundamental_div_mod_converse(p, w, y, x);
}

proof fn lemma_byte_pixel(k: int, w: int)
    requires
        0 <= k,
        w > 0,
    ensures
        k / 4 == (k / 4 / w) * w + (k / 4) % w,
        (k / 4) * 4 <= k < (k / 4) * 4 + 4,
        0 <= (k / 4) % w < w,
        0 <= k / 4 / w,
{
    vstd::arithmetic::div_mod::lemma_fundamental_div_mod(k / 4, w);
    vstd::arithmetic::div_mod::lemma_fundamental_div_mod(k, 4);
    assert(k / 4 == (k / 4 / w) * w + (k / 4) % w) by (nonlinear_arith)
        requires
            k / 4 == w * ((k / 4) / w) + (k / 4) % w,
    ;
    assert((k / 4 / w) >= 0) by (nonlinear_arith)
        requires
            k >= 0,
            w > 0,
    ;
}

proof fn lemma_index_bound(y: int, x: int, w: int, h: int, j: int)
    requires
        0 <= y < h,
        0 <= x < w,
        0 <= j < 4,
    ensures
        0 <= (y * w + x) * 4 + j < w * h * 4,
{
    assert(0 <= (y * w + x) * 4 + j < w * h * 4) by (nonlinear_arith)
        requires
            0 <= y < h,
            0 <= x < w,
            0 <= j < 4,
    ;
}

proof fn lemma_cell_index(row: int, col: int, gw: int, gh: int)
    requires
        0 <= row < gh,
        0 <= col < gw,
    ensures
        0 <= row * gw + col < gw * gh,
{
    assert(0 <= row * gw + col < gw * gh) by (nonlinear_arith)
        requires
            0 <= row < gh,
            0 <= col < gw,
    ;
}

/// Paints one rasterized glyph into an RGBA image `width` x `height`: the
/// glyph's `gw` x `gh` coverage map goes with its top-left corner at
/// (`top`, `left`); pixels outside the image are clipped and pixels of zero
/// coverage are left alone; a painted pixel takes the colour, its alpha
/// scaled by the coverage (straight alpha, overwriting what was there).
pub fn blit_glyph(
    rgba: &mut Vec<u8>,
    width: usize,
    height: usize,
    top: i64,
    left: i64,
    gw: usize,
    gh: usize,
    coverage: &Vec<u8>,
    color: [u8; 4],
)
    requires
        old(rgba)@.len() == width * height * 4,
        coverage@.len() >= gw * gh,
        width <= i64::MAX,
        height <= i64::MAX,
        gw <= i64::MAX,
        gh <= i64::MAX,
        top + gh <= i64::MAX,
        left + gw <= i64::MAX,
    ensures
        final(rgba)@.len() == old(rgba)@.len(),
        forall|k: int|
            0 <= k < old(rgba)@.len() ==> #[trigger] final(rgba)@[k] == if painted(
                k,
                width as int,
                height as int,
                top as int,
                left as int,
                gw as int,
                gh as int,
                coverage@,
            ) {
                paint_value(k, width as int, top as int, left as int, gw as int, coverage@, color@)
            } else {
                old(rgba)@[k]
            },
{
    let ghost w = width as int;
    let ghost old_px = rgba@;
    let ghost n = rgba@.len() as int;
    let clen = coverage.len();
    let total = rgba.len();
    let mut row: usize = 0;
    while row < gh
        invariant
            rgba@.len() == n == old_px.len() == w * height * 4,
            w == width,
            coverage@.len() >= gw * gh,
            clen == coverage@.len(),
            total == n,
            width <= i64::MAX,
            height <= i64::MAX,
            gw <= i64::MAX,
            gh <= i64::MAX,
            top + gh <= i64::MAX,
            left + gw <= i64::MAX,
            row <= gh,
            forall|k: int|
                0 <= k < n ==> #[trigger] rgba@[k] == if painted(
                    k,
                    w,
                    height as int,
                    top as int,
                    left as int,
                    gw as int,
                    gh as int,
                    coverage@,
                ) && glyph_cell(k, w, top as int, left as int).0 < row {
                    paint_value(k, w, top as int, left as int, gw as int, coverage@, color@)
                } else {
                    old_px[k]
                },
        decreases gh - row,
    {
        let img_y: i64 = top + row as i64;
        let mut col: usize = 0;
        while col < gw
            invariant
                rgba@.len() == n == old_px.len() == w * height * 4,
                w == width,
                coverage@.len() >= gw * gh,
                clen == coverage@.len(),
                total == n,
                width <= i64::MAX,
                height <= i64::MAX,
                gw <= i64::MAX,
                gh <= i64::MAX,
                top + gh <= i64::MAX,
                left + gw <= i64::MAX,
                row < gh,
                img_y == top + row,
                col <= gw,
                forall|k: int|
                    0 <= k < n ==> #[trigger] rgba@[k] == if painted(
                        k,
                        w,
                        height as int,
                        top as int,
                        left as int,
                        gw as int,
                        gh as int,
                        coverage@,
                    ) && (glyph_cell(k, w, top as int, left as int).0 < row || (glyph_cell(
                        k,
                        w,
                        top as int,
                        left as int,
                    ).0 == row && glyph_cell(k, w, top as int, left as int).1 < col)) {
                        paint_value(k, w, top as int, left as int, gw as int, coverage@, color@)
                    } else {
                        old_px[k]
                    },
            decreases gw - col,
        {
            let img_x: i64 = left + col as i64;
            let ghost before = rgba@;
            if img_y >= 0 && img_y < height as i64 && img_x >= 0 && img_x < width as i64 {
                proof {
                    lemma_cell_index(row as int, col as int, gw as int, gh as int);
                }
                let cov = coverage[row * gw + col] as u32;
                if cov != 0 {
                    let y = img_y as usize;
                    let x = img_x as usize;
                    proof {
                        lemma_index_bound(y as int, x as int, w, height as int, 3);
                    }
                    let base = (y * width + x) * 4;
                    let c3 = color[3] as u32;
                    assert(cov * c3 <= 65025) by (nonlinear_arith)
                        requires
                            cov <= 255,
                            c3 <= 255,
                    ;
                    let alpha = ((cov * c3) / 255) as u8;
                    rgba.set(base, color[0]);
                    rgba.set(base + 1, color[1]);
                    rgba.set(base + 2, color[2]);
                    rgba.set(base + 3, alpha);
                    proof {
                        let p = y * w + x;
                        assert forall|k: int| 0 <= k < n implies #[trigger] rgba@[k] == if painted(
                            k,
                            w,
                            height as int,
                            top as int,
                            left as int,
                            gw as int,
                            gh as int,
                            coverage@,
                        ) && (glyph_cell(k, w, top as int, left as int).0 < row || (glyph_cell(
                            k,
                            w,
                            top as int,
                            left as int,
                        ).0 == row && glyph_cell(k, w, top as int, left as int).1 < col + 1)) {
                            paint_value(k, w, top as int, left as int, gw as int, coverage@, color@)
                        } else {
                            old_px[k]
                        } by {
                            lemma_byte_pixel(k, w);
                            let cell = glyph_cell(k, w, top as int, left as int);
                            if base <= k < base + 4 {
                                let j = k - base;
                                lemma_pixel_bytes(y as int, x as int, w, j);
                                assert(k == p * 4 + j);
                                assert(cell == (row as int, col as int));
                                assert(k / 4 / w < height);
                            } else {
                                if cell.0 == row && cell.1 == col {
                                    assert(k / 4 / w == y);
                                    assert((k / 4) % w == x);
                                    assert(k / 4 == p);
                                }
                            }
                        }
                    }
                } else {
                    proof {
                        assert forall|k: int| 0 <= k < n implies #[trigger] rgba@[k] == if painted(
                            k,
                            w,
                            height as int,
                            top as int,
                            left as int,
                            gw as int,
                            gh as int,
                            coverage@,
                        ) && (glyph_cell(k, w, top as int, left as int).0 < row || (glyph_cell(
                            k,
                            w,
                            top as int,
                            left as int,
                        ).0 == row && glyph_cell(k, w, top as int, left as int).1 < col + 1)) {
                            paint_value(k, w, top as int, left as int, gw as int, coverage@, color@)
                        } else {
                            old_px[k]
                        } by {
                            let cell = glyph_cell(k, w, top as int, left as int);
                            if cell.0 == row && cell.1 == col {
                                assert(coverage@[row * gw + col] == 0);
                            }
                        }
                    }
                }
            } else {
                proof {
                    assert forall|k: int| 0 <= k < n implies #[trigger] rgba@[k] == if painted(
                        k,
                        w,
                        height as int,
                        top as int,
                        left as int,
                        gw as int,
                        gh as int,
                        coverage@,
                    ) && (glyph_cell(k, w, top as int, left as int).0 < row || (glyph_cell(
                        k,
                        w,
                        top as int,
                        left as int,
                    ).0 == row && glyph_cell(k, w, top as int, left as int).1 < col + 1)) {
                        paint_value(k, w, top as int, left as int, gw as int, coverage@, color@)
                    } else {
                        old_px[k]
                    } by {
                        lemma_byte_pixel(k, w);
                        let cell = glyph_cell(k, w, top as int, left as int);
                        if cell.0 == row && cell.1 == col && painted(
                            k,
                            w,
                            height as int,
                            top as int,
                            left as int,
                            gw as int,
                            gh as int,
                            coverage@,
                        ) {
                            assert(k / 4 / w == img_y);
                            assert((k / 4) % w == img_x);
                        }
                    }
                }
            }
            col = col + 1;
        }
        row = row + 1;
    }
}

/// Preferred font file name fragments, best first.
pub open spec fn font_candidates() -> Seq<Seq<char>> {
    seq![
        "JetBrainsMono-Regular"@,
        "JetBrainsMonoNL-Regular"@,
        "FiraCode-Regular"@,
        "Hack-Regular"@,
        "CascadiaCode-Regular"@,
        "CascadiaMono-Regular"@,
        "DejaVuSansMono"@,
        "LiberationMono-Regular"@,
        "NotoSansMono-Regular"@,
        "UbuntuMono-R"@,
        "Inconsolata-Regular"@,
    ]
}

/// Index of the first file from `i` on whose path contains `needle`.
pub open spec fn first_with(files: Seq<Seq<char>>, needle: Seq<char>, i: int) -> Option<int>
    decreases files.len() - i,
{
    if i < 0 || i >= files.len() {
        None
    } else if contains_seq(files[i], needle) {
        Some(i)
    } else {
        first_with(files, needle, i + 1)
    }
}

/// Index of the first file from `i` on whose ASCII-lowercased path
/// contains `mono`.
pub open spec fn first_mono(files: Seq<Seq<char>>, i: int) -> Option<int>
    decreases files.len() - i,
{
    if i < 0 || i >= files.len() {
        None
    } else if contains_seq(lower_seq(files[i]), "mono"@) {
        Some(i)
    } else {
        first_mono(files, i + 1)
    }
}

/// The font chosen among candidates `c` and on: for the first candidate
/// some file matches, the first such file; failing all, the first file
/// with `mono` in its name; failing that, the first file.
pub open spec fn font_choice(files: Seq<Seq<char>>, c: int) -> Option<int>
    decreases font_candidates().len() - c,
{
    if files.len() == 0 {
        None
    } else if c < 0 || c >= font_candidates().len() {
        match first_mono(files, 0) {
            Some(i) => Some(i),
            None => Some(0),
        }
    } else {
        match first_with(files, font_candidates()[c], 0) {
            Some(i) => Some(i),
            None => font_choice(files, c + 1),
        }
    }
}

/// Picks the bar font among the font files found (paths, in scan order):
/// see [`font_choice`]. `None` when there are none.
pub fn find_font(files: &Vec<String>) -> (r: Option<String>)
    ensures
        match font_choice(files@.map_values(|s: String| s@), 0) {
            None => r is None,
            Some(i) => r matches Some(f) && f@ == files@[i]@,
        },
{
    let ghost fv = files@.map_values(|s: String| s@);
    if files.len() == 0 {
        return None;
    }
    let cands: [&str; 11] = [
        "JetBrainsMono-Regular",
        "JetBrainsMonoNL-Regular",
        "FiraCode-Regular",
        "Hack-Regular",
        "CascadiaCode-Regular",
        "CascadiaMono-Regular",
        "DejaVuSansMono",
        "LiberationMono-Regular",
        "NotoSansMono-Regular",
        "UbuntuMono-R",
        "Inconsolata-Regular",
    ];
    proof {
        assert(cands@.map_values(|s: &str| s@) =~= font_candidates());
    }
    let mut c: usize = 0;
    while c < 11
        invariant
            c <= 11,
            fv == files@.map_values(|s: String| s@),
            fv.len() > 0,
            cands@.map_values(|s: &str| s@) == font_candidates(),
            font_choice(fv, 0) == font_choice(fv, c as int),
        decreases 11 - c,
    {
        let needle = chars_of(cands[c]);
        proof {
            assert(needle@ == font_candidates()[c as int]);
        }
        let mut i: usize = 0;
        while i < files.len()
            invariant
                i <= fv.len(),
                c < 11,
                fv.len() > 0,
                fv == files@.map_values(|s: String| s@),
                needle@ == font_candidates()[c as int],
                font_choice(fv, 0) == font_choice(fv, c as int),
                first_with(fv, needle@, 0) == first_with(fv, needle@, i as int),
            decreases files.len() - i,
        {
            let hay = chars_of(files[i].as_str());
            assert(hay@ == fv[i as int]);
            if contains_chars(&hay, &needle) {
                return Some(files[i].clone());
            }
            i = i + 1;
        }
        c = c + 1;
    }
    let mono = chars_of("mono");
    assert(font_choice(fv, 0) == match first_mono(fv, 0) {
        Some(i) => Some(i),
        None => Some(0int),
    });
    let mut i: usize = 0;
    while i < files.len()
        invariant
            i <= fv.len(),
            fv == files@.map_values(|s: String| s@),
            mono@ == "mono"@,
            fv.len() > 0,
            font_choice(fv, 0) == match first_mono(fv, 0) {
                Some(i) => Some(i),
                None => Some(0int),
            },
            first_mono(fv, 0) == first_mono(fv, i as int),
        decreases files.len() - i,
    {
        let hay = chars_of(files[i].as_str());
        let low = lower_chars(&hay);
        assert(hay@ == fv[i as int]);
        if contains_chars(&low, &mono) {
            return Some(files[i].clone());
        }
        i = i + 1;
    }
    Some(files[0].clone())
}

} // verus!
