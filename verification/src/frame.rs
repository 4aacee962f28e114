//! Inferring a window's frame from the clip region that a guest selects into
//! a whole-window DC: the border is painted, the client area is the hole.

use vstd::prelude::*;
use crate::geometry::{Rect, rect_contains};

verus! {

/// No cell of `row` in `[a, b)` is occupied.
pub open spec fn all_empty(row: Seq<bool>, a: int, b: int) -> bool {
    forall|x: int| a <= x < b ==> !#[trigger] row[x]
}

/// `[s, e)` is the longest run of empty cells, the first one among runs of
/// that length.
pub open spec fn is_longest_run(row: Seq<bool>, s: int, e: int) -> bool {
    &&& 0 <= s < e <= row.len()
    &&& all_empty(row, s, e)
    &&& forall|a: int, b: int| #![trigger all_empty(row, a, b)]
        0 <= a <= b <= row.len() && all_empty(row, a, b) ==> b - a <= e - s && (b - a == e - s ==> s <= a)
}

pub proof fn lemma_longest_run_unique(row: Seq<bool>, s1: int, e1: int, s2: int, e2: int)
    requires
        is_longest_run(row, s1, e1),
        is_longest_run(row, s2, e2),
    ensures
        s1 == s2 && e1 == e2,
{
    assert(all_empty(row, s1, e1));
    assert(all_empty(row, s2, e2));
}

/// The longest, first run of empty cells of the row, if any cell is empty.
pub open spec fn longest_run(row: Seq<bool>) -> Option<(int, int)> {
    if exists|s: int, e: int| is_longest_run(row, s, e) {
        Some(choose|s: int, e: int| is_longest_run(row, s, e))
    } else {
        None
    }
}

proof fn lemma_longest_run_is(row: Seq<bool>, s: int, e: int)
    requires
        is_longest_run(row, s, e),
    ensures
        longest_run(row) == Some((s, e)),
{
    let (s2, e2) = choose|s: int, e: int| is_longest_run(row, s, e);
    lemma_longest_run_unique(row, s, e, s2, e2);
}

/// The longest run of unoccupied cells `[start, end)` of the row, the first
/// one where several are equally long; `None` when every cell is occupied.
pub fn longest_empty_interval(row: &[bool]) -> (r: Option<(i32, i32)>)
    requires
        row@.len() <= i32::MAX,
    ensures
        r is None <==> forall|x: int| 0 <= x < row@.len() ==> #[trigger] row@[x],
        r matches Some((s, e)) ==> is_longest_run(row@, s as int, e as int),
        r matches Some((s, e)) ==> longest_run(row@) == Some((s as int, e as int)),
        r is None ==> longest_run(row@) is None,
{
    let ghost rs = row@;
    let len = row.len();
    let mut best: Option<(i32, i32)> = None;
    let mut best_width: usize = 0;
    let mut x: usize = 0;
    while x < len
        invariant
            len == rs.len(),
            rs == row@,
            len <= i32::MAX,
            0 <= x <= len,
            x == 0 || x == len || rs[x - 1] || rs[x as int],
            best is None <==> best_width == 0,
            best is None ==> forall|k: int| 0 <= k < x ==> #[trigger] rs[k],
            best matches Some((s, e)) ==> 0 <= s < e <= x && e - s == best_width && all_empty(rs, s as int, e as int),
            forall|a: int, b: int| #![trigger all_empty(rs, a, b)]
                0 <= a <= b <= x && all_empty(rs, a, b) ==> b - a <= best_width
                    && (best matches Some((s, e)) ==> (b - a == best_width && b > a ==> s <= a)),
        decreases len - x,
    {
        if row[x] {
            proof {
                assert forall|a: int, b: int| #![trigger all_empty(rs, a, b)]
                    0 <= a <= b <= x + 1 && all_empty(rs, a, b) implies b - a <= best_width
                        && (best matches Some((s, e)) ==> (b - a == best_width && b > a ==> s <= a)) by {
                    if b == x + 1 && a <= x {
                        assert(!rs[x as int]);
                    }
                }
            }
            x = x + 1;
        } else {
            let start = x;
            proof {
                assert(start == 0 || rs[start - 1]);
            }
            while x < len && !row[x]
                invariant
                    len == rs.len(),
                    rs == row@,
                    start <= x <= len,
                    all_empty(rs, start as int, x as int),
                decreases len - x,
            {
                x = x + 1;
            }
            let width = x - start;
            proof {
                assert(x < len ==> rs[x as int]);
                // an empty interval ending after `start` begins at or after it
                assert forall|a: int, b: int| #![trigger all_empty(rs, a, b)]
                    0 <= a <= b <= x && all_empty(rs, a, b) && b > start implies start <= a by {
                    if a < start {
                        assert(!rs[start - 1]);
                    }
                }
            }
            if width > best_width {
                best_width = width;
                best = Some((start as i32, x as i32));
            }
            proof {
                assert forall|a: int, b: int| #![trigger all_empty(rs, a, b)]
                    0 <= a <= b <= x && all_empty(rs, a, b) implies b - a <= best_width
                        && (best matches Some((s, e)) ==> (b - a == best_width && b > a ==> s <= a)) by {
                    if b > start {
                        assert(start <= a);
                    } else {
                        assert(b <= start);
                    }
                }
                if best is None {
                    assert forall|k: int| 0 <= k < x implies #[trigger] rs[k] by {
                        if k >= start {
                            assert(all_empty(rs, k, k + 1));
                        }
                    }
                }
            }
        }
    }
    proof {
        match best {
            Some((s, e)) => {
                assert(is_longest_run(rs, s as int, e as int));
                lemma_longest_run_is(rs, s as int, e as int);
                assert(!rs[s as int]);
            },
            None => {
                if exists|s: int, e: int| is_longest_run(rs, s, e) {
                    let (s, e) = choose|s: int, e: int| is_longest_run(rs, s, e);
                    assert(!rs[s]);
                }
            },
        }
    }
    best
}

/// Border thickness of a window on each side.
#[derive(Clone, Copy, Debug, PartialEq, Eq, Structural)]
pub struct WindowFrameMetrics {
    pub left: i32,
    pub top: i32,
    pub right: i32,
    pub bottom: i32,
}

/// Larger windows are not examined cell by cell.
pub const MAX_FRAME_INFERENCE_PIXELS: i64 = 4_000_000;

pub open spec fn clamp_spec(v: i32, lo: i32, hi: i32) -> i32 {
    if v < lo { lo } else if v > hi { hi } else { v }
}

fn clamp_i32(v: i32, lo: i32, hi: i32) -> (r: i32)
    ensures
        r == clamp_spec(v, lo, hi),
{
    if v < lo { lo } else if v > hi { hi } else { v }
}

/// The rectangle clamped to the window `[0, width) x [0, height)`.
pub open spec fn clip_to_window(r: Rect, width: i32, height: i32) -> Rect {
    (clamp_spec(r.0, 0, width), clamp_spec(r.1, 0, height), clamp_spec(r.2, 0, width), clamp_spec(r.3, 0, height))
}

/// Some clip rectangle paints the cell `(x, y)` of the window.
pub open spec fn cell_occupied(rects: Seq<Rect>, width: i32, height: i32, x: int, y: int) -> bool {
    exists|i: int| 0 <= i < rects.len() && #[trigger] rect_contains(clip_to_window(rects[i], width, height), x, y)
}

/// Row `y` of the painted cells.
pub open spec fn occupancy_row(rects: Seq<Rect>, width: i32, height: i32, y: int) -> Seq<bool> {
    Seq::new(width as nat, |x: int| cell_occupied(rects, width, height, x, y))
}

/// The longest unpainted run of row `y`, when it touches neither side.
pub open spec fn row_hole(rects: Seq<Rect>, width: i32, height: i32, y: int) -> Option<(int, int)> {
    match longest_run(occupancy_row(rects, width, height, y)) {
        Some((l, r)) => if l > 0 && r < width { Some((l, r)) } else { None },
        None => None,
    }
}

/// Rows `[t, b)` are a maximal run of rows whose hole is `[l, r)`.
pub open spec fn is_hole_group(rects: Seq<Rect>, width: i32, height: i32, l: int, r: int, t: int, b: int) -> bool {
    &&& 0 <= t < b <= height
    &&& forall|y: int| t <= y < b ==> #[trigger] row_hole(rects, width, height, y) == Some((l, r))
    &&& (t == 0 || row_hole(rects, width, height, t - 1) != Some((l, r)))
    &&& (b == height || row_hole(rects, width, height, b) != Some((l, r)))
}

/// A hole group with painted rows above and below it.
pub open spec fn is_frame_candidate(rects: Seq<Rect>, width: i32, height: i32, l: int, r: int, t: int, b: int) -> bool {
    is_hole_group(rects, width, height, l, r, t, b) && t > 0 && b < height
}

/// The candidate with the largest area; of equal ones, the lowest.
pub open spec fn is_chosen_frame(rects: Seq<Rect>, width: i32, height: i32, l: int, r: int, t: int, b: int) -> bool {
    &&& is_frame_candidate(rects, width, height, l, r, t, b)
    &&& forall|l2: int, r2: int, t2: int, b2: int| #[trigger] is_frame_candidate(rects, width, height, l2, r2, t2, b2)
        ==> (r2 - l2) * (b2 - t2) < (r - l) * (b - t) || ((r2 - l2) * (b2 - t2) == (r - l) * (b - t) && t2 <= t)
}

pub open spec fn has_frame_candidate(rects: Seq<Rect>, width: i32, height: i32) -> bool {
    exists|l: int, r: int, t: int, b: int| #[trigger] is_frame_candidate(rects, width, height, l, r, t, b)
}

/// The window is small enough and shaped so that its cells are examined.
pub open spec fn frame_inference_applies(width: i32, height: i32, rects: Seq<Rect>) -> bool {
    width > 2 && height > 2 && rects.len() > 0 && width * height <= MAX_FRAME_INFERENCE_PIXELS
}

fn occupancy_row_of(rects: &[Rect], width: i32, height: i32, y: i32) -> (row: Vec<bool>)
    requires
        0 < width,
        0 < height,
        0 <= y < height,
    ensures
        row@ == occupancy_row(rects@, width, height, y as int),
{
    let ghost rs = rects@;
    let mut row: Vec<bool> = Vec::new();
    let mut x: i32 = 0;
    while x < width
        invariant
            0 <= x <= width,
            row@.len() == x,
            forall|k: int| 0 <= k < x ==> !#[trigger] row@[k],
        decreases width - x,
    {
        row.push(false);
        x = x + 1;
    }
    let mut i: usize = 0;
    while i < rects.len()
        invariant
            rs == rects@,
            0 < width,
            0 < height,
            0 <= y < height,
            0 <= i <= rs.len(),
            row@.len() == width,
            forall|k: int| #![trigger row@[k]] 0 <= k < width ==> row@[k] == exists|j: int| 0 <= j < i
                && #[trigger] rect_contains(clip_to_window(rs[j], width, height), k, y as int),
        decreases rs.len() - i,
    {
        let rect = rects[i];
        let c = (clamp_i32(rect.0, 0, width), clamp_i32(rect.1, 0, height), clamp_i32(rect.2, 0, width), clamp_i32(rect.3, 0, height));
        let ghost before = row@;
        if c.1 <= y && y < c.3 && c.0 < c.2 {
            let mut xx: i32 = c.0;
            while xx < c.2
                invariant
                    rs == rects@,
                    0 <= c.0 <= xx <= c.2 <= width,
                    row@.len() == width,
                    before.len() == width,
                    forall|k: int| #![trigger row@[k]] 0 <= k < width ==> row@[k] == (before[k] || (c.0 <= k < xx)),
                decreases c.2 - xx,
            {
                row.set(xx as usize, true);
                xx = xx + 1;
            }
        }
        proof {
            assert(c == clip_to_window(rs[i as int], width, height));
            assert forall|k: int| #![trigger row@[k]] 0 <= k < width implies row@[k] == exists|j: int| 0 <= j < i + 1
                && #[trigger] rect_contains(clip_to_window(rs[j], width, height), k, y as int) by {
                if rect_contains(c, k, y as int) {
                    assert(rect_contains(clip_to_window(rs[i as int], width, height), k, y as int));
                }
                if exists|j: int| 0 <= j < i + 1 && #[trigger] rect_contains(clip_to_window(rs[j], width, height), k, y as int) {
                    let j = choose|j: int| 0 <= j < i + 1 && #[trigger] rect_contains(clip_to_window(rs[j], width, height), k, y as int);
                    if j < i {
                        assert(before[k]);
                    }
                }
            }
        }
        i = i + 1;
    }
    proof {
        assert(row@ =~= occupancy_row(rs, width, height, y as int));
    }
    row
}

fn row_hole_of(rects: &[Rect], width: i32, height: i32, y: i32) -> (h: Option<(i32, i32)>)
    requires
        0 < width,
        0 < height,
        0 <= y < height,
    ensures
        match h {
            Some((l, r)) => row_hole(rects@, width, height, y as int) == Some((l as int, r as int)) && 0 < l < r < width,
            None => row_hole(rects@, width, height, y as int) is None,
        },
{
    let row = occupancy_row_of(rects, width, height, y);
    match longest_empty_interval(row.as_slice()) {
        Some((l, r)) => {
            if l > 0 && r < width && l < r {
                Some((l, r))
            } else {
                None
            }
        },
        None => None,
    }
}

proof fn lemma_group_ending_at(rects: Seq<Rect>, width: i32, height: i32, l: int, r: int, t: int, y: int,
    l2: int, r2: int, t2: int)
    requires
        0 <= t < y,
        forall|yy: int| t <= yy < y ==> #[trigger] row_hole(rects, width, height, yy) == Some((l, r)),
        t == 0 || row_hole(rects, width, height, t - 1) != Some((l, r)),
        is_hole_group(rects, width, height, l2, r2, t2, y),
    ensures
        l2 == l && r2 == r && t2 == t,
{
    assert(row_hole(rects, width, height, y - 1) == Some((l, r)));
    assert(row_hole(rects, width, height, y - 1) == Some((l2, r2)));
    if t2 < t {
        assert(row_hole(rects, width, height, t - 1) == Some((l2, r2)));
    }
    if t2 > t {
        assert(row_hole(rects, width, height, t2 - 1) == Some((l, r)));
    }
}

proof fn lemma_groups_ordered(rects: Seq<Rect>, width: i32, height: i32,
    l1: int, r1: int, t1: int, b1: int, l2: int, r2: int, t2: int, b2: int)
    requires
        is_hole_group(rects, width, height, l1, r1, t1, b1),
        is_hole_group(rects, width, height, l2, r2, t2, b2),
        b1 < b2,
    ensures
        b1 <= t2,
{
    if t2 < b1 {
        assert(row_hole(rects, width, height, b1 - 1) == Some((l1, r1)));
        assert(row_hole(rects, width, height, b1 - 1) == Some((l2, r2)));
        assert(row_hole(rects, width, height, b1) == Some((l2, r2)));
    }
}

/// Reads the frame of a window off the clip rectangles of its border: the
/// client area is the largest block of rows sharing the same unpainted hole,
/// with painted rows above and below it; its distances to the window's edges
/// are the frame.
pub fn infer_guest_frame_from_clip_rects(width: i32, height: i32, rects: &[Rect]) -> (m: Option<WindowFrameMetrics>)
    ensures
        !frame_inference_applies(width, height, rects@) ==> m is None,
        frame_inference_applies(width, height, rects@) ==> (m is Some <==> has_frame_candidate(rects@, width, height)),
        m matches Some(f) ==> is_chosen_frame(rects@, width, height, f.left as int, width - f.right, f.top as int, height - f.bottom),
        m matches Some(f) ==> f.left > 0 && f.top > 0 && f.right > 0 && f.bottom > 0 && f.left + f.right < width && f.top + f.bottom < height,
{
    let ghost rs = rects@;
    if width <= 2 || height <= 2 || rects.len() == 0 {
        return None;
    }
    proof {
        assert((width as i64) * (height as i64) <= 0x4000_0000_0000_0000) by (nonlinear_arith)
            requires
                2 < width <= 0x7FFF_FFFF,
                2 < height <= 0x7FFF_FFFF;
    }
    let area = (width as i64) * (height as i64);
    proof {
        assert(area == width * height);
        assert(width * height > 0) by (nonlinear_arith)
            requires
                2 < width,
                2 < height;
    }
    if area <= 0 || area > MAX_FRAME_INFERENCE_PIXELS {
        return None;
    }
    let mut has_any_rect = false;
    let mut i: usize = 0;
    while i < rects.len()
        invariant
            0 <= i <= rects@.len(),
            has_any_rect ==> exists|j: int| 0 <= j < rects@.len() && #[trigger] crate::geometry::rect_nonempty(clip_to_window(rects@[j], width, height)),
            !has_any_rect ==> forall|j: int| 0 <= j < i ==> !#[trigger] crate::geometry::rect_nonempty(clip_to_window(rects@[j], width, height)),
        decreases rects@.len() - i,
    {
        let rect = rects[i];
        let c = (clamp_i32(rect.0, 0, width), clamp_i32(rect.1, 0, height), clamp_i32(rect.2, 0, width), clamp_i32(rect.3, 0, height));
        proof {
            assert(c == clip_to_window(rects@[i as int], width, height));
        }
        if c.0 < c.2 && c.1 < c.3 {
            proof {
                assert(crate::geometry::rect_nonempty(clip_to_window(rects@[i as int], width, height)));
            }
            has_any_rect = true;
        }
        i = i + 1;
    }
    if !has_any_rect {
        proof {
            // nothing is painted, so every row's longest run is the whole row
            if has_frame_candidate(rs, width, height) {
                let (l, r, t, b) = choose|l: int, r: int, t: int, b: int| #[trigger] is_frame_candidate(rs, width, height, l, r, t, b);
                assert(row_hole(rs, width, height, t) == Some((l, r)));
                let row = occupancy_row(rs, width, height, t);
                assert forall|x: int| 0 <= x < width implies !#[trigger] row[x] by {
                    if cell_occupied(rs, width, height, x, t) {
                        let j = choose|j: int| 0 <= j < rs.len() && #[trigger] rect_contains(clip_to_window(rs[j], width, height), x, t);
                        assert(crate::geometry::rect_nonempty(clip_to_window(rs[j], width, height)));
                    }
                }
                assert(all_empty(row, 0, width as int));
                let (s, e) = longest_run(row)->0;
                assert(is_longest_run(row, s, e)) by {
                    let (s2, e2) = choose|s: int, e: int| is_longest_run(row, s, e);
                }
                assert(s <= 0);
            }
        }
        return None;
    }
    proof {
        assert(width * height <= 4_000_000);
    }
    let mut best: Option<(i32, i32, i32, i32)> = None;
    let mut best_area: i32 = 0;
    let mut current: Option<(i32, i32, i32)> = None;
    let mut y: i32 = 0;
    while y < height
        invariant
            rs == rects@,
            2 < width,
            2 < height,
            width * height <= 4_000_000,
            0 <= y <= height,
            match current {
                Some((l, r, t)) => 0 <= t < y && 0 < l < r < width
                    && (forall|yy: int| t <= yy < y ==> #[trigger] row_hole(rs, width, height, yy) == Some((l as int, r as int)))
                    && (t == 0 || row_hole(rs, width, height, t - 1) != Some((l as int, r as int))),
                None => y == 0 || row_hole(rs, width, height, y - 1) is None,
            },
            match best {
                Some((l, r, t, b)) => is_frame_candidate(rs, width, height, l as int, r as int, t as int, b as int) && b < y
                    && best_area == (r - l) * (b - t)
                    && forall|l2: int, r2: int, t2: int, b2: int| #[trigger] is_frame_candidate(rs, width, height, l2, r2, t2, b2) && b2 < y
                        ==> (r2 - l2) * (b2 - t2) < (r - l) * (b - t) || ((r2 - l2) * (b2 - t2) == (r - l) * (b - t) && t2 <= t),
                None => forall|l2: int, r2: int, t2: int, b2: int| #[trigger] is_frame_candidate(rs, width, height, l2, r2, t2, b2) ==> b2 >= y,
            },
        decreases height - y,
    {
        let hole = row_hole_of(rects, width, height, y);
        let ghost old_best = best;
        let ghost old_current = current;
        let mut closed: Option<(i32, i32, i32)> = None;
        match current {
            Some((l, r, t)) => {
                let same = match hole {
                    Some((nl, nr)) => nl == l && nr == r,
                    None => false,
                };
                if !same {
                    closed = Some((l, r, t));
                    current = match hole {
                        Some((nl, nr)) => Some((nl, nr, y)),
                        None => None,
                    };
                }
            },
            None => {
                current = match hole {
                    Some((nl, nr)) => Some((nl, nr, y)),
                    None => None,
                };
            },
        }
        match closed {
            Some((l, r, t)) => {
                proof {
                    assert(is_hole_group(rs, width, height, l as int, r as int, t as int, y as int));
                    assert((r - l) * (y - t) <= width * height) by (nonlinear_arith)
                        requires
                            0 < r - l <= width,
                            0 < y - t <= height;
                }
                if t > 0 {
                    let a = (r - l) * (y - t);
                    let take = match best {
                        None => true,
                        Some(_) => a >= best_area,
                    };
                    if take {
                        best = Some((l, r, t, y));
                        best_area = a;
                    }
                }
            },
            None => {},
        }
        proof {
            // every candidate ending at row `y` is the group just closed
            assert forall|l2: int, r2: int, t2: int, b2: int| #[trigger] is_frame_candidate(rs, width, height, l2, r2, t2, b2) && b2 == y
                implies closed matches Some((l, r, t)) && l2 == l && r2 == r && t2 == t by {
                match old_current {
                    Some((l, r, t)) => {
                        lemma_group_ending_at(rs, width, height, l as int, r as int, t as int, y as int, l2, r2, t2);
                        if closed is None {
                            assert(row_hole(rs, width, height, y as int) == Some((l as int, r as int)));
                        }
                    },
                    None => {
                        assert(row_hole(rs, width, height, y - 1) == Some((l2, r2)));
                    },
                }
            }
            match best {
                Some((l, r, t, b)) => {
                    assert forall|l2: int, r2: int, t2: int, b2: int| #[trigger] is_frame_candidate(rs, width, height, l2, r2, t2, b2) && b2 < y + 1
                        implies (r2 - l2) * (b2 - t2) < (r - l) * (b - t) || ((r2 - l2) * (b2 - t2) == (r - l) * (b - t) && t2 <= t) by {
                        if b2 == y {
                            assert(closed matches Some((cl, cr, ct)) && l2 == cl && r2 == cr && t2 == ct);
                        } else {
                            match old_best {
                                Some((ol, or, ot, ob)) => {
                                    if ob != b {
                                        // the group just closed replaced the old best; it lies below it
                                        lemma_groups_ordered(rs, width, height, ol as int, or as int, ot as int, ob as int,
                                            l as int, r as int, t as int, b as int);
                                    }
                                },
                                None => {},
                            }
                        }
                    }
                },
                None => {
                    assert forall|l2: int, r2: int, t2: int, b2: int| #[trigger] is_frame_candidate(rs, width, height, l2, r2, t2, b2)
                        implies b2 >= y + 1 by {
                        if b2 == y {
                            assert(closed matches Some((cl, cr, ct)) && l2 == cl && r2 == cr && t2 == ct);
                        }
                    }
                },
            }
        }
        y = y + 1;
    }
    match best {
        None => None,
        Some((l, r, t, b)) => {
            proof {
                let row = occupancy_row(rs, width, height, t as int);
                assert(row_hole(rs, width, height, t as int) == Some((l as int, r as int)));
                let (s0, e0) = longest_run(row)->0;
                assert(is_longest_run(row, s0, e0)) by {
                    let (s2, e2) = choose|s: int, e: int| is_longest_run(row, s, e);
                }
                assert(0 < l < r < width);
            }
            let metrics = WindowFrameMetrics { left: l, top: t, right: width - r, bottom: height - b };
            if metrics.left <= 0 || metrics.top <= 0 || metrics.right <= 0 || metrics.bottom <= 0
                || metrics.left + metrics.right >= width || metrics.top + metrics.bottom >= height {
                return None;
            }
            Some(metrics)
        },
    }
}

} // verus!
