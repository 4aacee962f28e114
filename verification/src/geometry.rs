//! Axis-aligned rectangles `(left, top, right, bottom)` with half-open extents.

use vstd::prelude::*;

verus! {

/// A rectangle covering `left <= x < right`, `top <= y < bottom`.
pub type Rect = (i32, i32, i32, i32);

/// The rectangle covers at least one point.
pub open spec fn rect_nonempty(r: Rect) -> bool {
    r.0 < r.2 && r.1 < r.3
}

/// The point `(x, y)` lies in the rectangle.
pub open spec fn rect_contains(r: Rect, x: int, y: int) -> bool {
    r.0 <= x < r.2 && r.1 <= y < r.3
}

/// The point `(x, y)` lies in at least one rectangle of the list.
pub open spec fn rects_contain(rs: Seq<Rect>, x: int, y: int) -> bool {
    exists|i: int| 0 <= i < rs.len() && #[trigger] rect_contains(rs[i], x, y)
}

/// Two rectangle lists cover exactly the same points.
pub open spec fn same_coverage(a: Seq<Rect>, b: Seq<Rect>) -> bool {
    forall|x: int, y: int| rects_contain(a, x, y) == rects_contain(b, x, y)
}

pub open spec fn imax(a: i32, b: i32) -> i32 {
    if a >= b { a } else { b }
}

pub open spec fn imin(a: i32, b: i32) -> i32 {
    if a <= b { a } else { b }
}

pub open spec fn spec_normalize_rect(r: Rect) -> Option<Rect> {
    if rect_nonempty(r) { Some(r) } else { None }
}

/// The overlap of two rectangles, if it is not empty.
pub open spec fn spec_intersect_rect(a: Rect, b: Rect) -> Option<Rect> {
    spec_normalize_rect((imax(a.0, b.0), imax(a.1, b.1), imin(a.2, b.2), imin(a.3, b.3)))
}

pub fn max_i32(a: i32, b: i32) -> (r: i32)
    ensures
        r == imax(a, b),
{
    if a >= b { a } else { b }
}

pub fn min_i32(a: i32, b: i32) -> (r: i32)
    ensures
        r == imin(a, b),
{
    if a <= b { a } else { b }
}

/// Keeps a rectangle only when it covers at least one point.
pub fn normalize_rect(rect: Rect) -> (r: Option<Rect>)
    ensures
        r == spec_normalize_rect(rect),
{
    if rect.0 < rect.2 && rect.1 < rect.3 {
        Some(rect)
    } else {
        None
    }
}

/// Overlap of two rectangles, `None` when they share no point.
pub fn intersect_rect(a: Rect, b: Rect) -> (r: Option<Rect>)
    ensures
        r == spec_intersect_rect(a, b),
        r is None <==> (forall|x: int, y: int| !(rect_contains(a, x, y) && rect_contains(b, x, y))),
        r matches Some(c) ==> forall|x: int, y: int|
            rect_contains(c, x, y) <==> rect_contains(a, x, y) && rect_contains(b, x, y),
{
    proof {
        lemma_intersect_contains(a, b);
    }
    normalize_rect((max_i32(a.0, b.0), max_i32(a.1, b.1), min_i32(a.2, b.2), min_i32(a.3, b.3)))
}

/// A point lies in the overlap exactly when it lies in both rectangles.
pub proof fn lemma_intersect_contains(a: Rect, b: Rect)
    ensures
        spec_intersect_rect(a, b) is None <==> (forall|x: int, y: int|
            !(rect_contains(a, x, y) && rect_contains(b, x, y))),
        spec_intersect_rect(a, b) matches Some(c) ==> forall|x: int, y: int|
            rect_contains(c, x, y) <==> rect_contains(a, x, y) && rect_contains(b, x, y),
{
    let c = (imax(a.0, b.0), imax(a.1, b.1), imin(a.2, b.2), imin(a.3, b.3));
    assert forall|x: int, y: int| rect_contains(c, x, y) <==> rect_contains(a, x, y) && rect_contains(b, x, y) by {}
    if !rect_nonempty(c) {
        assert forall|x: int, y: int| !(rect_contains(a, x, y) && rect_contains(b, x, y)) by {}
    } else {
        assert(rect_contains(a, c.0 as int, c.1 as int) && rect_contains(b, c.0 as int, c.1 as int));
    }
}


proof fn lemma_rects_push_g(s: Seq<Rect>, r: Rect, x: int, y: int)
    ensures
        rects_contain(s.push(r), x, y) == (rects_contain(s, x, y) || rect_contains(r, x, y)),
{
    let t = s.push(r);
    if rects_contain(t, x, y) {
        let i = choose|i: int| 0 <= i < t.len() && #[trigger] rect_contains(t[i], x, y);
        if i < s.len() {
            assert(t[i] == s[i]);
        }
    }
    if rects_contain(s, x, y) {
        let i = choose|i: int| 0 <= i < s.len() && #[trigger] rect_contains(s[i], x, y);
        assert(t[i] == s[i]);
    }
    if rect_contains(r, x, y) {
        assert(t[s.len() as int] == r);
    }
}

proof fn lemma_rects_concat_g(a: Seq<Rect>, b: Seq<Rect>, x: int, y: int)
    ensures
        rects_contain(a + b, x, y) == (rects_contain(a, x, y) || rects_contain(b, x, y)),
{
    let c = a + b;
    if rects_contain(c, x, y) {
        let i = choose|i: int| 0 <= i < c.len() && #[trigger] rect_contains(c[i], x, y);
        if i < a.len() {
            assert(c[i] == a[i]);
        } else {
            assert(c[i] == b[i - a.len()]);
        }
    }
    if rects_contain(a, x, y) {
        let i = choose|i: int| 0 <= i < a.len() && #[trigger] rect_contains(a[i], x, y);
        assert(c[i] == a[i]);
    }
    if rects_contain(b, x, y) {
        let i = choose|i: int| 0 <= i < b.len() && #[trigger] rect_contains(b[i], x, y);
        assert(c[i + a.len()] == b[i]);
    }
}

/// `opt` written as a list of zero or one rectangle.
pub open spec fn opt_rect_seq(opt: Option<Rect>) -> Seq<Rect> {
    match opt {
        Some(r) => seq![r],
        None => Seq::empty(),
    }
}

/// The pieces of `a` left after cutting out `b`: the part above the overlap,
/// the part below it, then the parts to its left and right.
pub open spec fn spec_subtract_rect(a: Rect, b: Rect) -> Seq<Rect> {
    match spec_intersect_rect(a, b) {
        None => seq![a],
        Some(i) => opt_rect_seq(spec_normalize_rect((a.0, a.1, a.2, i.1)))
            + opt_rect_seq(spec_normalize_rect((a.0, i.3, a.2, a.3)))
            + opt_rect_seq(spec_normalize_rect((a.0, i.1, i.0, i.3)))
            + opt_rect_seq(spec_normalize_rect((i.2, i.1, a.2, i.3))),
    }
}

proof fn lemma_opt_rect_seq(opt: Option<Rect>, x: int, y: int)
    ensures
        rects_contain(opt_rect_seq(opt), x, y) == (opt matches Some(r) && rect_contains(r, x, y)),
{
    if let Some(r) = opt {
        if rect_contains(r, x, y) {
            assert(rect_contains(opt_rect_seq(opt)[0], x, y));
        }
    }
}

pub proof fn lemma_subtract_rect_contains(a: Rect, b: Rect, x: int, y: int)
    ensures
        rects_contain(spec_subtract_rect(a, b), x, y) == (rect_contains(a, x, y) && !rect_contains(b, x, y)),
{
    lemma_intersect_contains(a, b);
    match spec_intersect_rect(a, b) {
        None => {
            assert(rect_contains(seq![a][0], x, y) == rect_contains(a, x, y));
        },
        Some(i) => {
            let p0 = spec_normalize_rect((a.0, a.1, a.2, i.1));
            let p1 = spec_normalize_rect((a.0, i.3, a.2, a.3));
            let p2 = spec_normalize_rect((a.0, i.1, i.0, i.3));
            let p3 = spec_normalize_rect((i.2, i.1, a.2, i.3));
            lemma_opt_rect_seq(p0, x, y);
            lemma_opt_rect_seq(p1, x, y);
            lemma_opt_rect_seq(p2, x, y);
            lemma_opt_rect_seq(p3, x, y);
            lemma_rects_concat_g(opt_rect_seq(p0), opt_rect_seq(p1), x, y);
            lemma_rects_concat_g(opt_rect_seq(p0) + opt_rect_seq(p1), opt_rect_seq(p2), x, y);
            lemma_rects_concat_g(opt_rect_seq(p0) + opt_rect_seq(p1) + opt_rect_seq(p2), opt_rect_seq(p3), x, y);
            assert(rect_contains(i, x, y) == (rect_contains(a, x, y) && rect_contains(b, x, y)));
        },
    }
}

fn push_opt(v: &mut Vec<Rect>, opt: Option<Rect>)
    ensures
        final(v)@ == old(v)@ + opt_rect_seq(opt),
{
    if let Some(r) = opt {
        v.push(r);
        proof {
            assert(final(v)@ =~= old(v)@ + seq![r]);
        }
    } else {
        assert(old(v)@ + opt_rect_seq(opt) =~= old(v)@);
    }
}

/// Cuts rectangle `b` out of rectangle `a`, giving at most four pieces.
pub fn subtract_rect(a: Rect, b: Rect) -> (out: Vec<Rect>)
    ensures
        out@ == spec_subtract_rect(a, b),
        forall|x: int, y: int| rects_contain(out@, x, y) == (rect_contains(a, x, y) && !rect_contains(b, x, y)),
{
    proof {
        assert forall|x: int, y: int| rects_contain(spec_subtract_rect(a, b), x, y) == (rect_contains(a, x, y) && !rect_contains(b, x, y)) by {
            lemma_subtract_rect_contains(a, b, x, y);
        }
    }
    let inter = intersect_rect(a, b);
    match inter {
        None => {
            let mut v = Vec::new();
            v.push(a);
            proof {
                assert(v@ =~= seq![a]);
            }
            v
        },
        Some(i) => {
            let mut rects: Vec<Rect> = Vec::new();
            push_opt(&mut rects, normalize_rect((a.0, a.1, a.2, i.1)));
            push_opt(&mut rects, normalize_rect((a.0, i.3, a.2, a.3)));
            push_opt(&mut rects, normalize_rect((a.0, i.1, i.0, i.3)));
            push_opt(&mut rects, normalize_rect((i.2, i.1, a.2, i.3)));
            proof {
                assert(rects@ =~= spec_subtract_rect(a, b));
            }
            rects
        },
    }
}

/// The point lies in `region` and in none of `subtractors`.
pub open spec fn region_minus_contains(region: Seq<Rect>, subtractors: Seq<Rect>, x: int, y: int) -> bool {
    rects_contain(region, x, y) && !rects_contain(subtractors, x, y)
}

/// Removes each subtracting rectangle in turn from every piece of the region.
pub fn subtract_region_rects(region: &[Rect], subtractors: &[Rect]) -> (out: Vec<Rect>)
    ensures
        forall|x: int, y: int| rects_contain(out@, x, y) == region_minus_contains(region@, subtractors@, x, y),
{
    let mut current: Vec<Rect> = Vec::new();
    let mut i: usize = 0;
    while i < region.len()
        invariant
            0 <= i <= region@.len(),
            current@ == region@.subrange(0, i as int),
        decreases region@.len() - i,
    {
        current.push(region[i]);
        proof {
            assert(current@ =~= region@.subrange(0, i + 1));
        }
        i = i + 1;
    }
    proof {
        assert(current@ =~= region@);
    }
    let mut k: usize = 0;
    while k < subtractors.len()
        invariant
            0 <= k <= subtractors@.len(),
            forall|x: int, y: int| rects_contain(current@, x, y) == region_minus_contains(region@, subtractors@.subrange(0, k as int), x, y),
        decreases subtractors@.len() - k,
    {
        let sub = subtractors[k];
        let mut next: Vec<Rect> = Vec::new();
        let mut j: usize = 0;
        while j < current.len()
            invariant
                0 <= j <= current@.len(),
                0 <= k < subtractors@.len(),
                sub == subtractors@[k as int],
                forall|x: int, y: int| rects_contain(current@, x, y) == region_minus_contains(region@, subtractors@.subrange(0, k as int), x, y),
                forall|x: int, y: int| #![trigger rects_contain(next@, x, y)] rects_contain(next@, x, y) == (rects_contain(current@.subrange(0, j as int), x, y) && !rect_contains(sub, x, y)),
            decreases current@.len() - j,
        {
            let pieces = subtract_rect(current[j], sub);
            let ghost before = next@;
            assert forall|x: int, y: int| rects_contain(before, x, y) == (rects_contain(current@.subrange(0, j as int), x, y) && !rect_contains(sub, x, y)) by {
                assert(rects_contain(next@, x, y) == (rects_contain(current@.subrange(0, j as int), x, y) && !rect_contains(sub, x, y)));
            }
            let mut p: usize = 0;
            while p < pieces.len()
                invariant
                    0 <= p <= pieces@.len(),
                    0 <= j < current@.len(),
                    forall|x: int, y: int| rects_contain(before, x, y) == (rects_contain(current@.subrange(0, j as int), x, y) && !rect_contains(sub, x, y)),
                    forall|x: int, y: int| rects_contain(pieces@, x, y) == (rect_contains(current@[j as int], x, y) && !rect_contains(sub, x, y)),
                    next@ == before + pieces@.subrange(0, p as int),
                decreases pieces@.len() - p,
            {
                next.push(pieces[p]);
                proof {
                    assert(next@ =~= before + pieces@.subrange(0, p + 1));
                }
                p = p + 1;
            }
            proof {
                assert(pieces@.subrange(0, pieces@.len() as int) =~= pieces@);
                assert(current@.subrange(0, j + 1) =~= current@.subrange(0, j as int).push(current@[j as int]));
                assert forall|x: int, y: int| #![trigger rects_contain(next@, x, y)] rects_contain(next@, x, y) == (rects_contain(current@.subrange(0, j + 1), x, y) && !rect_contains(sub, x, y)) by {
                    lemma_rects_concat_g(before, pieces@, x, y);
                    lemma_rects_push_g(current@.subrange(0, j as int), current@[j as int], x, y);
                }
            }
            j = j + 1;
        }
        proof {
            assert(current@.subrange(0, current@.len() as int) =~= current@);
            assert(subtractors@.subrange(0, k + 1) =~= subtractors@.subrange(0, k as int).push(sub));
            assert forall|x: int, y: int| rects_contain(next@, x, y) == region_minus_contains(region@, subtractors@.subrange(0, k + 1), x, y) by {
                lemma_rects_push_g(subtractors@.subrange(0, k as int), sub, x, y);
            }
        }
        current = next;
        k = k + 1;
    }
    proof {
        assert(subtractors@.subrange(0, subtractors@.len() as int) =~= subtractors@);
    }
    current
}

/// With no clip region every point passes; otherwise the point must lie in
/// one of the clip rectangles.
pub fn point_in_clip_rects(clip_rects: &Option<Vec<Rect>>, x: i32, y: i32) -> (r: bool)
    ensures
        r == (clip_rects is None || rects_contain(clip_rects->0@, x as int, y as int)),
{
    match clip_rects {
        None => true,
        Some(rects) => {
            let mut i: usize = 0;
            while i < rects.len()
                invariant
                    0 <= i <= rects@.len(),
                    clip_rects is Some && clip_rects->0@ == rects@,
                    forall|k: int| 0 <= k < i ==> !rect_contains(#[trigger] rects@[k], x as int, y as int),
                decreases rects@.len() - i,
            {
                let r = rects[i];
                if x >= r.0 && x < r.2 && y >= r.1 && y < r.3 {
                    assert(rect_contains(rects@[i as int], x as int, y as int));
                    assert(rects_contain(rects@, x as int, y as int));
                    return true;
                }
                i = i + 1;
            }
            false
        },
    }
}

/// The non-empty overlaps of `target` with each clip rectangle, in clip order.
pub open spec fn spec_clip_pieces(clip: Seq<Rect>, target: Rect) -> Seq<Rect>
    decreases clip.len(),
{
    if clip.len() == 0 {
        Seq::empty()
    } else {
        spec_clip_pieces(clip.drop_last(), target) + opt_rect_seq(spec_intersect_rect(target, clip.last()))
    }
}

proof fn lemma_clip_pieces_contain(clip: Seq<Rect>, target: Rect, x: int, y: int)
    ensures
        rects_contain(spec_clip_pieces(clip, target), x, y) == (rect_contains(target, x, y) && rects_contain(clip, x, y)),
    decreases clip.len(),
{
    if clip.len() > 0 {
        lemma_clip_pieces_contain(clip.drop_last(), target, x, y);
        lemma_intersect_contains(target, clip.last());
        lemma_opt_rect_seq(spec_intersect_rect(target, clip.last()), x, y);
        lemma_rects_concat_g(spec_clip_pieces(clip.drop_last(), target), opt_rect_seq(spec_intersect_rect(target, clip.last())), x, y);
        lemma_rects_push_g(clip.drop_last(), clip.last(), x, y);
        assert(clip.drop_last().push(clip.last()) =~= clip);
    }
}

/// Clips `(left, top, right, bottom)` against the clip region: without a clip
/// region the rectangle is returned as is.
pub fn intersect_rect_with_clip_rects(clip_rects: &Option<Vec<Rect>>, left: i32, top: i32, right: i32, bottom: i32) -> (out: Vec<Rect>)
    ensures
        out@ == match clip_rects {
            None => seq![(left, top, right, bottom)],
            Some(rs) => spec_clip_pieces(rs@, (left, top, right, bottom)),
        },
        clip_rects is Some ==> forall|x: int, y: int| rects_contain(out@, x, y) ==
            (rect_contains((left, top, right, bottom), x, y) && rects_contain(clip_rects->0@, x, y)),
{
    let target = (left, top, right, bottom);
    match clip_rects {
        None => {
            let mut v = Vec::new();
            v.push(target);
            proof {
                assert(v@ =~= seq![target]);
            }
            v
        },
        Some(rects) => {
            let mut out: Vec<Rect> = Vec::new();
            let mut i: usize = 0;
            while i < rects.len()
                invariant
                    0 <= i <= rects@.len(),
                    out@ == spec_clip_pieces(rects@.subrange(0, i as int), target),
                decreases rects@.len() - i,
            {
                push_opt(&mut out, intersect_rect(target, rects[i]));
                proof {
                    let s = rects@.subrange(0, i + 1);
                    assert(s.drop_last() =~= rects@.subrange(0, i as int));
                    assert(s.last() == rects@[i as int]);
                }
                i = i + 1;
            }
            proof {
                assert(rects@.subrange(0, rects@.len() as int) =~= rects@);
                assert forall|x: int, y: int| rects_contain(out@, x, y) ==
                    (rect_contains(target, x, y) && rects_contain(rects@, x, y)) by {
                    lemma_clip_pieces_contain(rects@, target, x, y);
                }
            }
            out
        },
    }
}

/// The rectangle reaches or passes every edge of a `width` x `height` bitmap.
pub fn rect_covers_bitmap(rect: Rect, width: u32, height: u32) -> (r: bool)
    requires
        width <= i32::MAX,
        height <= i32::MAX,
    ensures
        r == (rect.0 <= 0 && rect.1 <= 0 && rect.2 >= width && rect.3 >= height),
{
    rect.0 <= 0 && rect.1 <= 0 && rect.2 >= width as i32 && rect.3 >= height as i32
}

} // verus!
