//! Mathematical model of GDI regions: rows made of disjoint spans, stacked in
//! bands, and the proof that such a banded form is unique for a point set.

use vstd::prelude::*;
use crate::geometry::{Rect, rect_contains, rects_contain, same_coverage};

verus! {

/// A horizontal run `left <= x < right`.
pub type Span = (i32, i32);

/// A band `top <= y < bottom` whose rows all hold the same spans.
pub type BandView = (i32, i32, Seq<Span>);

pub open spec fn span_contains(s: Span, x: int) -> bool {
    s.0 <= x < s.1
}

pub open spec fn spans_contain(ss: Seq<Span>, x: int) -> bool {
    exists|i: int| 0 <= i < ss.len() && #[trigger] span_contains(ss[i], x)
}

/// Non-empty spans in increasing order with a gap between neighbours.
pub open spec fn spans_separated(ss: Seq<Span>) -> bool {
    &&& forall|i: int| #![trigger ss[i]] 0 <= i < ss.len() ==> ss[i].0 < ss[i].1
    &&& forall|i: int, j: int| #![trigger ss[i], ss[j]] 0 <= i < j < ss.len() ==> ss[i].1 < ss[j].0
}

pub open spec fn band_contains(b: BandView, x: int, y: int) -> bool {
    b.0 <= y < b.1 && spans_contain(b.2, x)
}

pub open spec fn bands_contain(bs: Seq<BandView>, x: int, y: int) -> bool {
    exists|k: int| 0 <= k < bs.len() && #[trigger] band_contains(bs[k], x, y)
}

/// Bands that are non-empty, ordered top to bottom without overlap, and where
/// two bands that touch never carry the same spans.
pub open spec fn canonical_bands(bs: Seq<BandView>) -> bool {
    &&& forall|k: int| #![trigger bs[k]] 0 <= k < bs.len() ==> {
        &&& bs[k].0 < bs[k].1
        &&& bs[k].2.len() > 0
        &&& spans_separated(bs[k].2)
    }
    &&& forall|k: int, m: int| #![trigger bs[k], bs[m]] 0 <= k < m < bs.len() ==> bs[k].1 <= bs[m].0
    &&& forall|k: int, m: int| #![trigger bs[k], bs[m]]
        0 <= k && m == k + 1 && m < bs.len() && bs[k].1 == bs[m].0 ==> bs[k].2 != bs[m].2
}

/// The rectangles of one band, one per span, left to right.
pub open spec fn band_rects(b: BandView) -> Seq<Rect> {
    Seq::new(b.2.len(), |i: int| (b.2[i].0, b.0, b.2[i].1, b.1))
}

/// All bands written out as rectangles, top band first.
pub open spec fn flatten_bands(bs: Seq<BandView>) -> Seq<Rect>
    decreases bs.len(),
{
    if bs.len() == 0 {
        Seq::empty()
    } else {
        flatten_bands(bs.drop_last()) + band_rects(bs.last())
    }
}

/// `out` is canonical bands written out as rectangles.
pub open spec fn is_banded_form(out: Seq<Rect>) -> bool {
    exists|bs: Seq<BandView>| canonical_bands(bs) && #[trigger] flatten_bands(bs) == out
}

/// `out` is the banded normal form of the region covered by `input`.
pub open spec fn is_canonical_form_of(out: Seq<Rect>, input: Seq<Rect>) -> bool {
    &&& is_banded_form(out)
    &&& same_coverage(out, input)
}

// ---------------------------------------------------------------------------
// Basic facts about spans.

pub proof fn lemma_spans_lower_bound(ss: Seq<Span>, x: int)
    requires
        spans_separated(ss),
        ss.len() > 0,
        spans_contain(ss, x),
    ensures
        x >= ss[0].0,
{
    let i = choose|i: int| 0 <= i < ss.len() && #[trigger] span_contains(ss[i], x);
    if i > 0 {
        assert(ss[0].1 < ss[i].0);
        assert(ss[0].0 < ss[0].1);
    }
}

pub proof fn lemma_spans_tail(ss: Seq<Span>, x: int)
    requires
        spans_separated(ss),
        ss.len() > 0,
    ensures
        spans_separated(ss.drop_first()),
        spans_contain(ss.drop_first(), x) <==> (spans_contain(ss, x) && !span_contains(ss[0], x)),
        spans_contain(ss.drop_first(), x) ==> x > ss[0].1,
{
    let t = ss.drop_first();
    assert forall|i: int| #![trigger t[i]] 0 <= i < t.len() implies t[i].0 < t[i].1 by {
        assert(t[i] == ss[i + 1]);
    }
    assert forall|i: int, j: int| #![trigger t[i], t[j]] 0 <= i < j < t.len() implies t[i].1 < t[j].0 by {
        assert(t[i] == ss[i + 1] && t[j] == ss[j + 1]);
    }
    if spans_contain(t, x) {
        let i = choose|i: int| 0 <= i < t.len() && #[trigger] span_contains(t[i], x);
        assert(span_contains(ss[i + 1], x));
        assert(ss[0].1 < ss[i + 1].0);
    }
    if spans_contain(ss, x) && !span_contains(ss[0], x) {
        let i = choose|i: int| 0 <= i < ss.len() && #[trigger] span_contains(ss[i], x);
        assert(i > 0);
        assert(span_contains(t[i - 1], x));
    }
}

/// Two separated span lists that cover the same points are equal.
pub proof fn lemma_spans_unique(a: Seq<Span>, b: Seq<Span>)
    requires
        spans_separated(a),
        spans_separated(b),
        forall|x: int| spans_contain(a, x) == spans_contain(b, x),
    ensures
        a == b,
    decreases a.len() + b.len(),
{
    if a.len() == 0 {
        if b.len() > 0 {
            assert(span_contains(b[0], b[0].0 as int));
            assert(spans_contain(b, b[0].0 as int));
        }
        assert(a =~= b);
    } else if b.len() == 0 {
        assert(span_contains(a[0], a[0].0 as int));
        assert(spans_contain(a, a[0].0 as int));
    } else {
        let la = a[0].0 as int;
        let lb = b[0].0 as int;
        assert(span_contains(a[0], la));
        assert(span_contains(b[0], lb));
        assert(spans_contain(a, la));
        assert(spans_contain(b, lb));
        if la < lb {
            lemma_spans_lower_bound(b, la);
        }
        if lb < la {
            lemma_spans_lower_bound(a, lb);
        }
        let ra = a[0].1 as int;
        let rb = b[0].1 as int;
        if ra < rb {
            assert(span_contains(b[0], ra));
            assert(spans_contain(b, ra));
            lemma_spans_tail(a, ra);
        }
        if rb < ra {
            assert(span_contains(a[0], rb));
            assert(spans_contain(a, rb));
            lemma_spans_tail(b, rb);
        }
        assert(a[0] == b[0]);
        assert forall|x: int| spans_contain(a.drop_first(), x) == spans_contain(b.drop_first(), x) by {
            lemma_spans_tail(a, x);
            lemma_spans_tail(b, x);
        }
        lemma_spans_tail(a, 0);
        lemma_spans_tail(b, 0);
        lemma_spans_unique(a.drop_first(), b.drop_first());
        assert(a =~= seq![a[0]] + a.drop_first());
        assert(b =~= seq![b[0]] + b.drop_first());
    }
}

/// Two different separated span lists differ at some point.
pub proof fn lemma_spans_differ(a: Seq<Span>, b: Seq<Span>) -> (x: int)
    requires
        spans_separated(a),
        spans_separated(b),
        a != b,
    ensures
        spans_contain(a, x) != spans_contain(b, x),
{
    if forall|x: int| spans_contain(a, x) == spans_contain(b, x) {
        lemma_spans_unique(a, b);
    }
    choose|x: int| spans_contain(a, x) != spans_contain(b, x)
}

// ---------------------------------------------------------------------------
// Uniqueness of the banded normal form.

pub proof fn lemma_bands_lower_bound(bs: Seq<BandView>, x: int, y: int)
    requires
        canonical_bands(bs),
        bs.len() > 0,
        bands_contain(bs, x, y),
    ensures
        y >= bs[0].0,
        y < bs[0].1 ==> band_contains(bs[0], x, y),
{
    let k = choose|k: int| 0 <= k < bs.len() && #[trigger] band_contains(bs[k], x, y);
    if k > 0 {
        assert(bs[0].1 <= bs[k].0);
        assert(bs[0].0 < bs[0].1);
    }
}

pub proof fn lemma_bands_tail(bs: Seq<BandView>, x: int, y: int)
    requires
        canonical_bands(bs),
        bs.len() > 0,
    ensures
        canonical_bands(bs.drop_first()),
        bands_contain(bs.drop_first(), x, y) <==> (bands_contain(bs, x, y) && y >= bs[0].1),
{
    let t = bs.drop_first();
    assert forall|k: int| #![trigger t[k]] 0 <= k < t.len() implies {
        &&& t[k].0 < t[k].1
        &&& t[k].2.len() > 0
        &&& spans_separated(t[k].2)
    } by {
        assert(t[k] == bs[k + 1]);
    }
    assert forall|k: int, m: int| #![trigger t[k], t[m]] 0 <= k < m < t.len() implies t[k].1 <= t[m].0 by {
        assert(t[k] == bs[k + 1] && t[m] == bs[m + 1]);
    }
    assert forall|k: int, m: int| #![trigger t[k], t[m]]
        0 <= k && m == k + 1 && m < t.len() && t[k].1 == t[m].0 implies t[k].2 != t[m].2 by {
        assert(t[k] == bs[k + 1] && t[m] == bs[m + 1]);
    }
    if bands_contain(t, x, y) {
        let k = choose|k: int| 0 <= k < t.len() && #[trigger] band_contains(t[k], x, y);
        assert(band_contains(bs[k + 1], x, y));
        assert(bs[0].1 <= bs[k + 1].0);
    }
    if bands_contain(bs, x, y) && y >= bs[0].1 {
        let k = choose|k: int| 0 <= k < bs.len() && #[trigger] band_contains(bs[k], x, y);
        assert(k > 0);
        assert(band_contains(t[k - 1], x, y));
    }
}

/// Row `y` of the first band equals row `y` of the whole banded region while
/// `y` stays inside the first band.
pub proof fn lemma_first_band_row(bs: Seq<BandView>, x: int, y: int)
    requires
        canonical_bands(bs),
        bs.len() > 0,
        bs[0].0 <= y < bs[0].1,
    ensures
        bands_contain(bs, x, y) == spans_contain(bs[0].2, x),
{
    if bands_contain(bs, x, y) {
        lemma_bands_lower_bound(bs, x, y);
    }
    if spans_contain(bs[0].2, x) {
        assert(band_contains(bs[0], x, y));
    }
}

/// The row just below the first band differs from the first band's row.
pub proof fn lemma_row_after_first_band(bs: Seq<BandView>) -> (x: int)
    requires
        canonical_bands(bs),
        bs.len() > 0,
    ensures
        bands_contain(bs, x, bs[0].1 as int) != spans_contain(bs[0].2, x),
{
    let y = bs[0].1 as int;
    let s0 = bs[0].2;
    if bs.len() > 1 && bs[1].0 == bs[0].1 {
        assert(bs[0].2 != bs[1].2);
        let x = lemma_spans_differ(s0, bs[1].2);
        lemma_bands_tail(bs, x, y);
        lemma_bands_tail(bs.drop_first(), x, y);
        lemma_first_band_row(bs.drop_first(), x, y);
        assert(bs.drop_first()[0] == bs[1]);
        x
    } else {
        let x = s0[0].0 as int;
        assert(span_contains(s0[0], x));
        assert(spans_contain(s0, x));
        if bands_contain(bs, x, y) {
            lemma_bands_tail(bs, x, y);
            let t = bs.drop_first();
            lemma_bands_lower_bound(t, x, y);
            assert(t[0] == bs[1]);
            assert(bs[0].1 <= bs[1].0);
        }
        x
    }
}

/// Two canonical band lists that cover the same points are equal.
pub proof fn lemma_bands_unique(a: Seq<BandView>, b: Seq<BandView>)
    requires
        canonical_bands(a),
        canonical_bands(b),
        forall|x: int, y: int| bands_contain(a, x, y) == bands_contain(b, x, y),
    ensures
        a == b,
    decreases a.len() + b.len(),
{
    if a.len() == 0 {
        if b.len() > 0 {
            let x = b[0].2[0].0 as int;
            assert(span_contains(b[0].2[0], x));
            assert(band_contains(b[0], x, b[0].0 as int));
            assert(bands_contain(b, x, b[0].0 as int));
        }
        assert(a =~= b);
    } else if b.len() == 0 {
        let x = a[0].2[0].0 as int;
        assert(span_contains(a[0].2[0], x));
        assert(band_contains(a[0], x, a[0].0 as int));
        assert(bands_contain(a, x, a[0].0 as int));
    } else {
        let a0 = a[0];
        let b0 = b[0];
        let xa = a0.2[0].0 as int;
        let xb = b0.2[0].0 as int;
        assert(span_contains(a0.2[0], xa));
        assert(span_contains(b0.2[0], xb));
        assert(band_contains(a0, xa, a0.0 as int));
        assert(band_contains(b0, xb, b0.0 as int));
        if a0.0 < b0.0 {
            lemma_bands_lower_bound(b, xa, a0.0 as int);
        }
        if b0.0 < a0.0 {
            lemma_bands_lower_bound(a, xb, b0.0 as int);
        }
        assert(a0.0 == b0.0);
        let y0 = a0.0 as int;
        assert forall|x: int| spans_contain(a0.2, x) == spans_contain(b0.2, x) by {
            lemma_first_band_row(a, x, y0);
            lemma_first_band_row(b, x, y0);
        }
        lemma_spans_unique(a0.2, b0.2);
        if a0.1 < b0.1 {
            let x = lemma_row_after_first_band(a);
            lemma_first_band_row(b, x, a0.1 as int);
        }
        if b0.1 < a0.1 {
            let x = lemma_row_after_first_band(b);
            lemma_first_band_row(a, x, b0.1 as int);
        }
        assert(a0 == b0);
        assert forall|x: int, y: int| bands_contain(a.drop_first(), x, y) == bands_contain(b.drop_first(), x, y) by {
            lemma_bands_tail(a, x, y);
            lemma_bands_tail(b, x, y);
        }
        lemma_bands_tail(a, 0, 0);
        lemma_bands_tail(b, 0, 0);
        lemma_bands_unique(a.drop_first(), b.drop_first());
        assert(a =~= seq![a0] + a.drop_first());
        assert(b =~= seq![b0] + b.drop_first());
    }
}

// ---------------------------------------------------------------------------
// Bands written out as rectangles.

pub proof fn lemma_band_rects_contain(b: BandView, x: int, y: int)
    ensures
        rects_contain(band_rects(b), x, y) == band_contains(b, x, y),
{
    let rs = band_rects(b);
    if rects_contain(rs, x, y) {
        let i = choose|i: int| 0 <= i < rs.len() && #[trigger] rect_contains(rs[i], x, y);
        assert(span_contains(b.2[i], x));
    }
    if band_contains(b, x, y) {
        let i = choose|i: int| 0 <= i < b.2.len() && #[trigger] span_contains(b.2[i], x);
        assert(rect_contains(rs[i], x, y));
    }
}

pub proof fn lemma_rects_concat(a: Seq<Rect>, b: Seq<Rect>, x: int, y: int)
    ensures
        rects_contain(a + b, x, y) == (rects_contain(a, x, y) || rects_contain(b, x, y)),
{
    let c = a + b;
    if rects_contain(c, x, y) {
        let i = choose|i: int| 0 <= i < c.len() && #[trigger] rect_contains(c[i], x, y);
        if i < a.len() {
            assert(c[i] == a[i]);
        } else {
            assert(c[i] == b[i - a.len()]);
        }
    }
    if rects_contain(a, x, y) {
        let i = choose|i: int| 0 <= i < a.len() && #[trigger] rect_contains(a[i], x, y);
        assert(c[i] == a[i]);
    }
    if rects_contain(b, x, y) {
        let i = choose|i: int| 0 <= i < b.len() && #[trigger] rect_contains(b[i], x, y);
        assert(c[i + a.len()] == b[i]);
    }
}

pub proof fn lemma_bands_push(bs: Seq<BandView>, b: BandView, x: int, y: int)
    ensures
        bands_contain(bs.push(b), x, y) == (bands_contain(bs, x, y) || band_contains(b, x, y)),
{
    let c = bs.push(b);
    if bands_contain(c, x, y) {
        let k = choose|k: int| 0 <= k < c.len() && #[trigger] band_contains(c[k], x, y);
        if k < bs.len() {
            assert(c[k] == bs[k]);
        }
    }
    if bands_contain(bs, x, y) {
        let k = choose|k: int| 0 <= k < bs.len() && #[trigger] band_contains(bs[k], x, y);
        assert(c[k] == bs[k]);
    }
    if band_contains(b, x, y) {
        assert(c[bs.len() as int] == b);
    }
}

pub proof fn lemma_flatten_contains(bs: Seq<BandView>, x: int, y: int)
    ensures
        rects_contain(flatten_bands(bs), x, y) == bands_contain(bs, x, y),
    decreases bs.len(),
{
    if bs.len() == 0 {
    } else {
        lemma_flatten_contains(bs.drop_last(), x, y);
        lemma_rects_concat(flatten_bands(bs.drop_last()), band_rects(bs.last()), x, y);
        lemma_band_rects_contain(bs.last(), x, y);
        lemma_bands_push(bs.drop_last(), bs.last(), x, y);
        assert(bs.drop_last().push(bs.last()) =~= bs);
    }
}

/// Two banded forms that cover the same points are the same list of
/// rectangles.
pub proof fn lemma_banded_form_unique(out_a: Seq<Rect>, out_b: Seq<Rect>)
    requires
        is_banded_form(out_a),
        is_banded_form(out_b),
        same_coverage(out_a, out_b),
    ensures
        out_a == out_b,
{
    let ba = choose|bs: Seq<BandView>| canonical_bands(bs) && #[trigger] flatten_bands(bs) == out_a;
    let bb = choose|bs: Seq<BandView>| canonical_bands(bs) && #[trigger] flatten_bands(bs) == out_b;
    assert forall|x: int, y: int| bands_contain(ba, x, y) == bands_contain(bb, x, y) by {
        lemma_flatten_contains(ba, x, y);
        lemma_flatten_contains(bb, x, y);
        assert(rects_contain(out_a, x, y) == rects_contain(out_b, x, y));
    }
    lemma_bands_unique(ba, bb);
}

/// Law: the normal form depends only on the points a region covers. Two
/// regions covering the same points have the same normal form, whatever
/// rectangles, split or order they were written with.
pub proof fn lemma_canonical_form_unique(out_a: Seq<Rect>, in_a: Seq<Rect>, out_b: Seq<Rect>, in_b: Seq<Rect>)
    requires
        is_canonical_form_of(out_a, in_a),
        is_canonical_form_of(out_b, in_b),
        same_coverage(in_a, in_b),
    ensures
        out_a == out_b,
{
    let ba = choose|bs: Seq<BandView>| canonical_bands(bs) && #[trigger] flatten_bands(bs) == out_a;
    let bb = choose|bs: Seq<BandView>| canonical_bands(bs) && #[trigger] flatten_bands(bs) == out_b;
    assert forall|x: int, y: int| bands_contain(ba, x, y) == bands_contain(bb, x, y) by {
        lemma_flatten_contains(ba, x, y);
        lemma_flatten_contains(bb, x, y);
        assert(rects_contain(out_a, x, y) == rects_contain(in_a, x, y));
        assert(rects_contain(out_b, x, y) == rects_contain(in_b, x, y));
        assert(rects_contain(in_a, x, y) == rects_contain(in_b, x, y));
    }
    lemma_bands_unique(ba, bb);
}

} // verus!
