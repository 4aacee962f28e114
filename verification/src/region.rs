//! Region normal form: any list of rectangles is rewritten into scanline bands
//! of merged spans, so that two regions covering the same points compare equal.

use vstd::prelude::*;
use crate::geometry::{Rect, rect_nonempty, rect_contains, rects_contain, same_coverage};
use crate::geometry::{
    imax, imin, spec_intersect_rect, intersect_rect, subtract_region_rects,
    region_minus_contains, lemma_intersect_contains,
};
use crate::region_spec::{
    Span, BandView, span_contains, spans_contain, spans_separated, band_contains,
    bands_contain, canonical_bands, band_rects, flatten_bands, is_canonical_form_of,
    is_banded_form, lemma_flatten_contains, lemma_bands_push, lemma_banded_form_unique,
    lemma_canonical_form_unique,
};

verus! {

/// One scanline band under construction.
pub struct Band {
    pub top: i32,
    pub bottom: i32,
    pub spans: Vec<Span>,
}

impl View for Band {
    type V = BandView;

    open spec fn view(&self) -> BandView {
        (self.top, self.bottom, self.spans@)
    }
}

pub open spec fn bands_view(bs: Seq<Band>) -> Seq<BandView> {
    bs.map_values(|b: Band| b@)
}

pub open spec fn strictly_increasing(s: Seq<i32>) -> bool {
    forall|i: int, j: int| #![trigger s[i], s[j]] 0 <= i < j < s.len() ==> s[i] < s[j]
}

pub open spec fn sorted_by_left(s: Seq<Span>) -> bool {
    forall|i: int, j: int| #![trigger s[i], s[j]] 0 <= i < j < s.len() ==> s[i].0 <= s[j].0
}

pub open spec fn spans_nonempty(s: Seq<Span>) -> bool {
    forall|i: int| #![trigger s[i]] 0 <= i < s.len() ==> s[i].0 < s[i].1
}

/// Rectangle `r` spans the whole slab `y0 <= y < y1` and covers column `x`.
pub open spec fn rect_fills_slab_at(r: Rect, y0: int, y1: int, x: int) -> bool {
    r.1 <= y0 && y1 <= r.3 && r.0 <= x < r.2
}

pub open spec fn slab_row_contains(rs: Seq<Rect>, y0: int, y1: int, x: int) -> bool {
    exists|i: int| 0 <= i < rs.len() && #[trigger] rect_fills_slab_at(rs[i], y0, y1, x)
}

pub open spec fn edges_cover(edges: Seq<i32>, rs: Seq<Rect>) -> bool {
    forall|i: int| #![trigger rs[i]] 0 <= i < rs.len() ==> edges.contains(rs[i].1) && edges.contains(rs[i].3)
}

// ---------------------------------------------------------------------------
// Small lemmas about coverage of sequences.

proof fn lemma_rects_push(s: Seq<Rect>, r: Rect, x: int, y: int)
    ensures
        rects_contain(s.push(r), x, y) == (rects_contain(s, x, y) || rect_contains(r, x, y)),
{
    let t = s.push(r);
    if rects_contain(t, x, y) {
        let i = choose|i: int| 0 <= i < t.len() && #[trigger] rect_contains(t[i], x, y);
        if i < s.len() {
            assert(t[i] == s[i]);
        }
    }
    if rects_contain(s, x, y) {
        let i = choose|i: int| 0 <= i < s.len() && #[trigger] rect_contains(s[i], x, y);
        assert(t[i] == s[i]);
    }
    if rect_contains(r, x, y) {
        assert(t[s.len() as int] == r);
    }
}

proof fn lemma_spans_push(s: Seq<Span>, v: Span, x: int)
    ensures
        spans_contain(s.push(v), x) == (spans_contain(s, x) || span_contains(v, x)),
{
    let t = s.push(v);
    if spans_contain(t, x) {
        let i = choose|i: int| 0 <= i < t.len() && #[trigger] span_contains(t[i], x);
        if i < s.len() {
            assert(t[i] == s[i]);
        }
    }
    if spans_contain(s, x) {
        let i = choose|i: int| 0 <= i < s.len() && #[trigger] span_contains(s[i], x);
        assert(t[i] == s[i]);
    }
    if span_contains(v, x) {
        assert(t[s.len() as int] == v);
    }
}

proof fn lemma_spans_insert(s: Seq<Span>, p: int, v: Span, x: int)
    requires
        0 <= p <= s.len(),
    ensures
        spans_contain(s.insert(p, v), x) == (spans_contain(s, x) || span_contains(v, x)),
{
    let t = s.insert(p, v);
    if spans_contain(t, x) {
        let i = choose|i: int| 0 <= i < t.len() && #[trigger] span_contains(t[i], x);
        if i < p {
            assert(t[i] == s[i]);
        } else if i > p {
            assert(t[i] == s[i - 1]);
        }
    }
    if spans_contain(s, x) {
        let i = choose|i: int| 0 <= i < s.len() && #[trigger] span_contains(s[i], x);
        if i < p {
            assert(t[i] == s[i]);
        } else {
            assert(t[i + 1] == s[i]);
        }
    }
    if span_contains(v, x) {
        assert(t[p] == v);
    }
}

proof fn lemma_spans_drop_last(s: Seq<Span>, x: int)
    requires
        s.len() > 0,
    ensures
        spans_contain(s, x) == (spans_contain(s.drop_last(), x) || span_contains(s.last(), x)),
{
    lemma_spans_push(s.drop_last(), s.last(), x);
    assert(s.drop_last().push(s.last()) =~= s);
}

proof fn lemma_row_in_slab(edges: Seq<i32>, k: int, r: Rect, x: int, y: int)
    requires
        strictly_increasing(edges),
        0 <= k,
        k + 1 < edges.len(),
        edges.contains(r.1),
        edges.contains(r.3),
        edges[k] <= y < edges[k + 1],
    ensures
        rect_contains(r, x, y) == rect_fills_slab_at(r, edges[k] as int, edges[k + 1] as int, x),
{
    let i = choose|i: int| 0 <= i < edges.len() && edges[i] == r.1;
    let j = choose|j: int| 0 <= j < edges.len() && edges[j] == r.3;
    if i > k + 1 {
        assert(edges[k + 1] < edges[i]);
    }
    if i < k {
        assert(edges[i] < edges[k]);
    }
    if j < k {
        assert(edges[j] < edges[k]);
    }
    if j > k + 1 {
        assert(edges[k + 1] < edges[j]);
    }
}

proof fn lemma_outside_edges(edges: Seq<i32>, r: Rect, x: int, y: int)
    requires
        strictly_increasing(edges),
        edges.len() > 0,
        edges.contains(r.1),
        edges.contains(r.3),
        y < edges[0] || y >= edges.last(),
    ensures
        !rect_contains(r, x, y),
{
    let i = choose|i: int| 0 <= i < edges.len() && edges[i] == r.1;
    let j = choose|j: int| 0 <= j < edges.len() && edges[j] == r.3;
    if i > 0 {
        assert(edges[0] < edges[i]);
    }
    if j < edges.len() - 1 {
        assert(edges[j] < edges[edges.len() - 1]);
    }
}

// ---------------------------------------------------------------------------
// Building blocks.

fn nonempty_rects(rects: &[Rect]) -> (out: Vec<Rect>)
    ensures
        forall|i: int| #![trigger out@[i]] 0 <= i < out@.len() ==> rect_nonempty(out@[i]),
        same_coverage(out@, rects@),
{
    let mut out: Vec<Rect> = Vec::new();
    let mut i: usize = 0;
    while i < rects.len()
        invariant
            0 <= i <= rects@.len(),
            forall|k: int| #![trigger out@[k]] 0 <= k < out@.len() ==> rect_nonempty(out@[k]),
            forall|x: int, y: int|
                rects_contain(out@, x, y) == rects_contain(rects@.subrange(0, i as int), x, y),
        decreases rects@.len() - i,
    {
        let r = rects[i];
        let ghost before = out@;
        if r.0 < r.2 && r.1 < r.3 {
            out.push(r);
        }
        proof {
            assert(rects@.subrange(0, i + 1) =~= rects@.subrange(0, i as int).push(r));
            assert forall|x: int, y: int|
                rects_contain(out@, x, y) == rects_contain(rects@.subrange(0, i + 1), x, y) by {
                lemma_rects_push(rects@.subrange(0, i as int), r, x, y);
                if out@ != before {
                    lemma_rects_push(before, r, x, y);
                }
            }
        }
        i = i + 1;
    }
    proof {
        assert(rects@.subrange(0, rects@.len() as int) =~= rects@);
    }
    out
}

fn insert_edge(edges: &mut Vec<i32>, v: i32)
    requires
        strictly_increasing(old(edges)@),
    ensures
        strictly_increasing(final(edges)@),
        final(edges)@.contains(v),
        forall|w: i32| old(edges)@.contains(w) ==> final(edges)@.contains(w),
{
    let mut i: usize = 0;
    while i < edges.len() && edges[i] < v
        invariant
            0 <= i <= edges@.len(),
            forall|k: int| 0 <= k < i ==> edges@[k] < v,
        decreases edges@.len() - i,
    {
        i = i + 1;
    }
    if i < edges.len() && edges[i] == v {
        assert(edges@[i as int] == v);
        return;
    }
    let ghost before = edges@;
    edges.insert(i, v);
    proof {
        let after = edges@;
        assert(after[i as int] == v);
        assert forall|a: int, b: int| #![trigger after[a], after[b]] 0 <= a < b < after.len() implies after[a] < after[b] by {
            if b < i {
                assert(after[a] == before[a] && after[b] == before[b]);
            } else if b == i {
                assert(after[a] == before[a]);
            } else if a < i {
                assert(after[a] == before[a] && after[b] == before[b - 1]);
                assert(before[i as int] > v);
                if b - 1 > i {
                    assert(before[i as int] < before[b - 1]);
                }
            } else if a == i {
                assert(after[b] == before[b - 1]);
                if b - 1 > i {
                    assert(before[i as int] < before[b - 1]);
                }
            } else {
                assert(after[a] == before[a - 1] && after[b] == before[b - 1]);
            }
        }
        assert forall|w: i32| before.contains(w) implies after.contains(w) by {
            let k = choose|k: int| 0 <= k < before.len() && before[k] == w;
            if k < i {
                assert(after[k] == w);
            } else {
                assert(after[k + 1] == w);
            }
        }
    }
}

fn collect_edges(rs: &Vec<Rect>) -> (edges: Vec<i32>)
    ensures
        strictly_increasing(edges@),
        edges_cover(edges@, rs@),
        rs@.len() > 0 ==> edges@.len() > 0,
{
    let mut edges: Vec<i32> = Vec::new();
    let mut i: usize = 0;
    while i < rs.len()
        invariant
            0 <= i <= rs@.len(),
            strictly_increasing(edges@),
            edges_cover(edges@, rs@.subrange(0, i as int)),
            i > 0 ==> edges@.len() > 0,
        decreases rs@.len() - i,
    {
        let r = rs[i];
        let ghost before = edges@;
        insert_edge(&mut edges, r.1);
        let ghost mid = edges@;
        insert_edge(&mut edges, r.3);
        proof {
            let sub = rs@.subrange(0, i + 1);
            assert forall|k: int| #![trigger sub[k]] 0 <= k < sub.len() implies edges@.contains(sub[k].1) && edges@.contains(sub[k].3) by {
                if k < i {
                    assert(sub[k] == rs@.subrange(0, i as int)[k]);
                    assert(before.contains(sub[k].1) && before.contains(sub[k].3));
                }
            }
        }
        i = i + 1;
    }
    proof {
        assert(rs@.subrange(0, rs@.len() as int) =~= rs@);
    }
    edges
}

/// The spans of the rectangles that fill the whole slab `y0 <= y < y1`.
fn spans_for_slab(rs: &Vec<Rect>, y0: i32, y1: i32) -> (out: Vec<Span>)
    requires
        forall|i: int| #![trigger rs@[i]] 0 <= i < rs@.len() ==> rect_nonempty(rs@[i]),
    ensures
        spans_nonempty(out@),
        forall|x: int| spans_contain(out@, x) == slab_row_contains(rs@, y0 as int, y1 as int, x),
{
    let mut out: Vec<Span> = Vec::new();
    let mut i: usize = 0;
    while i < rs.len()
        invariant
            0 <= i <= rs@.len(),
            forall|k: int| #![trigger rs@[k]] 0 <= k < rs@.len() ==> rect_nonempty(rs@[k]),
            spans_nonempty(out@),
            forall|x: int| spans_contain(out@, x) == slab_row_contains(rs@.subrange(0, i as int), y0 as int, y1 as int, x),
        decreases rs@.len() - i,
    {
        let r = rs[i];
        let ghost before = out@;
        if r.1 <= y0 && y1 <= r.3 {
            out.push((r.0, r.2));
        }
        proof {
            let sub = rs@.subrange(0, i + 1);
            let prev = rs@.subrange(0, i as int);
            assert(rs@[i as int] == r);
            assert forall|x: int| spans_contain(out@, x) == slab_row_contains(sub, y0 as int, y1 as int, x) by {
                if out@ != before {
                    lemma_spans_push(before, (r.0, r.2), x);
                }
                if slab_row_contains(sub, y0 as int, y1 as int, x) {
                    let k = choose|k: int| 0 <= k < sub.len() && #[trigger] rect_fills_slab_at(sub[k], y0 as int, y1 as int, x);
                    if k < i {
                        assert(prev[k] == sub[k]);
                        assert(slab_row_contains(prev, y0 as int, y1 as int, x));
                    } else {
                        assert(sub[k] == r);
                        assert(span_contains((r.0, r.2), x));
                    }
                }
                if slab_row_contains(prev, y0 as int, y1 as int, x) {
                    let k = choose|k: int| 0 <= k < prev.len() && #[trigger] rect_fills_slab_at(prev[k], y0 as int, y1 as int, x);
                    assert(sub[k] == prev[k]);
                }
                if out@ != before && span_contains((r.0, r.2), x) {
                    assert(rect_fills_slab_at(sub[i as int], y0 as int, y1 as int, x));
                }
            }
        }
        i = i + 1;
    }
    proof {
        assert(rs@.subrange(0, rs@.len() as int) =~= rs@);
    }
    out
}

fn sort_spans_by_left(v: &Vec<Span>) -> (out: Vec<Span>)
    requires
        spans_nonempty(v@),
    ensures
        out@.len() == v@.len(),
        spans_nonempty(out@),
        sorted_by_left(out@),
        forall|x: int| spans_contain(out@, x) == spans_contain(v@, x),
{
    let mut out: Vec<Span> = Vec::new();
    let mut i: usize = 0;
    while i < v.len()
        invariant
            0 <= i <= v@.len(),
            spans_nonempty(v@),
            out@.len() == i,
            spans_nonempty(out@),
            sorted_by_left(out@),
            forall|x: int| spans_contain(out@, x) == spans_contain(v@.subrange(0, i as int), x),
        decreases v@.len() - i,
    {
        let s = v[i];
        let mut p: usize = 0;
        while p < out.len() && out[p].0 <= s.0
            invariant
                0 <= p <= out@.len(),
                forall|k: int| 0 <= k < p ==> out@[k].0 <= s.0,
            decreases out@.len() - p,
        {
            p = p + 1;
        }
        let ghost before = out@;
        out.insert(p, s);
        proof {
            let after = out@;
            assert(v@[i as int] == s);
            assert forall|a: int| #![trigger after[a]] 0 <= a < after.len() implies after[a].0 < after[a].1 by {
                if a < p {
                    assert(after[a] == before[a]);
                } else if a > p {
                    assert(after[a] == before[a - 1]);
                }
            }
            assert forall|a: int, b: int| #![trigger after[a], after[b]] 0 <= a < b < after.len() implies after[a].0 <= after[b].0 by {
                if b < p {
                    assert(after[a] == before[a] && after[b] == before[b]);
                } else if b == p {
                    assert(after[a] == before[a]);
                } else if a < p {
                    assert(after[a] == before[a] && after[b] == before[b - 1]);
                    assert(before[p as int].0 > s.0);
                    if b - 1 > p {
                        assert(before[p as int].0 <= before[b - 1].0);
                    }
                } else if a == p {
                    assert(after[b] == before[b - 1]);
                    assert(before[p as int].0 > s.0);
                    if b - 1 > p {
                        assert(before[p as int].0 <= before[b - 1].0);
                    }
                } else {
                    assert(after[a] == before[a - 1] && after[b] == before[b - 1]);
                }
            }
            assert(v@.subrange(0, i + 1) =~= v@.subrange(0, i as int).push(s));
            assert forall|x: int| spans_contain(after, x) == spans_contain(v@.subrange(0, i + 1), x) by {
                lemma_spans_insert(before, p as int, s, x);
                lemma_spans_push(v@.subrange(0, i as int), s, x);
            }
        }
        i = i + 1;
    }
    proof {
        assert(v@.subrange(0, v@.len() as int) =~= v@);
    }
    out
}

/// Joins overlapping or touching spans of a list sorted by left edge.
fn merge_spans(sorted: &Vec<Span>) -> (out: Vec<Span>)
    requires
        spans_nonempty(sorted@),
        sorted_by_left(sorted@),
    ensures
        spans_separated(out@),
        forall|x: int| spans_contain(out@, x) == spans_contain(sorted@, x),
        out@.len() == 0 <==> sorted@.len() == 0,
{
    let mut out: Vec<Span> = Vec::new();
    let mut i: usize = 0;
    while i < sorted.len()
        invariant
            0 <= i <= sorted@.len(),
            spans_nonempty(sorted@),
            sorted_by_left(sorted@),
            spans_separated(out@),
            out@.len() == 0 <==> i == 0,
            out@.len() > 0 ==> forall|j: int| #![trigger sorted@[j]] i <= j < sorted@.len() ==> out@.last().0 <= sorted@[j].0,
            forall|x: int| spans_contain(out@, x) == spans_contain(sorted@.subrange(0, i as int), x),
        decreases sorted@.len() - i,
    {
        let s = sorted[i];
        let ghost before = out@;
        let n = out.len();
        proof {
            assert(sorted@[i as int] == s);
            assert(s.0 < s.1);
        }
        if n > 0 && out[n - 1].1 >= s.0 {
            let last = out[n - 1];
            let right = if last.1 >= s.1 { last.1 } else { s.1 };
            out.set(n - 1, (last.0, right));
            proof {
                let after = out@;
                assert(before.last() == last);
                assert(after == before.update(n - 1, (last.0, right)));
                assert forall|a: int| #![trigger after[a]] 0 <= a < after.len() implies after[a].0 < after[a].1 by {
                    if a < n - 1 {
                        assert(after[a] == before[a]);
                    }
                }
                assert forall|a: int, b: int| #![trigger after[a], after[b]] 0 <= a < b < after.len() implies after[a].1 < after[b].0 by {
                    assert(after[a] == before[a]);
                    if b < n - 1 {
                        assert(after[b] == before[b]);
                    } else {
                        assert(before[a].1 < before[n - 1].0);
                    }
                }
                assert forall|j: int| #![trigger sorted@[j]] i + 1 <= j < sorted@.len() implies after.last().0 <= sorted@[j].0 by {
                    assert(before.last().0 <= sorted@[j].0);
                }
                assert(sorted@.subrange(0, i + 1) =~= sorted@.subrange(0, i as int).push(s));
                assert(before.drop_last() =~= before.subrange(0, n - 1));
                assert(after.drop_last() =~= before.drop_last());
                assert(after.last() == (last.0, right));
                assert forall|x: int| spans_contain(after, x) == spans_contain(sorted@.subrange(0, i + 1), x) by {
                    lemma_spans_drop_last(after, x);
                    lemma_spans_drop_last(before, x);
                    lemma_spans_push(sorted@.subrange(0, i as int), s, x);
                    assert(last.0 <= s.0);
                }
            }
        } else {
            out.push(s);
            proof {
                let after = out@;
                assert forall|a: int| #![trigger after[a]] 0 <= a < after.len() implies after[a].0 < after[a].1 by {
                    if a < n {
                        assert(after[a] == before[a]);
                    }
                }
                assert forall|a: int, b: int| #![trigger after[a], after[b]] 0 <= a < b < after.len() implies after[a].1 < after[b].0 by {
                    assert(after[a] == before[a]);
                    if b < n {
                        assert(after[b] == before[b]);
                    } else {
                        assert(after[b] == s);
                        assert(before.last().1 < s.0);
                        if a < n - 1 {
                            assert(before[a].1 < before[n - 1].0);
                            assert(before[n - 1].0 < before[n - 1].1);
                        }
                    }
                }
                assert forall|j: int| #![trigger sorted@[j]] i + 1 <= j < sorted@.len() implies after.last().0 <= sorted@[j].0 by {
                    assert(sorted@[i as int].0 <= sorted@[j].0);
                }
                assert(sorted@.subrange(0, i + 1) =~= sorted@.subrange(0, i as int).push(s));
                assert forall|x: int| spans_contain(after, x) == spans_contain(sorted@.subrange(0, i + 1), x) by {
                    lemma_spans_push(before, s, x);
                    lemma_spans_push(sorted@.subrange(0, i as int), s, x);
                }
            }
        }
        i = i + 1;
    }
    proof {
        assert(sorted@.subrange(0, sorted@.len() as int) =~= sorted@);
    }
    out
}

fn spans_equal(a: &Vec<Span>, b: &Vec<Span>) -> (r: bool)
    ensures
        r == (a@ == b@),
{
    if a.len() != b.len() {
        return false;
    }
    let mut i: usize = 0;
    while i < a.len()
        invariant
            0 <= i <= a@.len(),
            a@.len() == b@.len(),
            forall|k: int| 0 <= k < i ==> a@[k] == b@[k],
        decreases a@.len() - i,
    {
        if a[i].0 != b[i].0 || a[i].1 != b[i].1 {
            return false;
        }
        i = i + 1;
    }
    proof {
        assert(a@ =~= b@);
    }
    true
}


/// Coverage of the finished bands agrees with the rectangles above slab `k`
/// and nothing at or below it is covered yet.
pub open spec fn bands_match_above(bv: Seq<BandView>, rs: Seq<Rect>, limit: int) -> bool {
    forall|x: int, y: int| #![trigger bands_contain(bv, x, y)] #![trigger rects_contain(rs, x, y)]
        bands_contain(bv, x, y) == (y < limit && rects_contain(rs, x, y))
}

proof fn lemma_rows_of_slab(edges: Seq<i32>, k: int, rs: Seq<Rect>, x: int, y: int)
    requires
        strictly_increasing(edges),
        edges_cover(edges, rs),
        0 <= k,
        k + 1 < edges.len(),
        edges[k] <= y < edges[k + 1],
    ensures
        rects_contain(rs, x, y) == slab_row_contains(rs, edges[k] as int, edges[k + 1] as int, x),
{
    let y0 = edges[k] as int;
    let y1 = edges[k + 1] as int;
    if rects_contain(rs, x, y) {
        let i = choose|i: int| 0 <= i < rs.len() && #[trigger] rect_contains(rs[i], x, y);
        assert(edges.contains(rs[i].1) && edges.contains(rs[i].3));
        lemma_row_in_slab(edges, k, rs[i], x, y);
        assert(rect_fills_slab_at(rs[i], y0, y1, x));
    }
    if slab_row_contains(rs, y0, y1, x) {
        let i = choose|i: int| 0 <= i < rs.len() && #[trigger] rect_fills_slab_at(rs[i], y0, y1, x);
        assert(rect_contains(rs[i], x, y));
    }
}

/// Rewrites a list of rectangles into its scanline normal form: bands from
/// top to bottom, each band a run of separated spans from left to right, with
/// touching bands that carry the same spans joined. Empty rectangles are
/// dropped. Two inputs that cover the same points give the same output.
pub fn canonicalize_rects(rects: &[Rect]) -> (out: Vec<Rect>)
    ensures
        is_canonical_form_of(out@, rects@),
{
    let clean = nonempty_rects(rects);
    if clean.len() == 0 {
        proof {
            let e: Seq<BandView> = Seq::empty();
            assert(canonical_bands(e));
            assert(flatten_bands(e) =~= Seq::<Rect>::empty());
            assert forall|x: int, y: int| rects_contain(Seq::<Rect>::empty(), x, y) == rects_contain(rects@, x, y) by {
                assert(rects_contain(clean@, x, y) == rects_contain(rects@, x, y));
            }
        }
        return Vec::new();
    }
    let edges = collect_edges(&clean);
    let mut bands: Vec<Band> = Vec::new();
    let mut k: usize = 0;
    proof {
        assert forall|x: int, y: int| #![trigger bands_contain(bands_view(bands@), x, y)] #![trigger rects_contain(clean@, x, y)]
            bands_contain(bands_view(bands@), x, y) == (y < edges@[0] && rects_contain(clean@, x, y)) by {
            if y < edges@[0] && rects_contain(clean@, x, y) {
                let i = choose|i: int| 0 <= i < clean@.len() && #[trigger] rect_contains(clean@[i], x, y);
                assert(edges@.contains(clean@[i].1) && edges@.contains(clean@[i].3));
                lemma_outside_edges(edges@, clean@[i], x, y);
            }
        }
    }
    while k < edges.len() - 1
        invariant
            forall|i: int| #![trigger clean@[i]] 0 <= i < clean@.len() ==> rect_nonempty(clean@[i]),
            strictly_increasing(edges@),
            edges_cover(edges@, clean@),
            edges@.len() > 0,
            0 <= k < edges@.len(),
            canonical_bands(bands_view(bands@)),
            forall|j: int| #![trigger bands@[j]] 0 <= j < bands@.len() ==> bands@[j].bottom <= edges@[k as int],
            bands_match_above(bands_view(bands@), clean@, edges@[k as int] as int),
        decreases edges@.len() - k,
    {
        let y0 = edges[k];
        let y1 = edges[k + 1];
        proof {
            assert(y0 < y1);
        }
        let raw = spans_for_slab(&clean, y0, y1);
        let sorted = sort_spans_by_left(&raw);
        let merged = merge_spans(&sorted);
        let ghost old_bands = bands@;
        let ghost old_view = bands_view(bands@);
        let ghost mv = merged@;
        proof {
            assert forall|x: int| spans_contain(mv, x) == slab_row_contains(clean@, y0 as int, y1 as int, x) by {}
        }
        let n = bands.len();
        if merged.len() == 0 {
            proof {
                assert forall|j: int| #![trigger bands@[j]] 0 <= j < bands@.len() implies bands@[j].bottom <= edges@[k + 1] by {
                    assert(edges@[k as int] < edges@[k + 1]);
                }
                assert forall|x: int, y: int| #![trigger bands_contain(bands_view(bands@), x, y)] #![trigger rects_contain(clean@, x, y)]
                    bands_contain(bands_view(bands@), x, y) == (y < edges@[k + 1] && rects_contain(clean@, x, y)) by {
                    if edges@[k as int] <= y < edges@[k + 1] {
                        lemma_rows_of_slab(edges@, k as int, clean@, x, y);
                        assert(!spans_contain(mv, x));
                    }
                }
            }
        } else if n > 0 && bands[n - 1].bottom == y0 && spans_equal(&bands[n - 1].spans, &merged) {
            let mut last = bands.pop().unwrap();
            proof {
                assert(last == old_bands.last());
                assert(bands@ =~= old_bands.drop_last());
            }
            last.bottom = y1;
            bands.push(last);
            proof {
                let nv = bands_view(bands@);
                let lb = old_view.last();
                assert(lb == old_bands.last()@);
                assert(nv =~= old_view.drop_last().push((lb.0, y1, lb.2)));
                assert forall|j: int| #![trigger nv[j]] 0 <= j < nv.len() implies {
                    &&& nv[j].0 < nv[j].1
                    &&& nv[j].2.len() > 0
                    &&& spans_separated(nv[j].2)
                } by {
                    if j < n - 1 {
                        assert(nv[j] == old_view[j]);
                    } else {
                        assert(old_view[j].0 < old_view[j].1);
                    }
                }
                assert forall|a: int, b: int| #![trigger nv[a], nv[b]] 0 <= a < b < nv.len() implies nv[a].1 <= nv[b].0 by {
                    assert(nv[a] == old_view[a]);
                    if b < n - 1 {
                        assert(nv[b] == old_view[b]);
                    } else {
                        assert(old_view[a].1 <= old_view[b].0);
                    }
                }
                assert forall|a: int, b: int| #![trigger nv[a], nv[b]]
                    0 <= a && b == a + 1 && b < nv.len() && nv[a].1 == nv[b].0 implies nv[a].2 != nv[b].2 by {
                    assert(nv[a] == old_view[a]);
                    if b < n - 1 {
                        assert(nv[b] == old_view[b]);
                    } else {
                        assert(old_view[a].1 == old_view[b].0);
                    }
                }
                assert forall|j: int| #![trigger bands@[j]] 0 <= j < bands@.len() implies bands@[j].bottom <= edges@[k + 1] by {
                    if j < n - 1 {
                        assert(bands@[j] == old_bands[j]);
                        assert(edges@[k as int] < edges@[k + 1]);
                    }
                }
                assert forall|x: int, y: int| #![trigger bands_contain(nv, x, y)] #![trigger rects_contain(clean@, x, y)]
                    bands_contain(nv, x, y) == (y < edges@[k + 1] && rects_contain(clean@, x, y)) by {
                    lemma_bands_push(old_view.drop_last(), (lb.0, y1, lb.2), x, y);
                    lemma_bands_push(old_view.drop_last(), lb, x, y);
                    assert(old_view.drop_last().push(lb) =~= old_view);
                    if edges@[k as int] <= y < edges@[k + 1] {
                        lemma_rows_of_slab(edges@, k as int, clean@, x, y);
                    }
                }
            }
        } else {
            let band = Band { top: y0, bottom: y1, spans: merged };
            bands.push(band);
            proof {
                let nv = bands_view(bands@);
                let b = (y0, y1, mv);
                assert(nv =~= old_view.push(b));
                assert forall|j: int| #![trigger nv[j]] 0 <= j < nv.len() implies {
                    &&& nv[j].0 < nv[j].1
                    &&& nv[j].2.len() > 0
                    &&& spans_separated(nv[j].2)
                } by {
                    if j < n {
                        assert(nv[j] == old_view[j]);
                    }
                }
                assert forall|a: int, c: int| #![trigger nv[a], nv[c]] 0 <= a < c < nv.len() implies nv[a].1 <= nv[c].0 by {
                    assert(nv[a] == old_view[a]);
                    assert(old_bands[a].bottom <= edges@[k as int]);
                    if c < n {
                        assert(nv[c] == old_view[c]);
                    }
                }
                assert forall|a: int, c: int| #![trigger nv[a], nv[c]]
                    0 <= a && c == a + 1 && c < nv.len() && nv[a].1 == nv[c].0 implies nv[a].2 != nv[c].2 by {
                    assert(nv[a] == old_view[a]);
                    if c < n {
                        assert(nv[c] == old_view[c]);
                    } else {
                        assert(old_bands[a] == old_bands.last());
                    }
                }
                assert forall|j: int| #![trigger bands@[j]] 0 <= j < bands@.len() implies bands@[j].bottom <= edges@[k + 1] by {
                    if j < n {
                        assert(bands@[j] == old_bands[j]);
                        assert(edges@[k as int] < edges@[k + 1]);
                    }
                }
                assert forall|x: int, y: int| #![trigger bands_contain(nv, x, y)] #![trigger rects_contain(clean@, x, y)]
                    bands_contain(nv, x, y) == (y < edges@[k + 1] && rects_contain(clean@, x, y)) by {
                    lemma_bands_push(old_view, b, x, y);
                    if edges@[k as int] <= y < edges@[k + 1] {
                        lemma_rows_of_slab(edges@, k as int, clean@, x, y);
                    }
                }
            }
        }
        k = k + 1;
    }
    let ghost bv = bands_view(bands@);
    proof {
        assert forall|x: int, y: int| bands_contain(bv, x, y) == rects_contain(rects@, x, y) by {
            if y >= edges@[k as int] && rects_contain(clean@, x, y) {
                let i = choose|i: int| 0 <= i < clean@.len() && #[trigger] rect_contains(clean@[i], x, y);
                assert(edges@.contains(clean@[i].1) && edges@.contains(clean@[i].3));
                lemma_outside_edges(edges@, clean@[i], x, y);
            }
            assert(rects_contain(clean@, x, y) == rects_contain(rects@, x, y));
        }
    }
    let mut out: Vec<Rect> = Vec::new();
    let mut b: usize = 0;
    while b < bands.len()
        invariant
            0 <= b <= bands@.len(),
            bv == bands_view(bands@),
            out@ == flatten_bands(bv.take(b as int)),
        decreases bands@.len() - b,
    {
        let band = &bands[b];
        let mut j: usize = 0;
        proof {
            assert(band_rects(bv[b as int]).take(0) =~= Seq::<Rect>::empty());
            assert(out@ =~= flatten_bands(bv.take(b as int)) + band_rects(bv[b as int]).take(0));
        }
        while j < band.spans.len()
            invariant
                0 <= b < bands@.len(),
                bv == bands_view(bands@),
                *band == bands@[b as int],
                0 <= j <= band.spans@.len(),
                out@ == flatten_bands(bv.take(b as int)) + band_rects(bv[b as int]).take(j as int),
            decreases band.spans@.len() - j,
        {
            let s = band.spans[j];
            out.push((s.0, band.top, s.1, band.bottom));
            proof {
                let br = band_rects(bv[b as int]);
                assert(br.take(j + 1) =~= br.take(j as int).push(br[j as int]));
            }
            j = j + 1;
        }
        proof {
            let br = band_rects(bv[b as int]);
            assert(br.take(j as int) =~= br);
            assert(bv.take(b + 1).drop_last() =~= bv.take(b as int));
            assert(bv.take(b + 1).last() == bv[b as int]);
        }
        b = b + 1;
    }
    proof {
        assert(bv.take(bands@.len() as int) =~= bv);
        assert(canonical_bands(bv) && flatten_bands(bv) == out@);
        assert forall|x: int, y: int| rects_contain(out@, x, y) == rects_contain(rects@, x, y) by {
            lemma_flatten_contains(bv, x, y);
        }
    }
    out
}


/// `GetRgnBox`/`CombineRgn` result for a region with no rectangles.
pub const NULLREGION: i32 = 1;
/// Result for a region of exactly one rectangle.
pub const SIMPLEREGION: i32 = 2;
/// Result for a region of two or more rectangles.
pub const COMPLEXREGION: i32 = 3;
/// Result when the operation could not be carried out.
pub const ERROR: i32 = 0;

pub open spec fn spec_region_complexity(n: nat) -> i32 {
    if n == 0 {
        NULLREGION
    } else if n == 1 {
        SIMPLEREGION
    } else {
        COMPLEXREGION
    }
}

/// Classifies a region by how many rectangles hold it.
pub fn region_complexity(rects: &[Rect]) -> (r: i32)
    ensures
        r == spec_region_complexity(rects@.len()),
{
    if rects.len() == 0 {
        NULLREGION
    } else if rects.len() == 1 {
        SIMPLEREGION
    } else {
        COMPLEXREGION
    }
}

/// The smallest rectangle around all rectangles of the list, starting from
/// the inverted box `(i32::MAX, i32::MAX, i32::MIN, i32::MIN)`.
pub open spec fn spec_bounding_box(rs: Seq<Rect>) -> Rect
    decreases rs.len(),
{
    if rs.len() == 0 {
        (i32::MAX, i32::MAX, i32::MIN, i32::MIN)
    } else {
        let b = spec_bounding_box(rs.drop_last());
        let r = rs.last();
        (imin(b.0, r.0), imin(b.1, r.1), imax(b.2, r.2), imax(b.3, r.3))
    }
}

pub fn bounding_box(rects: &[Rect]) -> (b: Rect)
    ensures
        b == spec_bounding_box(rects@),
{
    let mut b: Rect = (i32::MAX, i32::MAX, i32::MIN, i32::MIN);
    let mut i: usize = 0;
    while i < rects.len()
        invariant
            0 <= i <= rects@.len(),
            b == spec_bounding_box(rects@.subrange(0, i as int)),
        decreases rects@.len() - i,
    {
        let r = rects[i];
        b = (
            if b.0 <= r.0 { b.0 } else { r.0 },
            if b.1 <= r.1 { b.1 } else { r.1 },
            if b.2 >= r.2 { b.2 } else { r.2 },
            if b.3 >= r.3 { b.3 } else { r.3 },
        );
        proof {
            let s = rects@.subrange(0, i + 1);
            assert(s.drop_last() =~= rects@.subrange(0, i as int));
        }
        i = i + 1;
    }
    proof {
        assert(rects@.subrange(0, rects@.len() as int) =~= rects@);
    }
    b
}

/// The box a `GetRgnBox` call reports and its result code: no box and
/// `NULLREGION` for a region without rectangles; otherwise the bounding box,
/// with `SIMPLEREGION` when that box is not empty.
pub fn region_box(rects: &[Rect]) -> (r: (Option<Rect>, i32))
    ensures
        rects@.len() == 0 ==> r == (None::<Rect>, NULLREGION),
        rects@.len() > 0 ==> r == (Some(spec_bounding_box(rects@)), if rect_nonempty(spec_bounding_box(rects@)) { SIMPLEREGION } else { NULLREGION }),
{
    if rects.len() == 0 {
        return (None, NULLREGION);
    }
    let b = bounding_box(rects);
    let code = if b.0 < b.2 && b.1 < b.3 { SIMPLEREGION } else { NULLREGION };
    (Some(b), code)
}

proof fn lemma_rects_concat_r(a: Seq<Rect>, b: Seq<Rect>, x: int, y: int)
    ensures
        rects_contain(a + b, x, y) == (rects_contain(a, x, y) || rects_contain(b, x, y)),
{
    crate::region_spec::lemma_rects_concat(a, b, x, y);
}

fn append_rects(dst: &mut Vec<Rect>, src: &Vec<Rect>)
    ensures
        final(dst)@ == old(dst)@ + src@,
{
    let mut i: usize = 0;
    while i < src.len()
        invariant
            0 <= i <= src@.len(),
            dst@ == old(dst)@ + src@.subrange(0, i as int),
        decreases src@.len() - i,
    {
        dst.push(src[i]);
        proof {
            assert(dst@ =~= old(dst)@ + src@.subrange(0, i + 1));
        }
        i = i + 1;
    }
    proof {
        assert(src@.subrange(0, src@.len() as int) =~= src@);
    }
}

fn copy_rects(src: &[Rect]) -> (out: Vec<Rect>)
    ensures
        out@ == src@,
{
    let mut out: Vec<Rect> = Vec::new();
    let mut i: usize = 0;
    while i < src.len()
        invariant
            0 <= i <= src@.len(),
            out@ == src@.subrange(0, i as int),
        decreases src@.len() - i,
    {
        out.push(src[i]);
        proof {
            assert(out@ =~= src@.subrange(0, i + 1));
        }
        i = i + 1;
    }
    proof {
        assert(src@.subrange(0, src@.len() as int) =~= src@);
    }
    out
}

/// Every non-empty overlap of a rectangle of `a` with a rectangle of `b`.
fn pairwise_intersections(a: &[Rect], b: &[Rect]) -> (out: Vec<Rect>)
    ensures
        forall|x: int, y: int| rects_contain(out@, x, y) == (rects_contain(a@, x, y) && rects_contain(b@, x, y)),
{
    let mut out: Vec<Rect> = Vec::new();
    let mut i: usize = 0;
    while i < a.len()
        invariant
            0 <= i <= a@.len(),
            forall|x: int, y: int| #![trigger rects_contain(out@, x, y)]
                rects_contain(out@, x, y) == (rects_contain(a@.subrange(0, i as int), x, y) && rects_contain(b@, x, y)),
        decreases a@.len() - i,
    {
        let ra = a[i];
        let mut j: usize = 0;
        let ghost start = out@;
        while j < b.len()
            invariant
                0 <= i < a@.len(),
                ra == a@[i as int],
                0 <= j <= b@.len(),
                forall|x: int, y: int| #![trigger rects_contain(start, x, y)]
                    rects_contain(start, x, y) == (rects_contain(a@.subrange(0, i as int), x, y) && rects_contain(b@, x, y)),
                forall|x: int, y: int| #![trigger rects_contain(out@, x, y)]
                    rects_contain(out@, x, y) == (rects_contain(start, x, y) || (rect_contains(ra, x, y) && rects_contain(b@.subrange(0, j as int), x, y))),
            decreases b@.len() - j,
        {
            let ghost before = out@;
            let inter = intersect_rect(ra, b[j]);
            if let Some(r) = inter {
                out.push(r);
            }
            proof {
                assert(b@.subrange(0, j + 1) =~= b@.subrange(0, j as int).push(b@[j as int]));
                assert forall|x: int, y: int| #![trigger rects_contain(out@, x, y)]
                    rects_contain(out@, x, y) == (rects_contain(start, x, y) || (rect_contains(ra, x, y) && rects_contain(b@.subrange(0, j + 1), x, y))) by {
                    lemma_rects_push(b@.subrange(0, j as int), b@[j as int], x, y);
                    if let Some(r) = inter {
                        lemma_rects_push(before, r, x, y);
                    } else {
                        assert(out@ == before);
                    }
                }
            }
            j = j + 1;
        }
        proof {
            assert(b@.subrange(0, b@.len() as int) =~= b@);
            assert(a@.subrange(0, i + 1) =~= a@.subrange(0, i as int).push(ra));
            assert forall|x: int, y: int| #![trigger rects_contain(out@, x, y)]
                rects_contain(out@, x, y) == (rects_contain(a@.subrange(0, i + 1), x, y) && rects_contain(b@, x, y)) by {
                lemma_rects_push(a@.subrange(0, i as int), ra, x, y);
            }
        }
        i = i + 1;
    }
    proof {
        assert(a@.subrange(0, a@.len() as int) =~= a@);
    }
    out
}

/// `CombineRgn` modes.
pub const RGN_AND: u32 = 1;
pub const RGN_OR: u32 = 2;
pub const RGN_XOR: u32 = 3;
pub const RGN_DIFF: u32 = 4;
pub const RGN_COPY: u32 = 5;

/// Which points the combined region covers for the set-like modes.
pub open spec fn combine_contains(r1: Seq<Rect>, r2: Seq<Rect>, mode: u32, x: int, y: int) -> bool {
    let a = rects_contain(r1, x, y);
    let b = rects_contain(r2, x, y);
    if mode == RGN_AND {
        a && b
    } else if mode == RGN_OR {
        a || b
    } else if mode == RGN_XOR {
        a != b
    } else if mode == RGN_DIFF {
        a && !b
    } else {
        rect_contains(spec_bounding_box(r1 + r2), x, y)
    }
}

/// The rectangles `CombineRgn` stores in the destination region. `RGN_COPY`
/// keeps the first region exactly as written; every other mode yields the
/// normal form of the combined point set (an unknown mode falls back to the
/// bounding box of both regions).
pub fn combine_region(r1: &[Rect], r2: &[Rect], mode: u32) -> (out: Vec<Rect>)
    ensures
        mode == RGN_COPY ==> out@ == r1@,
        mode != RGN_COPY ==> is_banded_form(out@),
        mode != RGN_COPY ==> forall|x: int, y: int| rects_contain(out@, x, y) == combine_contains(r1@, r2@, mode, x, y),
{
    if mode == RGN_COPY {
        return copy_rects(r1);
    }
    let raw: Vec<Rect> = if mode == RGN_AND {
        pairwise_intersections(r1, r2)
    } else if mode == RGN_OR {
        let mut v = copy_rects(r1);
        let w = copy_rects(r2);
        append_rects(&mut v, &w);
        proof {
            assert forall|x: int, y: int| rects_contain(v@, x, y) == combine_contains(r1@, r2@, mode, x, y) by {
                lemma_rects_concat_r(r1@, r2@, x, y);
            }
        }
        v
    } else if mode == RGN_XOR {
        let mut v = subtract_region_rects(r1, r2);
        let w = subtract_region_rects(r2, r1);
        let ghost v0 = v@;
        append_rects(&mut v, &w);
        proof {
            assert forall|x: int, y: int| rects_contain(v@, x, y) == combine_contains(r1@, r2@, mode, x, y) by {
                lemma_rects_concat_r(v0, w@, x, y);
            }
        }
        v
    } else if mode == RGN_DIFF {
        subtract_region_rects(r1, r2)
    } else {
        let mut all = copy_rects(r1);
        let w = copy_rects(r2);
        append_rects(&mut all, &w);
        let b = bounding_box(all.as_slice());
        let mut v = Vec::new();
        v.push(b);
        proof {
            assert(all@ == r1@ + r2@);
            assert forall|x: int, y: int| rects_contain(v@, x, y) == combine_contains(r1@, r2@, mode, x, y) by {
                if rect_contains(b, x, y) {
                    assert(rect_contains(v@[0], x, y));
                }
            }
        }
        v
    };
    let out = canonicalize_rects(raw.as_slice());
    proof {
        assert forall|x: int, y: int| rects_contain(out@, x, y) == combine_contains(r1@, r2@, mode, x, y) by {
            assert(rects_contain(out@, x, y) == rects_contain(raw@, x, y));
        }
    }
    out
}

fn rect_lists_equal(a: &Vec<Rect>, b: &Vec<Rect>) -> (r: bool)
    ensures
        r == (a@ == b@),
{
    if a.len() != b.len() {
        return false;
    }
    let mut i: usize = 0;
    while i < a.len()
        invariant
            0 <= i <= a@.len(),
            a@.len() == b@.len(),
            forall|k: int| 0 <= k < i ==> a@[k] == b@[k],
        decreases a@.len() - i,
    {
        let p = a[i];
        let q = b[i];
        if p.0 != q.0 || p.1 != q.1 || p.2 != q.2 || p.3 != q.3 {
            return false;
        }
        i = i + 1;
    }
    proof {
        assert(a@ =~= b@);
    }
    true
}

/// `EqualRgn`: two regions are equal exactly when they cover the same points.
pub fn regions_equal(r1: &[Rect], r2: &[Rect]) -> (r: bool)
    ensures
        r == same_coverage(r1@, r2@),
{
    let c1 = canonicalize_rects(r1);
    let c2 = canonicalize_rects(r2);
    let eq = rect_lists_equal(&c1, &c2);
    proof {
        if same_coverage(r1@, r2@) {
            lemma_canonical_form_unique(c1@, r1@, c2@, r2@);
        }
        if eq {
            assert forall|x: int, y: int| rects_contain(r1@, x, y) == rects_contain(r2@, x, y) by {
                assert(rects_contain(c1@, x, y) == rects_contain(r1@, x, y));
                assert(rects_contain(c2@, x, y) == rects_contain(r2@, x, y));
            }
        }
    }
    eq
}

/// Law: putting a normal form through the normalisation again changes
/// nothing.
pub proof fn lemma_canonical_form_idempotent(out: Seq<Rect>, input: Seq<Rect>, again: Seq<Rect>)
    requires
        is_canonical_form_of(out, input),
        is_canonical_form_of(again, out),
    ensures
        again == out,
{
    lemma_banded_form_unique(again, out);
}

/// Law: the order (and repetition) of the rectangles does not change the
/// normal form: two lists holding the same rectangles normalise alike.
pub proof fn lemma_canonical_form_order_insensitive(a: Seq<Rect>, b: Seq<Rect>, out_a: Seq<Rect>, out_b: Seq<Rect>)
    requires
        forall|r: Rect| a.contains(r) <==> b.contains(r),
        is_canonical_form_of(out_a, a),
        is_canonical_form_of(out_b, b),
    ensures
        out_a == out_b,
{
    assert forall|x: int, y: int| rects_contain(a, x, y) == rects_contain(b, x, y) by {
        if rects_contain(a, x, y) {
            let i = choose|i: int| 0 <= i < a.len() && #[trigger] rect_contains(a[i], x, y);
            assert(a.contains(a[i]));
            let j = choose|j: int| 0 <= j < b.len() && b[j] == a[i];
            assert(rect_contains(b[j], x, y));
        }
        if rects_contain(b, x, y) {
            let i = choose|i: int| 0 <= i < b.len() && #[trigger] rect_contains(b[i], x, y);
            assert(b.contains(b[i]));
            let j = choose|j: int| 0 <= j < a.len() && a[j] == b[i];
            assert(rect_contains(a[j], x, y));
        }
    }
    lemma_canonical_form_unique(out_a, a, out_b, b);
}

} // verus!
