//! Host-window surface bitmaps: when a frame may be shown first, and the
//! bookkeeping of full uploads, queued partial updates and open DCs.

use vstd::prelude::*;
use std::collections::{HashMap, HashSet};
use crate::win_frame::WinFrame;
use crate::geometry::{Rect, intersect_rect, spec_intersect_rect};

verus! {

broadcast use vstd::std_specs::hash::group_hash_axioms;

/// Pixels with a non-zero alpha byte.
pub open spec fn count_visible(px: Seq<u32>) -> nat
    decreases px.len(),
{
    if px.len() == 0 { 0 } else { count_visible(px.drop_last()) + if px.last() >> 24u32 != 0 { 1nat } else { 0nat } }
}

/// Visible pixels whose colour is not black.
pub open spec fn count_non_black(px: Seq<u32>) -> nat
    decreases px.len(),
{
    if px.len() == 0 {
        0
    } else {
        count_non_black(px.drop_last()) + if px.last() >> 24u32 != 0 && px.last() & 0x00FF_FFFF != 0 { 1nat } else { 0nat }
    }
}

/// `count * 100`, saturating at `usize::MAX`.
pub open spec fn percent_numerator(count: nat) -> int {
    if count * 100 > usize::MAX { usize::MAX as int } else { (count * 100) as int }
}

/// A first frame is shown only when it has enough content: at least 12% of
/// its pixels visible and not black, or at least 85% visible with some
/// colour. A black buffer or a bare border is held back.
pub open spec fn presentable(px: Seq<u32>) -> bool {
    px.len() > 0 && ({
        let visible_percent = percent_numerator(count_visible(px)) / (px.len() as int);
        let non_black_percent = percent_numerator(count_non_black(px)) / (px.len() as int);
        non_black_percent >= 12 || (visible_percent >= 85 && count_non_black(px) > 0)
    })
}

fn sat_mul100(n: usize) -> (r: usize)
    ensures
        r == percent_numerator(n as nat),
{
    if n > usize::MAX / 100 { usize::MAX } else { n * 100 }
}

pub fn pixels_look_presentable_as_initial_frame(pixels: &[u32]) -> (r: bool)
    ensures
        r == presentable(pixels@),
{
    if pixels.len() == 0 {
        return false;
    }
    let mut visible: usize = 0;
    let mut non_black: usize = 0;
    let mut i: usize = 0;
    while i < pixels.len()
        invariant
            0 <= i <= pixels@.len(),
            visible == count_visible(pixels@.take(i as int)),
            non_black == count_non_black(pixels@.take(i as int)),
            non_black <= visible <= i,
        decreases pixels@.len() - i,
    {
        proof {
            assert(pixels@.take(i + 1).drop_last() =~= pixels@.take(i as int));
        }
        let p = pixels[i];
        if p >> 24 != 0 {
            visible = visible + 1;
            if p & 0x00FF_FFFF != 0 {
                non_black = non_black + 1;
            }
        }
        i = i + 1;
    }
    proof {
        assert(pixels@.take(pixels@.len() as int) =~= pixels@);
    }
    let total = pixels.len();
    let visible_percent = sat_mul100(visible) / total;
    let non_black_percent = sat_mul100(non_black) / total;
    non_black_percent >= 12 || (visible_percent >= 85 && non_black > 0)
}


/// A rectangle of pixels to copy into a surface bitmap on the GPU side.
#[derive(Debug, Clone, PartialEq)]
pub struct GpuBitmapUpdate {
    pub surface_bitmap: u32,
    pub x: u32,
    pub y: u32,
    pub width: u32,
    pub height: u32,
    pub pixels: Vec<u32>,
}

/// A drawing command executed directly on a surface bitmap's GPU copy.
#[derive(Debug, Clone, PartialEq)]
pub enum GpuDrawCommand {
    FillRect { surface_bitmap: u32, left: i32, top: i32, right: i32, bottom: i32, color: u32 },
    Line { surface_bitmap: u32, x1: i32, y1: i32, x2: i32, y2: i32, color: u32 },
    TextMask { surface_bitmap: u32, x: i32, y: i32, width: u32, height: u32, color: u32, alpha: Vec<u8> },
    /// `uv` holds the bit patterns (`f32::to_bits`) of the source texture
    /// coordinates left, top, right, bottom.
    Blit {
        surface_bitmap: u32,
        left: i32,
        top: i32,
        right: i32,
        bottom: i32,
        src_width: u32,
        src_height: u32,
        uv: [u32; 4],
        pixels: Vec<u32>,
    },
}

/// One queued change to a surface bitmap's GPU copy, in queue order.
#[derive(Debug, Clone, PartialEq)]
pub enum GpuSurfaceOp {
    Upload(GpuBitmapUpdate),
    Draw(GpuDrawCommand),
}

/// The synchronisation state of one surface bitmap.
pub struct SurfaceBitmapSyncState {
    /// The next render uploads the whole CPU buffer.
    pub needs_full_upload: bool,
    /// Partial uploads and draw commands queued since the last render.
    pub ops: Vec<GpuSurfaceOp>,
    /// The bitmap holds real output, not the initial empty buffer.
    pub has_content: bool,
    /// Open DCs that have the bitmap selected.
    pub active_dc_count: u32,
    /// Closing the window DC must send the final CPU snapshot once more.
    pub needs_release_sync: bool,
}

/// The state of one surface bitmap, with the queue as a sequence.
pub struct SyncView {
    pub needs_full_upload: bool,
    pub ops: Seq<GpuSurfaceOp>,
    pub has_content: bool,
    pub active_dc_count: u32,
    pub needs_release_sync: bool,
}

impl View for SurfaceBitmapSyncState {
    type V = SyncView;

    open spec fn view(&self) -> SyncView {
        SyncView {
            needs_full_upload: self.needs_full_upload,
            ops: self.ops@,
            has_content: self.has_content,
            active_dc_count: self.active_dc_count,
            needs_release_sync: self.needs_release_sync,
        }
    }
}

/// The state of a bitmap with no recorded state: nothing pending.
pub open spec fn empty_sync() -> SyncView {
    SyncView { needs_full_upload: false, ops: Seq::empty(), has_content: false, active_dc_count: 0, needs_release_sync: false }
}

/// The state of a new surface bitmap: a full upload is due.
pub open spec fn fresh_sync() -> SyncView {
    SyncView { needs_full_upload: true, ..empty_sync() }
}

/// Marking dirty: a full upload is due, and it supersedes what was queued.
pub open spec fn dirtied(s: SyncView) -> SyncView {
    SyncView { needs_full_upload: true, needs_release_sync: false, ops: Seq::empty(), ..s }
}

pub open spec fn with_content(s: SyncView) -> SyncView {
    SyncView { has_content: true, ..s }
}

/// A GDI draw went to the bitmap's CPU buffer; unless a full upload is due,
/// the final snapshot is sent again when the DC is released.
pub open spec fn release_noted(s: SyncView) -> SyncView {
    SyncView {
        has_content: true,
        needs_release_sync: if !s.needs_full_upload { true } else { s.needs_release_sync },
        ..s
    }
}

pub open spec fn dc_begun(s: SyncView) -> SyncView {
    SyncView { active_dc_count: if s.active_dc_count == u32::MAX { u32::MAX } else { (s.active_dc_count + 1) as u32 }, ..s }
}

pub open spec fn dc_ended(s: SyncView) -> SyncView {
    SyncView { active_dc_count: if s.active_dc_count == 0 { 0 } else { (s.active_dc_count - 1) as u32 }, ..s }
}

/// Consuming the full-upload flag; a due full upload drops the queue.
pub open spec fn full_upload_consumed(s: SyncView) -> SyncView {
    SyncView { needs_full_upload: false, ops: if s.needs_full_upload { Seq::empty() } else { s.ops }, ..s }
}

/// Queuing a partial upload: before the first presentable frame, an
/// unpresentable one is dropped and a presentable one turns into a full
/// upload; while a full upload is due it is dropped; otherwise it is queued.
pub open spec fn upload_queued(s: SyncView, update: GpuBitmapUpdate) -> SyncView {
    if !s.has_content && !presentable(update.pixels@) {
        s
    } else if !s.has_content {
        SyncView { has_content: true, needs_full_upload: true, needs_release_sync: false, ops: Seq::empty(), ..s }
    } else if s.needs_full_upload {
        s
    } else {
        SyncView { needs_release_sync: true, ops: s.ops.push(GpuSurfaceOp::Upload(update)), ..s }
    }
}

/// Queuing a draw command: the first one marks the bitmap as having
/// content without a full upload; while a full upload is due it is dropped.
pub open spec fn draw_queued(s: SyncView, command: GpuDrawCommand) -> SyncView {
    let s1 = if !s.has_content { SyncView { has_content: true, needs_full_upload: false, ..s } } else { s };
    if s1.needs_full_upload {
        s1
    } else {
        SyncView { needs_release_sync: true, ops: s1.ops.push(GpuSurfaceOp::Draw(command)), ..s1 }
    }
}

pub open spec fn release_cleared(s: SyncView) -> SyncView {
    SyncView { needs_release_sync: false, ..s }
}

/// The surface bitmap of the window `hwnd`, or 0 where there is no such window.
pub open spec fn window_surface_bitmap(frame: &WinFrame, hwnd: u32) -> u32 {
    if frame.window_map().contains_key(hwnd) { frame.window_map()[hwnd].surface_bitmap } else { 0 }
}

pub open spec fn ops_taken(s: SyncView) -> SyncView {
    SyncView { ops: Seq::empty(), ..s }
}

pub open spec fn draw_target(command: GpuDrawCommand) -> u32 {
    match command {
        GpuDrawCommand::FillRect { surface_bitmap, .. } => surface_bitmap,
        GpuDrawCommand::Line { surface_bitmap, .. } => surface_bitmap,
        GpuDrawCommand::TextMask { surface_bitmap, .. } => surface_bitmap,
        GpuDrawCommand::Blit { surface_bitmap, .. } => surface_bitmap,
    }
}

/// The partial uploads among `ops`, in order.
pub open spec fn uploads_of(ops: Seq<GpuSurfaceOp>) -> Seq<GpuBitmapUpdate>
    decreases ops.len(),
{
    if ops.len() == 0 {
        Seq::empty()
    } else {
        let rest = uploads_of(ops.drop_last());
        match ops.last() {
            GpuSurfaceOp::Upload(u) => rest.push(u),
            GpuSurfaceOp::Draw(_) => rest,
        }
    }
}

/// The draw commands among `ops`, in order.
pub open spec fn draws_of(ops: Seq<GpuSurfaceOp>) -> Seq<GpuDrawCommand>
    decreases ops.len(),
{
    if ops.len() == 0 {
        Seq::empty()
    } else {
        let rest = draws_of(ops.drop_last());
        match ops.last() {
            GpuSurfaceOp::Draw(c) => rest.push(c),
            GpuSurfaceOp::Upload(_) => rest,
        }
    }
}

/// `v` clamped to `0..=hi`.
pub open spec fn clip_coord(v: i32, hi: u32) -> int {
    if v < 0 { 0 } else if v > hi { hi as int } else { v as int }
}

/// Whether a rectangle upload from a `bw` by `bh` buffer covers any pixel
/// once clipped to the buffer (sizes beyond `i32::MAX` clip to nothing).
pub open spec fn rect_upload_nonempty(bw: u32, bh: u32, left: i32, top: i32, right: i32, bottom: i32) -> bool {
    &&& bw <= i32::MAX && bh <= i32::MAX
    &&& clip_coord(left, bw) < clip_coord(right, bw)
    &&& clip_coord(top, bh) < clip_coord(bottom, bh)
}

/// The rows `top..top + rows` of the clipped rectangle, row after row.
pub open spec fn rect_rows(pixels: Seq<u32>, bw: int, left: int, width: int, top: int, rows: nat) -> Seq<u32>
    decreases rows,
{
    if rows == 0 {
        Seq::empty()
    } else {
        let y = top + rows - 1;
        rect_rows(pixels, bw, left, width, top, (rows - 1) as nat) + pixels.subrange(y * bw + left, y * bw + left + width)
    }
}

/// The update that a rectangle upload sends: the clipped rectangle and its
/// pixels copied out of the row-major `bw`-wide buffer.
pub open spec fn is_rect_update(
    u: GpuBitmapUpdate, hbmp: u32, pixels: Seq<u32>, bw: u32, bh: u32, left: i32, top: i32, right: i32, bottom: i32,
) -> bool {
    let cl = clip_coord(left, bw);
    let ct = clip_coord(top, bh);
    let cr = clip_coord(right, bw);
    let cb = clip_coord(bottom, bh);
    &&& u.surface_bitmap == hbmp
    &&& u.x == cl && u.y == ct && u.width == cr - cl && u.height == cb - ct
    &&& u.pixels@ == rect_rows(pixels, bw as int, cl, cr - cl, ct, (cb - ct) as nat)
}

/// A due full upload and queued partial operations never coexist.
pub open spec fn sync_consistent(s: SyncView) -> bool {
    s.needs_full_upload ==> s.ops.len() == 0
}

/// Every operation on a surface bitmap's state keeps it consistent: a
/// pending full upload never coexists with queued partial operations.
pub proof fn lemma_sync_consistency_preserved(s: SyncView, u: GpuBitmapUpdate, c: GpuDrawCommand)
    requires
        sync_consistent(s),
    ensures
        sync_consistent(empty_sync()),
        sync_consistent(fresh_sync()),
        sync_consistent(dirtied(s)),
        sync_consistent(with_content(s)),
        sync_consistent(release_noted(s)),
        sync_consistent(dc_begun(s)),
        sync_consistent(dc_ended(s)),
        sync_consistent(full_upload_consumed(s)),
        sync_consistent(upload_queued(s, u)),
        sync_consistent(draw_queued(s, c)),
        sync_consistent(ops_taken(s)),
        sync_consistent(release_cleared(s)),
{
}

/// After marking dirty, the next consume reports a full upload and leaves
/// no partial operation queued; a second consume reports none.
pub proof fn lemma_dirty_then_consume(s: SyncView)
    ensures
        dirtied(s).needs_full_upload,
        full_upload_consumed(dirtied(s)).ops.len() == 0,
        !full_upload_consumed(full_upload_consumed(dirtied(s))).needs_full_upload,
{
}

/// While a full upload is due on a bitmap with content, partial uploads
/// and draw commands are dropped.
pub proof fn lemma_pending_full_upload_drops_partial_ops(s: SyncView, u: GpuBitmapUpdate, c: GpuDrawCommand)
    requires
        s.has_content,
        s.needs_full_upload,
    ensures
        upload_queued(s, u) == s,
        draw_queued(s, c) == s,
{
}

/// Before the first presentable frame nothing is queued: an unpresentable
/// upload changes nothing, and a presentable one schedules a full upload.
pub proof fn lemma_first_frame_gate(s: SyncView, u: GpuBitmapUpdate)
    requires
        !s.has_content,
    ensures
        !presentable(u.pixels@) ==> upload_queued(s, u) == s,
        presentable(u.pixels@) ==> upload_queued(s, u).has_content && upload_queued(s, u).needs_full_upload
            && upload_queued(s, u).ops.len() == 0,
{
}

/// Opening and then closing a DC restores the open-DC count.
pub proof fn lemma_dc_begin_end(s: SyncView)
    requires
        s.active_dc_count < u32::MAX,
    ensures
        dc_ended(dc_begun(s)) == s,
        dc_begun(s).active_dc_count > 0,
{
}

/// A queued upload on an up-to-date bitmap with content is the last op.
pub proof fn lemma_upload_is_queued_last(s: SyncView, u: GpuBitmapUpdate)
    requires
        s.has_content,
        !s.needs_full_upload,
    ensures
        upload_queued(s, u).ops == s.ops.push(GpuSurfaceOp::Upload(u)),
        uploads_of(upload_queued(s, u).ops) == uploads_of(s.ops).push(u),
        draws_of(upload_queued(s, u).ops) == draws_of(s.ops),
{
    assert(upload_queued(s, u).ops.drop_last() =~= s.ops);
}

/// The state after queuing `cmds` in order.
pub open spec fn draws_applied(s: SyncView, cmds: Seq<GpuDrawCommand>) -> SyncView
    decreases cmds.len(),
{
    if cmds.len() == 0 { s } else { draw_queued(draws_applied(s, cmds.drop_last()), cmds.last()) }
}

/// The fills of `rect` clipped to each clip rectangle in turn (empty
/// intersections give none).
pub open spec fn clipped_fills(hbmp: u32, clips: Seq<Rect>, rect: Rect, color: u32) -> Seq<GpuDrawCommand>
    decreases clips.len(),
{
    if clips.len() == 0 {
        Seq::empty()
    } else {
        let rest = clipped_fills(hbmp, clips.drop_last(), rect, color);
        match spec_intersect_rect(rect, clips.last()) {
            Some(c) => rest.push(GpuDrawCommand::FillRect { surface_bitmap: hbmp, left: c.0, top: c.1, right: c.2, bottom: c.3, color }),
            None => rest,
        }
    }
}

/// The GPU fills that draw a rectangle: the brush fills its inside, then
/// the pen draws its top, bottom, left and right edges one pixel wide.
pub open spec fn rectangle_fills(
    hbmp: u32, clips: Seq<Rect>, left: i32, top: i32, right: i32, bottom: i32, pen: Option<u32>, brush: Option<u32>,
) -> Seq<GpuDrawCommand> {
    let inside = match brush {
        Some(c) => clipped_fills(hbmp, clips, (left, top, right, bottom), c),
        None => Seq::empty(),
    };
    let edges = match pen {
        Some(c) => clipped_fills(hbmp, clips, (left, top, right, (top + 1) as i32), c)
            + clipped_fills(hbmp, clips, (left, (bottom - 1) as i32, right, bottom), c)
            + clipped_fills(hbmp, clips, (left, top, (left + 1) as i32, bottom), c)
            + clipped_fills(hbmp, clips, ((right - 1) as i32, top, right, bottom), c),
        None => Seq::empty(),
    };
    inside + edges
}

pub proof fn lemma_draws_applied_append(s: SyncView, a: Seq<GpuDrawCommand>, b: Seq<GpuDrawCommand>)
    ensures
        draws_applied(s, a + b) == draws_applied(draws_applied(s, a), b),
    decreases b.len(),
{
    if b.len() == 0 {
        assert(a + b =~= a);
    } else {
        assert((a + b).drop_last() =~= a + b.drop_last());
        lemma_draws_applied_append(s, a, b.drop_last());
    }
}

fn empty_state() -> (s: SurfaceBitmapSyncState)
    ensures
        s@ == empty_sync(),
{
    SurfaceBitmapSyncState { needs_full_upload: false, ops: Vec::new(), has_content: false, active_dc_count: 0, needs_release_sync: false }
}

/// The part of the rectangle `left..right` by `top..bottom` inside the
/// `bw` by `bh` row-major buffer `pixels`: its left and top corner, width,
/// height and pixels row after row; `None` when that part is empty.
pub fn clipped_rect_pixels(pixels: &[u32], bw: u32, bh: u32, left: i32, top: i32, right: i32, bottom: i32)
    -> (r: Option<(u32, u32, u32, u32, Vec<u32>)>)
    requires
        rect_upload_nonempty(bw, bh, left, top, right, bottom) ==>
            (clip_coord(bottom, bh) - 1) * bw + clip_coord(right, bw) <= pixels@.len(),
    ensures
        ({
            let cl = clip_coord(left, bw);
            let ct = clip_coord(top, bh);
            let cr = clip_coord(right, bw);
            let cb = clip_coord(bottom, bh);
            match r {
                Some((x, y, w, h, px)) => rect_upload_nonempty(bw, bh, left, top, right, bottom)
                    && x == cl && y == ct && w == cr - cl && h == cb - ct
                    && px@ == rect_rows(pixels@, bw as int, cl, cr - cl, ct, (cb - ct) as nat),
                None => !rect_upload_nonempty(bw, bh, left, top, right, bottom),
            }
        }),
{
    if bw > 0x7FFF_FFFF || bh > 0x7FFF_FFFF {
        return None;
    }
    let bitmap_width = bw;
    let bw = bw as i32;
    let bh = bh as i32;
    let cl: i32 = if left < 0 { 0 } else if left > bw { bw } else { left };
    let ct: i32 = if top < 0 { 0 } else if top > bh { bh } else { top };
    let cr: i32 = if right < 0 { 0 } else if right > bw { bw } else { right };
    let cb: i32 = if bottom < 0 { 0 } else if bottom > bh { bh } else { bottom };
    if cl >= cr || ct >= cb {
        return None;
    }
    let width = (cr - cl) as usize;
    let stride = bitmap_width as usize;
    let mut rect_pixels: Vec<u32> = Vec::new();
    let mut y = ct;
    while y < cb
        invariant
            0 <= ct <= y <= cb <= bh,
            0 <= cl < cr <= bw,
            bw == bitmap_width,
            stride == bitmap_width,
            width == cr - cl,
            (cb - 1) * bitmap_width + cr <= pixels@.len(),
            rect_pixels@ == rect_rows(pixels@, bitmap_width as int, cl as int, width as int, ct as int, (y - ct) as nat),
        decreases cb - y,
    {
        proof {
            assert(y * bitmap_width <= (cb - 1) * bitmap_width) by (nonlinear_arith)
                requires y <= cb - 1, bitmap_width >= 0;
            assert(y * bitmap_width + cr <= pixels@.len());
            assert(pixels@.len() == pixels.len());
        }
        let row_start = y as usize * stride + cl as usize;
        let mut x: usize = 0;
        let ghost before = rect_pixels@;
        while x < width
            invariant
                0 <= x <= width,
                width == cr - cl,
                row_start + width <= pixels@.len(),
                pixels@.len() == pixels.len(),
                rect_pixels@ == before + pixels@.subrange(row_start as int, row_start + x),
            decreases width - x,
        {
            proof {
                assert(pixels@.subrange(row_start as int, row_start + x + 1)
                    =~= pixels@.subrange(row_start as int, row_start + x).push(pixels@[row_start + x]));
            }
            rect_pixels.push(pixels[row_start + x]);
            x = x + 1;
        }
        proof {
            assert((rect_pixels@) =~= rect_rows(pixels@, bitmap_width as int, cl as int, width as int, ct as int, (y + 1 - ct) as nat));
        }
        y = y + 1;
    }
    Some((cl as u32, ct as u32, width as u32, (cb - ct) as u32, rect_pixels))
}

/// The surface bitmaps bound to host windows, and the state of each.
pub struct SurfaceBitmaps {
    bitmaps: HashSet<u32>,
    sync: HashMap<u32, SurfaceBitmapSyncState>,
}

impl SurfaceBitmaps {
    /// The handles registered as surface bitmaps.
    pub closed spec fn registered(&self) -> Set<u32> {
        self.bitmaps@
    }

    /// The recorded states by handle.
    pub closed spec fn states(&self) -> Map<u32, SyncView> {
        self.sync@.map_values(|s: SurfaceBitmapSyncState| s@)
    }

    /// The state of `h`, or the empty state where none is recorded.
    pub open spec fn state_of(&self, h: u32) -> SyncView {
        if self.states().contains_key(h) { self.states()[h] } else { empty_sync() }
    }

    /// The states after `h` changes to `f` of its state, where it is registered.
    pub open spec fn updated(&self, h: u32, next: SyncView) -> Map<u32, SyncView> {
        if self.registered().contains(h) { self.states().insert(h, next) } else { self.states() }
    }

    /// The states after queuing `cmds`, all aimed at `h`, in order.
    pub open spec fn after_draws(&self, h: u32, cmds: Seq<GpuDrawCommand>) -> Map<u32, SyncView> {
        if cmds.len() == 0 { self.states() } else { self.updated(h, draws_applied(self.state_of(h), cmds)) }
    }

    /// `next` is what queuing the clipped rectangle `left..right` by
    /// `top..bottom` of `pixels` as a partial upload of `h` makes of the
    /// states (see `queue_surface_bitmap_rect_upload`).
    pub open spec fn rect_upload_states(
        &self, next: Map<u32, SyncView>, h: u32, pixels: Seq<u32>, bw: u32, bh: u32,
        left: i32, top: i32, right: i32, bottom: i32,
    ) -> bool {
        if self.registered().contains(h) && rect_upload_nonempty(bw, bh, left, top, right, bottom) {
            exists|u: GpuBitmapUpdate| #![trigger upload_queued(self.state_of(h), u)]
                is_rect_update(u, h, pixels, bw, bh, left, top, right, bottom)
                && next == self.states().insert(h, upload_queued(self.state_of(h), u))
        } else {
            next == self.states()
        }
    }

    pub fn new() -> (r: SurfaceBitmaps)
        ensures
            r.registered() == Set::<u32>::empty(),
            r.states() == Map::<u32, SyncView>::empty(),
    {
        let r = SurfaceBitmaps { bitmaps: HashSet::new(), sync: HashMap::new() };
        proof {
            assert(r.states() =~= Map::<u32, SyncView>::empty());
        }
        r
    }

    fn take_state(&mut self, h: u32) -> (s: SurfaceBitmapSyncState)
        ensures
            s@ == old(self).state_of(h),
            final(self).registered() == old(self).registered(),
            final(self).states() == old(self).states().remove(h),
    {
        let r = match self.sync.remove(&h) {
            Some(s) => s,
            None => empty_state(),
        };
        proof {
            assert(self.states() =~= old(self).states().remove(h));
        }
        r
    }

    fn put_state(&mut self, h: u32, s: SurfaceBitmapSyncState)
        ensures
            final(self).registered() == old(self).registered(),
            final(self).states() == old(self).states().insert(h, s@),
    {
        let ghost v = s@;
        self.sync.insert(h, s);
        proof {
            assert(self.states() =~= old(self).states().insert(h, v));
        }
    }

    /// Registers `hbmp`, a bitmap just created for a host window surface,
    /// with a full upload due.
    pub fn create_surface_bitmap(&mut self, hbmp: u32)
        ensures
            final(self).registered() == old(self).registered().insert(hbmp),
            final(self).states() == old(self).states().insert(hbmp, fresh_sync()),
    {
        self.bitmaps.insert(hbmp);
        let mut s = empty_state();
        s.needs_full_upload = true;
        self.put_state(hbmp, s);
    }

    pub fn is_surface_bitmap(&self, hbmp: u32) -> (r: bool)
        ensures
            r == self.registered().contains(hbmp),
    {
        self.bitmaps.contains(&hbmp)
    }

    /// Schedules a full upload of `hbmp` for the next render.
    pub fn mark_surface_bitmap_dirty(&mut self, hbmp: u32)
        ensures
            final(self).registered() == old(self).registered(),
            final(self).states() == old(self).updated(hbmp, dirtied(old(self).state_of(hbmp))),
    {
        if !self.bitmaps.contains(&hbmp) {
            return;
        }
        let mut s = self.take_state(hbmp);
        s.needs_full_upload = true;
        s.needs_release_sync = false;
        s.ops = Vec::new();
        self.put_state(hbmp, s);
        proof {
            assert(self.states() =~= old(self).states().remove(hbmp).insert(hbmp, dirtied(old(self).state_of(hbmp))));
        }
    }

    /// Records that `hbmp` now holds real GDI output.
    pub fn mark_surface_bitmap_has_content(&mut self, hbmp: u32)
        ensures
            final(self).registered() == old(self).registered(),
            final(self).states() == old(self).updated(hbmp, with_content(old(self).state_of(hbmp))),
    {
        if !self.bitmaps.contains(&hbmp) {
            return;
        }
        let mut s = self.take_state(hbmp);
        s.has_content = true;
        self.put_state(hbmp, s);
        proof {
            assert(self.states() =~= old(self).updated(hbmp, with_content(old(self).state_of(hbmp))));
        }
    }

    /// Records that the final CPU snapshot of `hbmp` must be synchronised
    /// once more when its window DC is released.
    pub fn note_surface_bitmap_release_sync(&mut self, hbmp: u32)
        ensures
            final(self).registered() == old(self).registered(),
            final(self).states() == old(self).updated(hbmp, release_noted(old(self).state_of(hbmp))),
    {
        if !self.bitmaps.contains(&hbmp) {
            return;
        }
        let mut s = self.take_state(hbmp);
        s.has_content = true;
        if !s.needs_full_upload {
            s.needs_release_sync = true;
        }
        self.put_state(hbmp, s);
        proof {
            assert(self.states() =~= old(self).updated(hbmp, release_noted(old(self).state_of(hbmp))));
        }
    }

    /// Whether `hbmp` is a surface bitmap that holds real output.
    pub fn surface_bitmap_has_content(&self, hbmp: u32) -> (r: bool)
        ensures
            r == (self.registered().contains(hbmp) && self.states().contains_key(hbmp) && self.states()[hbmp].has_content),
    {
        if !self.bitmaps.contains(&hbmp) {
            return false;
        }
        match self.sync.get(&hbmp) {
            Some(s) => s.has_content,
            None => false,
        }
    }

    /// Records that a DC with `hbmp` selected was opened.
    pub fn begin_surface_bitmap_dc(&mut self, hbmp: u32)
        ensures
            final(self).registered() == old(self).registered(),
            final(self).states() == old(self).updated(hbmp, dc_begun(old(self).state_of(hbmp))),
    {
        if !self.bitmaps.contains(&hbmp) {
            return;
        }
        let mut s = self.take_state(hbmp);
        s.active_dc_count = s.active_dc_count.saturating_add(1);
        self.put_state(hbmp, s);
        proof {
            assert(self.states() =~= old(self).updated(hbmp, dc_begun(old(self).state_of(hbmp))));
        }
    }

    /// Records that a DC with `hbmp` selected was closed.
    pub fn end_surface_bitmap_dc(&mut self, hbmp: u32)
        ensures
            final(self).registered() == old(self).registered(),
            final(self).states() == old(self).updated(hbmp, dc_ended(old(self).state_of(hbmp))),
    {
        if !self.bitmaps.contains(&hbmp) {
            return;
        }
        let mut s = self.take_state(hbmp);
        s.active_dc_count = s.active_dc_count.saturating_sub(1);
        self.put_state(hbmp, s);
        proof {
            assert(self.states() =~= old(self).updated(hbmp, dc_ended(old(self).state_of(hbmp))));
        }
    }

    /// Whether a DC with the surface bitmap `hbmp` selected is open.
    pub fn surface_bitmap_dc_active(&self, hbmp: u32) -> (r: bool)
        ensures
            r == (self.registered().contains(hbmp) && self.states().contains_key(hbmp)
                && self.states()[hbmp].active_dc_count > 0),
    {
        if !self.bitmaps.contains(&hbmp) {
            return false;
        }
        match self.sync.get(&hbmp) {
            Some(s) => s.active_dc_count > 0,
            None => false,
        }
    }

    /// Consumes the full-upload flag of `hbmp` and returns its former value
    /// (`false` for a handle that is no surface bitmap).
    pub fn consume_surface_bitmap_full_upload(&mut self, hbmp: u32) -> (r: bool)
        ensures
            final(self).registered() == old(self).registered(),
            final(self).states() == old(self).updated(hbmp, full_upload_consumed(old(self).state_of(hbmp))),
            r == (old(self).registered().contains(hbmp) && old(self).state_of(hbmp).needs_full_upload),
    {
        if !self.bitmaps.contains(&hbmp) {
            return false;
        }
        let mut s = self.take_state(hbmp);
        let needs_full_upload = s.needs_full_upload;
        s.needs_full_upload = false;
        if needs_full_upload {
            s.ops = Vec::new();
        }
        self.put_state(hbmp, s);
        proof {
            assert(self.states() =~= old(self).updated(hbmp, full_upload_consumed(old(self).state_of(hbmp))));
        }
        needs_full_upload
    }

    /// Queues a partial upload to the surface bitmap it names.
    pub fn queue_surface_bitmap_upload(&mut self, update: GpuBitmapUpdate)
        ensures
            final(self).registered() == old(self).registered(),
            final(self).states() == old(self).updated(update.surface_bitmap,
                upload_queued(old(self).state_of(update.surface_bitmap), update)),
    {
        let hbmp = update.surface_bitmap;
        if !self.bitmaps.contains(&hbmp) {
            return;
        }
        let ghost u = update;
        let mut s = self.take_state(hbmp);
        if !s.has_content && !pixels_look_presentable_as_initial_frame(update.pixels.as_slice()) {
            self.put_state(hbmp, s);
        } else if !s.has_content {
            s.has_content = true;
            s.needs_full_upload = true;
            s.needs_release_sync = false;
            s.ops = Vec::new();
            self.put_state(hbmp, s);
        } else if s.needs_full_upload {
            self.put_state(hbmp, s);
        } else {
            s.needs_release_sync = true;
            s.ops.push(GpuSurfaceOp::Upload(update));
            self.put_state(hbmp, s);
        }
        proof {
            assert(self.states() =~= old(self).updated(hbmp, upload_queued(old(self).state_of(hbmp), u)));
        }
    }

    /// Queues a draw command to the surface bitmap it names.
    pub fn queue_surface_bitmap_draw_command(&mut self, command: GpuDrawCommand)
        ensures
            final(self).registered() == old(self).registered(),
            final(self).states() == old(self).updated(draw_target(command),
                draw_queued(old(self).state_of(draw_target(command)), command)),
    {
        let hbmp = match &command {
            GpuDrawCommand::FillRect { surface_bitmap, .. } => *surface_bitmap,
            GpuDrawCommand::Line { surface_bitmap, .. } => *surface_bitmap,
            GpuDrawCommand::TextMask { surface_bitmap, .. } => *surface_bitmap,
            GpuDrawCommand::Blit { surface_bitmap, .. } => *surface_bitmap,
        };
        if !self.bitmaps.contains(&hbmp) {
            return;
        }
        let ghost c = command;
        let mut s = self.take_state(hbmp);
        if !s.has_content {
            s.has_content = true;
            s.needs_full_upload = false;
        }
        if !s.needs_full_upload {
            s.needs_release_sync = true;
            s.ops.push(GpuSurfaceOp::Draw(command));
        }
        self.put_state(hbmp, s);
        proof {
            assert(self.states() =~= old(self).updated(hbmp, draw_queued(old(self).state_of(hbmp), c)));
        }
    }

    /// Queues a solid rectangle fill.
    pub fn queue_surface_bitmap_fill_rect(&mut self, surface_bitmap: u32, left: i32, top: i32, right: i32, bottom: i32, color: u32)
        ensures
            final(self).registered() == old(self).registered(),
            final(self).states() == old(self).updated(surface_bitmap, draw_queued(old(self).state_of(surface_bitmap),
                GpuDrawCommand::FillRect { surface_bitmap, left, top, right, bottom, color })),
    {
        self.queue_surface_bitmap_draw_command(GpuDrawCommand::FillRect { surface_bitmap, left, top, right, bottom, color });
    }

    /// Queues a one-pixel line.
    pub fn queue_surface_bitmap_line(&mut self, surface_bitmap: u32, x1: i32, y1: i32, x2: i32, y2: i32, color: u32)
        ensures
            final(self).registered() == old(self).registered(),
            final(self).states() == old(self).updated(surface_bitmap, draw_queued(old(self).state_of(surface_bitmap),
                GpuDrawCommand::Line { surface_bitmap, x1, y1, x2, y2, color })),
    {
        self.queue_surface_bitmap_draw_command(GpuDrawCommand::Line { surface_bitmap, x1, y1, x2, y2, color });
    }

    /// Queues a text alpha mask drawn in `color`.
    pub fn queue_surface_bitmap_text_mask(
        &mut self, surface_bitmap: u32, x: i32, y: i32, width: u32, height: u32, color: u32, alpha: Vec<u8>,
    )
        ensures
            final(self).registered() == old(self).registered(),
            final(self).states() == old(self).updated(surface_bitmap, draw_queued(old(self).state_of(surface_bitmap),
                GpuDrawCommand::TextMask { surface_bitmap, x, y, width, height, color, alpha })),
    {
        self.queue_surface_bitmap_draw_command(GpuDrawCommand::TextMask { surface_bitmap, x, y, width, height, color, alpha });
    }

    /// Queues a blit of `pixels` (`src_width` by `src_height`) into the
    /// rectangle; `uv` holds the source coordinates' `f32` bit patterns.
    pub fn queue_surface_bitmap_blit(
        &mut self, surface_bitmap: u32, left: i32, top: i32, right: i32, bottom: i32,
        src_width: u32, src_height: u32, uv: [u32; 4], pixels: Vec<u32>,
    )
        ensures
            final(self).registered() == old(self).registered(),
            final(self).states() == old(self).updated(surface_bitmap, draw_queued(old(self).state_of(surface_bitmap),
                GpuDrawCommand::Blit { surface_bitmap, left, top, right, bottom, src_width, src_height, uv, pixels })),
    {
        self.queue_surface_bitmap_draw_command(
            GpuDrawCommand::Blit { surface_bitmap, left, top, right, bottom, src_width, src_height, uv, pixels },
        );
    }

    /// Takes the queued operations of `hbmp`, in queue order.
    pub fn take_surface_bitmap_ops(&mut self, hbmp: u32) -> (r: Vec<GpuSurfaceOp>)
        ensures
            final(self).registered() == old(self).registered(),
            final(self).states() == old(self).updated(hbmp, ops_taken(old(self).state_of(hbmp))),
            r@ == (if old(self).registered().contains(hbmp) { old(self).state_of(hbmp).ops } else { Seq::empty() }),
    {
        if !self.bitmaps.contains(&hbmp) {
            return Vec::new();
        }
        let mut s = self.take_state(hbmp);
        let mut ops: Vec<GpuSurfaceOp> = Vec::new();
        std::mem::swap(&mut ops, &mut s.ops);
        self.put_state(hbmp, s);
        proof {
            assert(self.states() =~= old(self).updated(hbmp, ops_taken(old(self).state_of(hbmp))));
        }
        ops
    }

    /// Forgets the surface bitmap `hbmp` and its state.
    pub fn forget_surface_bitmap(&mut self, hbmp: u32)
        ensures
            final(self).registered() == old(self).registered().remove(hbmp),
            final(self).states() == old(self).states().remove(hbmp),
    {
        self.bitmaps.remove(&hbmp);
        let _ = self.take_state(hbmp);
    }

    /// The recorded state of `hbmp`, if any.
    pub fn sync_state(&self, hbmp: u32) -> (r: Option<&SurfaceBitmapSyncState>)
        ensures
            match r {
                Some(s) => self.states().contains_key(hbmp) && s@ == self.states()[hbmp],
                None => !self.states().contains_key(hbmp),
            },
    {
        self.sync.get(&hbmp)
    }

    /// Takes the queued operations of `hbmp` and keeps the partial uploads.
    pub fn take_surface_bitmap_uploads(&mut self, hbmp: u32) -> (r: Vec<GpuBitmapUpdate>)
        ensures
            final(self).registered() == old(self).registered(),
            final(self).states() == old(self).updated(hbmp, ops_taken(old(self).state_of(hbmp))),
            r@ == uploads_of(if old(self).registered().contains(hbmp) { old(self).state_of(hbmp).ops } else { Seq::empty() }),
    {
        let ops = self.take_surface_bitmap_ops(hbmp);
        let ghost all = ops@;
        let mut out: Vec<GpuBitmapUpdate> = Vec::new();
        for op in it: ops.into_iter()
            invariant
                it.seq() == all,
                out@ == uploads_of(all.take(it.index() as int)),
        {
            proof {
                assert(all.take(it.index() + 1).drop_last() =~= all.take(it.index() as int));
            }
            match op {
                GpuSurfaceOp::Upload(u) => out.push(u),
                GpuSurfaceOp::Draw(_) => {},
            }
        }
        proof {
            assert(all.take(all.len() as int) =~= all);
        }
        out
    }

    /// Takes the queued operations of `hbmp` and keeps the draw commands.
    pub fn take_surface_bitmap_draw_commands(&mut self, hbmp: u32) -> (r: Vec<GpuDrawCommand>)
        ensures
            final(self).registered() == old(self).registered(),
            final(self).states() == old(self).updated(hbmp, ops_taken(old(self).state_of(hbmp))),
            r@ == draws_of(if old(self).registered().contains(hbmp) { old(self).state_of(hbmp).ops } else { Seq::empty() }),
    {
        let ops = self.take_surface_bitmap_ops(hbmp);
        let ghost all = ops@;
        let mut out: Vec<GpuDrawCommand> = Vec::new();
        for op in it: ops.into_iter()
            invariant
                it.seq() == all,
                out@ == draws_of(all.take(it.index() as int)),
        {
            proof {
                assert(all.take(it.index() + 1).drop_last() =~= all.take(it.index() as int));
            }
            match op {
                GpuSurfaceOp::Draw(c) => out.push(c),
                GpuSurfaceOp::Upload(_) => {},
            }
        }
        proof {
            assert(all.take(all.len() as int) =~= all);
        }
        out
    }

    /// Queues, as a partial upload, the part of the rectangle `left..right`
    /// by `top..bottom` that lies inside the `bitmap_width` by
    /// `bitmap_height` row-major buffer `pixels`; nothing when that part is
    /// empty or `surface_bitmap` is no surface bitmap.
    pub fn queue_surface_bitmap_rect_upload(
        &mut self, surface_bitmap: u32, pixels: &[u32], bitmap_width: u32, bitmap_height: u32,
        left: i32, top: i32, right: i32, bottom: i32,
    )
        requires
            old(self).registered().contains(surface_bitmap)
                && rect_upload_nonempty(bitmap_width, bitmap_height, left, top, right, bottom) ==>
                (clip_coord(bottom, bitmap_height) - 1) * bitmap_width + clip_coord(right, bitmap_width) <= pixels@.len(),
        ensures
            final(self).registered() == old(self).registered(),
            !(old(self).registered().contains(surface_bitmap)
                && rect_upload_nonempty(bitmap_width, bitmap_height, left, top, right, bottom)) ==>
                final(self).states() == old(self).states(),
            old(self).registered().contains(surface_bitmap)
                && rect_upload_nonempty(bitmap_width, bitmap_height, left, top, right, bottom) ==>
                exists|u: GpuBitmapUpdate| #![trigger upload_queued(old(self).state_of(surface_bitmap), u)]
                    is_rect_update(u, surface_bitmap, pixels@, bitmap_width, bitmap_height, left, top, right, bottom)
                    && final(self).states() == old(self).states().insert(surface_bitmap,
                        upload_queued(old(self).state_of(surface_bitmap), u)),
    {
        if !self.bitmaps.contains(&surface_bitmap) {
            return;
        }
        let (cl, ct, width, height, rect_pixels) = match clipped_rect_pixels(pixels, bitmap_width, bitmap_height, left, top, right, bottom) {
            Some(r) => r,
            None => return,
        };
        let update = GpuBitmapUpdate {
            surface_bitmap,
            x: cl,
            y: ct,
            width,
            height,
            pixels: rect_pixels,
        };
        let ghost u = update;
        proof {
            assert(is_rect_update(u, surface_bitmap, pixels@, bitmap_width, bitmap_height, left, top, right, bottom));
        }
        self.queue_surface_bitmap_upload(update);
    }

    /// When the window's surface bitmap still owes its final CPU snapshot
    /// (see `note_surface_bitmap_release_sync`), schedules a full upload
    /// instead; the owed flag is cleared either way.
    pub fn ensure_window_surface_bitmap_sync(&mut self, frame: &WinFrame, hwnd: u32)
        ensures
            final(self).registered() == old(self).registered(),
            ({
                let sb = window_surface_bitmap(frame, hwnd);
                let s = old(self).state_of(sb);
                final(self).states() == if sb == 0 {
                    old(self).states()
                } else if s.needs_release_sync && old(self).registered().contains(sb) {
                    old(self).states().insert(sb, dirtied(release_cleared(s)))
                } else {
                    old(self).states().insert(sb, release_cleared(s))
                }
            }),
    {
        let surface_bitmap = frame.surface_bitmap_of(hwnd);
        if surface_bitmap == 0 {
            return;
        }
        let mut s = self.take_state(surface_bitmap);
        let needs_release_sync = s.needs_release_sync;
        s.needs_release_sync = false;
        self.put_state(surface_bitmap, s);
        proof {
            assert(self.states() =~= old(self).states().insert(surface_bitmap, release_cleared(old(self).state_of(surface_bitmap))));
        }
        if needs_release_sync {
            self.mark_surface_bitmap_dirty(surface_bitmap);
            proof {
                if old(self).registered().contains(surface_bitmap) {
                    assert(self.states() =~= old(self).states().insert(surface_bitmap,
                        dirtied(release_cleared(old(self).state_of(surface_bitmap)))));
                }
            }
        }
    }

    /// Queues the fills of `left..right` by `top..bottom` clipped to each of
    /// `clip_rects`, in order.
    #[verifier::spinoff_prover]
    pub fn queue_fill_rects_for_clip(
        &mut self, surface_bitmap: u32, clip_rects: &[Rect], left: i32, top: i32, right: i32, bottom: i32, color: u32,
    )
        ensures
            final(self).registered() == old(self).registered(),
            final(self).states() == old(self).after_draws(surface_bitmap,
                clipped_fills(surface_bitmap, clip_rects@, (left, top, right, bottom), color)),
    {
        let ghost clips = clip_rects@;
        let ghost rect: Rect = (left, top, right, bottom);
        let mut i: usize = 0;
        while i < clip_rects.len()
            invariant
                0 <= i <= clips.len(),
                clips == clip_rects@,
                rect == (left, top, right, bottom),
                self.registered() == old(self).registered(),
                self.states() == old(self).after_draws(surface_bitmap, clipped_fills(surface_bitmap, clips.take(i as int), rect, color)),
            decreases clips.len() - i,
        {
            proof {
                assert(clips.take(i + 1).drop_last() =~= clips.take(i as int));
                assert(clips.take(i + 1).last() == clips[i as int]);
            }
            let ghost before = *self;
            let ghost cmds = clipped_fills(surface_bitmap, clips.take(i as int), rect, color);
            match intersect_rect((left, top, right, bottom), clip_rects[i]) {
                Some(c) => {
                    self.queue_surface_bitmap_fill_rect(surface_bitmap, c.0, c.1, c.2, c.3, color);
                    proof {
                        let cmd = GpuDrawCommand::FillRect { surface_bitmap, left: c.0, top: c.1, right: c.2, bottom: c.3, color };
                        assert(clipped_fills(surface_bitmap, clips.take(i + 1), rect, color) == cmds.push(cmd));
                        assert(seq![cmd].drop_last() =~= Seq::<GpuDrawCommand>::empty());
                        assert(seq![cmd].last() == cmd);
                        assert(draws_applied(before.state_of(surface_bitmap), Seq::<GpuDrawCommand>::empty())
                            == before.state_of(surface_bitmap));
                        assert(draws_applied(before.state_of(surface_bitmap), seq![cmd])
                            == draw_queued(before.state_of(surface_bitmap), cmd));
                        assert(self.states() == before.after_draws(surface_bitmap, seq![cmd]));
                        lemma_after_draws_chain(*old(self), before, *self, surface_bitmap, cmds, seq![cmd]);
                        assert(cmds + seq![cmd] =~= cmds.push(cmd));
                    }
                },
                None => {
                    proof {
                        assert(clipped_fills(surface_bitmap, clips.take(i + 1), rect, color) == cmds);
                    }
                },
            }
            i = i + 1;
        }
        proof {
            assert(clips.take(clips.len() as int) =~= clips);
        }
    }

    /// Queues the GPU fills that draw a rectangle with the pen and brush
    /// colours given (`None`: no pen or no brush); see `rectangle_fills`.
    pub fn queue_rectangle_fills(
        &mut self, surface_bitmap: u32, clip_rects: &[Rect], left: i32, top: i32, right: i32, bottom: i32,
        pen: Option<u32>, brush: Option<u32>,
    )
        requires
            pen is Some ==> top < i32::MAX && left < i32::MAX && bottom > i32::MIN && right > i32::MIN,
        ensures
            final(self).registered() == old(self).registered(),
            final(self).states() == old(self).after_draws(surface_bitmap,
                rectangle_fills(surface_bitmap, clip_rects@, left, top, right, bottom, pen, brush)),
    {
        let ghost h = surface_bitmap;
        let ghost inside = match brush {
            Some(c) => clipped_fills(h, clip_rects@, (left, top, right, bottom), c),
            None => Seq::<GpuDrawCommand>::empty(),
        };
        match brush {
            Some(c) => self.queue_fill_rects_for_clip(surface_bitmap, clip_rects, left, top, right, bottom, c),
            None => {},
        }
        proof {
            assert(self.states() == old(self).after_draws(h, inside));
        }
        match pen {
            Some(c) => {
                let ghost e1 = clipped_fills(h, clip_rects@, (left, top, right, (top + 1) as i32), c);
                let ghost e2 = clipped_fills(h, clip_rects@, (left, (bottom - 1) as i32, right, bottom), c);
                let ghost e3 = clipped_fills(h, clip_rects@, (left, top, (left + 1) as i32, bottom), c);
                let ghost e4 = clipped_fills(h, clip_rects@, ((right - 1) as i32, top, right, bottom), c);
                let ghost m0 = *self;
                self.queue_fill_rects_for_clip(surface_bitmap, clip_rects, left, top, right, top + 1, c);
                proof { lemma_after_draws_chain(*old(self), m0, *self, h, inside, e1); }
                let ghost m1 = *self;
                self.queue_fill_rects_for_clip(surface_bitmap, clip_rects, left, bottom - 1, right, bottom, c);
                proof { lemma_after_draws_chain(*old(self), m1, *self, h, inside + e1, e2); }
                let ghost m2 = *self;
                self.queue_fill_rects_for_clip(surface_bitmap, clip_rects, left, top, left + 1, bottom, c);
                proof { lemma_after_draws_chain(*old(self), m2, *self, h, inside + e1 + e2, e3); }
                let ghost m3 = *self;
                self.queue_fill_rects_for_clip(surface_bitmap, clip_rects, right - 1, top, right, bottom, c);
                proof {
                    lemma_after_draws_chain(*old(self), m3, *self, h, inside + e1 + e2 + e3, e4);
                    assert(inside + (e1 + e2 + e3 + e4) =~= inside + e1 + e2 + e3 + e4);
                }
            },
            None => {
                proof {
                    assert(inside + Seq::<GpuDrawCommand>::empty() =~= inside);
                }
            },
        }
    }
}

/// Queuing `a` and then `b` is queuing `a + b`.
pub proof fn lemma_after_draws_chain(
    s0: SurfaceBitmaps, s1: SurfaceBitmaps, s2: SurfaceBitmaps, h: u32, a: Seq<GpuDrawCommand>, b: Seq<GpuDrawCommand>,
)
    requires
        s1.registered() == s0.registered(),
        s2.registered() == s1.registered(),
        s1.states() == s0.after_draws(h, a),
        s2.states() == s1.after_draws(h, b),
    ensures
        s2.states() == s0.after_draws(h, a + b),
{
    if b.len() == 0 {
        assert(a + b =~= a);
    } else if a.len() == 0 {
        assert(a + b =~= b);
    } else {
        lemma_draws_applied_append(s0.state_of(h), a, b);
        if s0.registered().contains(h) {
            assert(s1.state_of(h) == draws_applied(s0.state_of(h), a));
            assert(s2.states() =~= s0.after_draws(h, a + b));
        }
    }
}

} // verus!
