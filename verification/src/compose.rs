//! The frame compositor: for every output frame index and every
//! tile, select the active checkpoint segment, pull or synthesize a
//! tile frame, apply the one-time freeze/desaturation, decide the
//! comparison overlay, and hand the finished canvas (or a warm-up
//! marker) to the caller's sink, stopping early when the sink says
//! so.

use vstd::prelude::*;
use crate::config::{Compare, Config};
use crate::frame::{luma, Frame};
use crate::overlay::draw_overlay;
use crate::plan::{RenderInfo, RenderTileInfo};

verus! {

/// A sink failure that is not a plain stop request: the render
/// aborts with it.
#[derive(Debug, Clone)]
pub struct SinkError {
    pub message: String,
}

/// One call a sink took: the frame index, the payload's pixel size
/// (none during warm-up), whether the sink accepted the call, and —
/// when it did — whether it asked to continue.
#[derive(Debug, Copy, Clone, PartialEq, Eq)]
pub struct SinkCall {
    pub idx: u32,
    pub frame: Option<(u32, u32)>,
    pub accepted: bool,
    pub cont: bool,
}

/// The pixel size of a sink payload, if one came.
pub open spec fn frame_size(frame: Option<&Frame>) -> Option<(u32, u32)> {
    match frame {
        Some(f) => Some((f.width, f.height)),
        None => None,
    }
}

/// Where finished frames go: one call per output frame index, in
/// increasing order, with no payload during warm-up. Returning
/// `Ok(false)` asks the render to stop; an error aborts it.
///
/// Implementations outside this library are relied upon to meet
/// `accept`'s contract; what the render guarantees about its calls
/// is proved relative to it.
pub trait FrameSink {
    /// The calls taken so far, erring ones included. The default
    /// stands for a sink that keeps no record.
    open spec fn log(&self) -> Seq<SinkCall> {
        Seq::empty()
    }

    /// Takes one output frame (or a warm-up marker).
    fn accept(&mut self, frame_idx: u32, frame: Option<&Frame>) -> (r: Result<bool, SinkError>)
        ensures
            r matches Ok(c) ==> final(self).log() == old(self).log().push(
                SinkCall { idx: frame_idx, frame: frame_size(frame), accepted: true, cont: c },
            ),
            r is Err ==> final(self).log() == old(self).log().push(
                SinkCall { idx: frame_idx, frame: frame_size(frame), accepted: false, cont: false },
            ),
    ;
}

/// A sink that records every call, and asks to stop once the frame
/// index reaches a configured point.
pub struct CollectSink {
    pub events: Vec<SinkCall>,
    pub stop_at: Option<u32>,
}

impl CollectSink {
    /// A sink that never asks to stop.
    pub fn new() -> (r: CollectSink)
        ensures
            r.events@ == Seq::<SinkCall>::empty(),
            r.stop_at is None,
    {
        CollectSink { events: Vec::new(), stop_at: None }
    }

    /// A sink that asks to stop at the given frame index.
    pub fn stopping_at(k: u32) -> (r: CollectSink)
        ensures
            r.events@ == Seq::<SinkCall>::empty(),
            r.stop_at == Some(k),
    {
        CollectSink { events: Vec::new(), stop_at: Some(k) }
    }
}

impl FrameSink for CollectSink {
    open spec fn log(&self) -> Seq<SinkCall> {
        self.events@
    }

    fn accept(&mut self, frame_idx: u32, frame: Option<&Frame>) -> (r: Result<bool, SinkError>) {
        let c = match self.stop_at {
            Some(k) => frame_idx < k,
            None => true,
        };
        let size = match frame {
            Some(f) => Some((f.width, f.height)),
            None => None,
        };
        self.events.push(SinkCall { idx: frame_idx, frame: size, accepted: true, cont: c });
        Ok(c)
    }
}

#[verifier::external_type_specification]
#[verifier::external_body]
#[verifier::reject_recursive_types(T)]
pub struct ExReceiver<T>(std::sync::mpsc::Receiver<T>);

/// Relies on `mpsc::Receiver::recv`: blocks for the next queued tile
/// frame, or yields nothing once the sending side is gone — the
/// normal way a shorter source signals completion. What a received
/// frame holds comes from an unverified decode thread, so nothing is
/// promised of it.
#[verifier::external_body]
fn recv_frame(rx: &std::sync::mpsc::Receiver<Frame>) -> (r: Option<Frame>) {
    rx.recv().ok()
}

/// The active segment for a frame index: the last segment whose
/// start does not exceed it (-1 if none does).
pub open spec fn active_seg(segs: Seq<(u32, u32)>, idx: u32) -> int
    decreases segs.len(),
{
    if segs.len() == 0 {
        -1
    } else if segs.last().0 <= idx {
        segs.len() - 1
    } else {
        active_seg(segs.drop_last(), idx)
    }
}

/// When the first segment starts at frame zero, an active segment
/// always exists, starts no later than the index, and every later
/// segment starts after it.
pub proof fn lemma_active_seg(segs: Seq<(u32, u32)>, idx: u32)
    requires
        segs.len() > 0,
        segs[0].0 == 0,
    ensures
        0 <= active_seg(segs, idx) < segs.len(),
        segs[active_seg(segs, idx)].0 <= idx,
        forall|k: int| active_seg(segs, idx) < k < segs.len() ==> (#[trigger] segs[k]).0 > idx,
    decreases segs.len(),
{
    if segs.last().0 <= idx {
    } else {
        assert(segs.len() > 1);
        lemma_active_seg(segs.drop_last(), idx);
        assert(forall|k: int|
            0 <= k < segs.len() - 1 ==> (#[trigger] segs[k]) == segs.drop_last()[k]);
    }
}

/// Finds the active segment by the forward linear scan, keeping the
/// last segment whose start does not exceed the index.
pub fn active_segment(segs: &Vec<(u32, u32)>, idx: u32) -> (k: usize)
    requires
        segs@.len() > 0,
        segs@[0].0 == 0,
    ensures
        k == active_seg(segs@, idx),
{
    let mut k: usize = 0;
    let mut j: usize = 1;
    while j < segs.len()
        invariant
            1 <= j <= segs@.len(),
            0 <= k < j,
            segs@.len() > 0,
            segs@[0].0 == 0,
            segs@[k as int].0 <= idx,
            forall|q: int| k < q < j ==> (#[trigger] segs@[q]).0 > idx,
            k == active_seg(segs@.take(j as int), idx),
        decreases segs@.len() - j,
    {
        proof {
            assert(segs@.take(j + 1).drop_last() =~= segs@.take(j as int));
            assert(segs@.take(j + 1).last() == segs@[j as int]);
        }
        if segs[j].0 <= idx {
            k = j;
        }
        j += 1;
    }
    proof {
        assert(segs@.take(segs@.len() as int) =~= segs@);
    }
    k
}

/// Whether a tile still plays its own footage at this frame index:
/// the index lies before its active segment's end.
pub fn needs_frame(tile: &RenderTileInfo, idx: u32) -> (r: bool)
    requires
        tile.splits@.len() > 0,
        tile.splits@[0].0 == 0,
    ensures
        r == (idx < tile.splits@[active_seg(tile.splits@, idx)].1),
{
    proof {
        lemma_active_seg(tile.splits@, idx);
    }
    let k = active_segment(&tile.splits, idx);
    idx < tile.splits[k].1
}

/// The comparison baseline after one tile's step: cleared when the
/// index opens a new segment, then — in time-loss mode, for segments
/// after the first — stamped with the first index at which a tile is
/// found waiting. One value serves the whole compositor: every
/// tile's segments open at the same frame, so the reset applies to
/// all tiles alike, and the stamp records when the first tile of the
/// group finished — the baseline all the others measure their loss
/// against.
pub open spec fn anchor_after(
    cmp: Option<Compare>,
    seg: (u32, u32),
    idx: u32,
    anchor: Option<u32>,
) -> Option<u32> {
    let a = if idx == seg.0 {
        None
    } else {
        anchor
    };
    if idx >= seg.1 && seg.0 != 0 && cmp == Some(Compare::TimeLoss) && a is None {
        Some(idx)
    } else {
        a
    }
}

/// The comparison overlay for one tile's step, given the baseline
/// after the step: a stamped baseline shows the wait since it, capped
/// at the tile's own segment end, as the inverted (green, minus)
/// reading; time-save mode shows, for a waiting tile, the cushion
/// left to the checkpoint's pause boundary as the plain (red, plus)
/// reading.
pub open spec fn overlay_for(
    cmp: Option<Compare>,
    seg: (u32, u32),
    pause_at: u32,
    idx: u32,
    anchor: Option<u32>,
) -> Option<(bool, u32)> {
    match anchor {
        Some(c) => {
            let m = if idx < seg.1 {
                idx
            } else {
                seg.1
            };
            Some((true, if m >= c { (m - c) as u32 } else { 0u32 }))
        },
        None => {
            if idx >= seg.1 && seg.0 != 0 && cmp == Some(Compare::TimeSave) {
                let m = if idx < pause_at {
                    idx
                } else {
                    pause_at
                };
                Some((false, (m - seg.1) as u32))
            } else {
                None
            }
        },
    }
}

/// In time-save mode the shown difference is never negative — the
/// cushion to the pause boundary cannot be owed — and is exactly
/// zero on the frame that ends the tile's segment.
pub proof fn lemma_time_save_diff(seg: (u32, u32), pause_at: u32, idx: u32)
    requires
        seg.1 <= pause_at,
    ensures
        overlay_for(Some(Compare::TimeSave), seg, pause_at, idx, None) matches Some(d) ==> d.1
            >= 0,
        idx == seg.1 && seg.0 != 0 ==> overlay_for(Some(Compare::TimeSave), seg, pause_at, idx, None)
            == Some((false, 0u32)),
{
}

/// In time-loss mode each tile shows, against the stamped baseline —
/// the first frame index at which any tile of the group was found
/// waiting, one value for all tiles because their segments open at
/// the same frame — the wait `min(frameIndex, segmentEnd) − baseline`
/// as the inverted reading, computed afresh each frame.
pub proof fn lemma_time_loss_diff(
    cmp: Option<Compare>,
    seg: (u32, u32),
    pause_at: u32,
    idx: u32,
    b: u32,
)
    requires
        b <= idx,
        b <= seg.1,
    ensures
        overlay_for(cmp, seg, pause_at, idx, Some(b)) == Some(
            (true, ((if idx < seg.1 { idx as int } else { seg.1 as int }) - b) as u32),
        ),
{
}

/// The freeze fires for a tile's segment exactly on the frame that
/// ends it: with segment starts in order, that frame selects this
/// very segment as active, and no other frame both selects it and
/// equals its end.
pub proof fn lemma_freeze_fires_once(segs: Seq<(u32, u32)>, k: int, idx: u32)
    requires
        segs.len() > 0,
        segs[0].0 == 0,
        0 <= k < segs.len(),
        forall|i: int| 0 <= i < segs.len() ==> (#[trigger] segs[i]).0 <= segs[i].1,
        forall|i: int| 0 <= i < segs.len() - 1 ==> (#[trigger] segs[i]).1 <= segs[i + 1].0,
        k < segs.len() - 1 ==> segs[k].1 < segs[k + 1].0,
    ensures
        active_seg(segs, idx) == k && idx == segs[k].1 <==> idx == segs[k].1,
    decreases segs.len(),
{
    if idx == segs[k].1 {
        // starts are sorted, so the active segment of this index is k
        assert(forall|i: int, j: int|
            0 <= i <= j < segs.len() ==> (#[trigger] segs[i]).0 <= (#[trigger] segs[j]).0) by {
            assert forall|i: int, j: int| 0 <= i <= j < segs.len() implies (#[trigger] segs[i]).0
                <= (#[trigger] segs[j]).0 by {
                lemma_seg_starts_sorted(segs, i, j);
            }
        }
        lemma_active_seg(segs, idx);
        let a = active_seg(segs, idx);
        if a < k {
            assert(segs[k].0 > idx);
            assert(segs[k].0 <= segs[k].1);
        }
        if a > k {
            assert(segs[a].0 <= idx);
            if k < segs.len() - 1 {
                assert(segs[k + 1].0 <= segs[a].0);
            }
        }
    }
}

/// Segment starts never decrease when each segment ends no later
/// than the next one begins.
proof fn lemma_seg_starts_sorted(segs: Seq<(u32, u32)>, i: int, j: int)
    requires
        0 <= i <= j < segs.len(),
        forall|q: int| 0 <= q < segs.len() ==> (#[trigger] segs[q]).0 <= segs[q].1,
        forall|q: int| 0 <= q < segs.len() - 1 ==> (#[trigger] segs[q]).1 <= segs[q + 1].0,
    ensures
        segs[i].0 <= segs[j].0,
    decreases j - i,
{
    if i < j {
        lemma_seg_starts_sorted(segs, i + 1, j);
    }
}

/// `p` is a rectangle lying inside the tile's rectangle.
pub open spec fn plate_in_tile(p: (u32, u32, u32, u32), tile: RenderTileInfo) -> bool {
    &&& tile.x <= p.0
    &&& p.0 + p.2 <= tile.x + tile.width
    &&& tile.y <= p.1
    &&& p.1 + p.3 <= tile.y + tile.height
}

impl RenderTileInfo {
    /// The tile's rectangle and segments are usable against this
    /// canvas and these pause boundaries.
    pub open spec fn step_ready(&self, canvas: Frame, pauses: Seq<u32>) -> bool {
        &&& self.x + self.width <= canvas.width
        &&& self.y + self.height <= canvas.height
        &&& self.splits@.len() == pauses.len()
        &&& self.splits@.len() >= 1
        &&& self.splits@[0].0 == 0
        &&& forall|i: int|
            0 <= i < self.splits@.len() ==> (#[trigger] self.splits@[i]).0 <= self.splits@[i].1
                && self.splits@[i].1 <= pauses[i]
    }
}

/// One tile's contribution to one output frame.
///
/// Selects the tile's active segment; while the segment plays, the
/// pulled frame (or an opaque black rectangle, when the decode ended
/// early or handed back the wrong size) covers the tile; on exactly
/// the frame that ends the segment, the tile's region is desaturated
/// once; and past the first checkpoint a comparison overlay may be
/// drawn — with a font at hand; without one the overlay is left out.
/// Returns the shared comparison baseline after this tile, whether
/// the freeze fired, and the overlay decision taken.
pub fn compose_tile(
    canvas: &mut Frame,
    tile: &RenderTileInfo,
    pauses: &Vec<u32>,
    cmp: Option<Compare>,
    fps: u32,
    idx: u32,
    got: Option<Frame>,
    anchor: Option<u32>,
    font: Option<&rusttype::Font>,
    scale: rusttype::Scale,
) -> (r: (Option<u32>, bool, Option<(bool, u32)>))
    requires
        old(canvas).wf(),
        1 <= fps,
        tile.step_ready(*old(canvas), pauses@),
    ensures
        final(canvas).wf(),
        final(canvas).width == old(canvas).width,
        final(canvas).height == old(canvas).height,
        final(canvas).same_outside(
            *old(canvas),
            tile.x as int,
            tile.y as int,
            tile.width as int,
            tile.height as int,
        ),
        ({
            let k = active_seg(tile.splits@, idx);
            let seg = tile.splits@[k];
            let ov = overlay_for(cmp, seg, pauses@[k], idx, r.0);
            &&& r.0 == anchor_after(cmp, seg, idx, anchor)
            &&& (r.1 <==> idx == seg.1)
            &&& r.2 == ov
            &&& ((ov is None || font is None) && idx < seg.1 ==> {
                &&& (match got {
                    Some(f) => f.wf() && f.width == tile.width && f.height == tile.height
                        ==> forall|a: int, b: int|
                        0 <= a < tile.width && 0 <= b < tile.height
                            ==> #[trigger] final(canvas).pixel(tile.x + a, tile.y + b) == f.pixel(
                            a,
                            b,
                        ),
                    None => forall|a: int, b: int|
                        0 <= a < tile.width && 0 <= b < tile.height
                            ==> #[trigger] final(canvas).pixel(tile.x + a, tile.y + b) == ((
                        0u8,
                        0u8,
                        0u8,
                        )),
                })
                &&& final(canvas).same_outside(
                    *old(canvas),
                    tile.x as int,
                    tile.y as int,
                    tile.width as int,
                    tile.height as int,
                )
            })
            &&& ((ov is None || font is None) && idx == seg.1 ==> {
                &&& forall|a: int, b: int|
                    tile.x <= a < tile.x + tile.width && tile.y <= b < tile.y + tile.height
                        ==> final(canvas).pixel(a, b) == ({
                        let v = luma(old(canvas).pixel(a, b));
                        (v, v, v)
                    })
                &&& final(canvas).same_outside(
                    *old(canvas),
                    tile.x as int,
                    tile.y as int,
                    tile.width as int,
                    tile.height as int,
                )
            })
            &&& ((ov is None || font is None) && idx > seg.1 ==> *final(canvas) == *old(
                canvas,
            ))
            &&& (ov is Some && font is Some && idx == seg.1 ==> exists|p: (u32, u32, u32, u32)|
                #[trigger] plate_in_tile(p, *tile) && forall|a: int, b: int|
                    tile.x <= a < tile.x + tile.width && tile.y <= b < tile.y + tile.height && !(
                    p.0 <= a < p.0 + p.2 && p.1 <= b < p.1 + p.3)
                        ==> #[trigger] final(canvas).pixel(a, b) == ({
                        let v = luma(old(canvas).pixel(a, b));
                        (v, v, v)
                    }))
            &&& (ov is Some && font is Some && idx > seg.1 ==> exists|p: (u32, u32, u32, u32)|
                #[trigger] plate_in_tile(p, *tile) && forall|a: int, b: int|
                    tile.x <= a < tile.x + tile.width && tile.y <= b < tile.y + tile.height && !(
                    p.0 <= a < p.0 + p.2 && p.1 <= b < p.1 + p.3)
                        ==> #[trigger] final(canvas).pixel(a, b) == old(canvas).pixel(a, b))
        }),
{
    proof {
        lemma_active_seg(tile.splits@, idx);
    }
    let k = active_segment(&tile.splits, idx);
    let seg = tile.splits[k];

    // a new segment resets the shared comparison baseline
    let mut a: Option<u32> = if idx == seg.0 {
        None
    } else {
        anchor
    };

    let mut froze = false;
    if idx < seg.1 {
        // the tile still plays its own footage
        match got {
            Some(f) => {
                proof {
                    assert(0 <= (f.width as int) * (f.height as int) * 3 < u128::MAX)
                        by (nonlinear_arith)
                        requires
                            f.width <= u32::MAX,
                            f.height <= u32::MAX,
                    ;
                }
                let ok = f.width == tile.width && f.height == tile.height && (f.width as u128)
                    * (f.height as u128) * 3 == f.data.len() as u128;
                if ok {
                    proof {
                        assert((f.width as int) * (f.height as int) * 3 == f.data@.len());
                        assert(f.wf());
                    }
                    canvas.copy_from(&f, tile.x, tile.y);
                } else {
                    canvas.fill_rect(tile.x, tile.y, tile.width, tile.height, (0, 0, 0));
                }
            },
            None => {
                canvas.fill_rect(tile.x, tile.y, tile.width, tile.height, (0, 0, 0));
            },
        }
    } else {
        if idx == seg.1 {
            // the tile finished its segment on this very frame:
            // freeze it by desaturating its region, exactly once
            canvas.desaturate_rect(tile.x, tile.y, tile.width, tile.height);
            froze = true;
        }
        if seg.0 != 0 {
            match cmp {
                Some(Compare::TimeLoss) => {
                    if a.is_none() {
                        a = Some(idx);
                    }
                },
                _ => {},
            }
        }
    }

    // the overlay shown, if any: a stamped baseline wins, and
    // time-save mode shows the cushion to the pause boundary
    let ov: Option<(bool, u32)> = match a {
        Some(c) => {
            let m = if idx < seg.1 {
                idx
            } else {
                seg.1
            };
            Some((true, if m >= c {
                m - c
            } else {
                0
            }))
        },
        None => {
            if idx >= seg.1 && seg.0 != 0 && matches!(cmp, Some(Compare::TimeSave)) {
                let m = if idx < pauses[k] {
                    idx
                } else {
                    pauses[k]
                };
                Some((false, m - seg.1))
            } else {
                None
            }
        },
    };
    let ghost mid = *canvas;
    let drawn: Option<((u32, u32, u32, u32), (u8, u8, u8), String)> = match (ov, font) {
        (Some((inv, diff)), Some(f)) => draw_overlay(
            canvas,
            tile.x,
            tile.y,
            tile.width,
            tile.height,
            inv,
            diff,
            fps,
            f,
            scale,
        ),
        _ => None,
    };
    proof {
        // whatever the step did, it stayed inside the tile: each of
        // the pixel operations and the overlay are confined to it
        assert forall|i: int, j: int|
            0 <= i < canvas.width as int && 0 <= j < canvas.height as int && !(tile.x <= i
                < tile.x + tile.width && tile.y <= j < tile.y + tile.height) implies canvas.pixel(
            i,
            j,
        ) == old(canvas).pixel(i, j) by {
            assert(mid.pixel(i, j) == old(canvas).pixel(i, j));
        }
        // with an overlay drawn, the tile outside its plate still
        // shows exactly what the step put there before the overlay
        if ov is Some && font is Some {
            let p = match drawn {
                Some(v) => v.0,
                None => (tile.x, tile.y, 0u32, 0u32),
            };
            assert(plate_in_tile(p, *tile));
            assert forall|a2: int, b2: int|
                tile.x <= a2 < tile.x + tile.width && tile.y <= b2 < tile.y + tile.height && !(
                p.0 <= a2 < p.0 + p.2 && p.1 <= b2 < p.1 + p.3) implies canvas.pixel(a2, b2)
                == mid.pixel(a2, b2) by {}
        }
    }
    (a, froze, ov)
}

impl Config {
    /// Drives the compositor over every output frame index: each tile
    /// is serviced in order for the same index, then the finished
    /// canvas — or, during warm-up, no payload — goes to the sink.
    ///
    /// The sink sees exactly the indices from zero upward, in order,
    /// a real frame if and only if warm-up is over, and nothing after
    /// it asks to stop or fails: an early stop at index `k` means no
    /// call for any index past `k`.
    pub fn render<S: FrameSink>(
        &self,
        info: &RenderInfo,
        sources: &Vec<std::sync::mpsc::Receiver<Frame>>,
        font: Option<&rusttype::Font>,
        scale: rusttype::Scale,
        sink: &mut S,
    ) -> (r: Result<(), SinkError>)
        requires
            info.wf(self.width as int, self.height as int),
            sources@.len() == info.tiles@.len(),
            (self.width as int) * (self.height as int) * 3 <= usize::MAX,
            1 <= self.fps,
        ensures
            ({
                let new = final(sink).log().skip(old(sink).log().len() as int);
                &&& final(sink).log().len() >= old(sink).log().len()
                &&& final(sink).log().take(old(sink).log().len() as int) == old(sink).log()
                &&& new.len() <= info.length
                &&& forall|q: int|
                    0 <= q < new.len() ==> (#[trigger] new[q]).idx == q && new[q].frame == (
                    if q >= info.start {
                        Some((self.width, self.height))
                    } else {
                        Option::<(u32, u32)>::None
                    })
                &&& forall|q: int|
                    0 <= q < new.len() - 1 ==> (#[trigger] new[q]).accepted && new[q].cont
                &&& (r is Ok ==> (forall|q: int|
                    0 <= q < new.len() ==> (#[trigger] new[q]).accepted) && (new.len()
                    == info.length || (new.len() > 0 && !new.last().cont)))
                &&& (r is Err ==> new.len() > 0 && !new.last().accepted)
            }),
    {
        let ghost log0 = sink.log();
        let mut canvas = Frame::new(self.width, self.height);
        let mut anchor: Option<u32> = None;
        let mut idx: u32 = 0;
        let n_tiles = info.tiles.len();
        while idx < info.length
            invariant
                log0 == old(sink).log(),
                0 <= idx <= info.length,
                info.wf(self.width as int, self.height as int),
                sources@.len() == info.tiles@.len(),
                n_tiles == info.tiles@.len(),
                1 <= self.fps,
                canvas.wf(),
                canvas.width == self.width,
                canvas.height == self.height,
                sink.log().len() == log0.len() + idx,
                sink.log().take(log0.len() as int) == log0,
                forall|q: int|
                    0 <= q < idx ==> (#[trigger] sink.log()[log0.len() + q]).idx == q && sink.log()[
                        log0.len() + q].frame == (if q >= info.start {
                        Some((self.width, self.height))
                    } else {
                        Option::<(u32, u32)>::None
                    }),
                forall|q: int|
                    0 <= q < idx ==> (#[trigger] sink.log()[log0.len() + q]).accepted && sink.log()[
                        log0.len() + q].cont,
            decreases info.length - idx,
        {
            let mut t: usize = 0;
            while t < n_tiles
                invariant
                    0 <= t <= n_tiles,
                    info.wf(self.width as int, self.height as int),
                    sources@.len() == info.tiles@.len(),
                    n_tiles == info.tiles@.len(),
                    1 <= self.fps,
                    canvas.wf(),
                    canvas.width == self.width,
                    canvas.height == self.height,
                decreases n_tiles - t,
            {
                let tile = &info.tiles[t];
                proof {
                    assert(info.tiles@[t as int].wf_in(
                        info.pauses@,
                        info.length as int,
                        self.width as int,
                        self.height as int,
                    ));
                }
                let got: Option<Frame> = if needs_frame(tile, idx) {
                    recv_frame(&sources[t])
                } else {
                    None
                };
                let (a, _froze, _ov) = compose_tile(
                    &mut canvas,
                    tile,
                    &info.pauses,
                    self.cmp,
                    self.fps,
                    idx,
                    got,
                    anchor,
                    font,
                    scale,
                );
                anchor = a;
                t += 1;
            }
            let cont = if idx < info.start {
                match sink.accept(idx, None) {
                    Ok(c) => c,
                    Err(e) => {
                        proof {
                            assert(sink.log().take(log0.len() as int) =~= log0);
                            lemma_log_prefix(
                                log0,
                                sink.log(),
                                idx + 1,
                                info.start as int,
                                self.width,
                                self.height,
                            );
                        }
                        return Err(e);
                    },
                }
            } else {
                match sink.accept(idx, Some(&canvas)) {
                    Ok(c) => c,
                    Err(e) => {
                        proof {
                            assert(sink.log().take(log0.len() as int) =~= log0);
                            lemma_log_prefix(
                                log0,
                                sink.log(),
                                idx + 1,
                                info.start as int,
                                self.width,
                                self.height,
                            );
                        }
                        return Err(e);
                    },
                }
            };
            proof {
                assert(sink.log().take(log0.len() as int) =~= log0);
            }
            idx += 1;
            if !cont {
                proof {
                    lemma_log_prefix(
                        log0,
                        sink.log(),
                        idx as int,
                        info.start as int,
                        self.width,
                        self.height,
                    );
                }
                return Ok(());
            }
        }
        proof {
            lemma_log_prefix(
                log0,
                sink.log(),
                idx as int,
                info.start as int,
                self.width,
                self.height,
            );
        }
        Ok(())
    }
}

/// Relates the whole-log view of the render loop's invariant to the
/// new-entry view of its contract.
proof fn lemma_log_prefix(
    log0: Seq<SinkCall>,
    log: Seq<SinkCall>,
    n: int,
    start: int,
    w: u32,
    h: u32,
)
    requires
        0 <= n,
        log.len() == log0.len() + n,
        log.take(log0.len() as int) == log0,
        forall|q: int|
            0 <= q < n ==> (#[trigger] log[log0.len() + q]).idx == q && log[log0.len() + q].frame
                == (if q >= start {
                Some((w, h))
            } else {
                Option::<(u32, u32)>::None
            }),
        forall|q: int|
            0 <= q < n - 1 ==> (#[trigger] log[log0.len() + q]).accepted && log[log0.len()
                + q].cont,
    ensures
        ({
            let new = log.skip(log0.len() as int);
            &&& new.len() == n
            &&& forall|q: int| 0 <= q < new.len() ==> (#[trigger] new[q]) == log[log0.len() + q]
            &&& forall|q: int|
                0 <= q < new.len() ==> (#[trigger] new[q]).idx == q && new[q].frame == (if q
                    >= start {
                    Some((w, h))
                } else {
                    Option::<(u32, u32)>::None
                })
            &&& forall|q: int|
                0 <= q < new.len() - 1 ==> (#[trigger] new[q]).accepted && new[q].cont
        }),
{
    let new = log.skip(log0.len() as int);
    assert(new.len() == n);
    assert(forall|q: int| 0 <= q < n ==> new[q] == log[log0.len() + q]);
}

} // verus!
