//! The render plan: per-source probe data and checkpoint times become
//! a frame-indexed plan — per-tile pixel geometry, per-tile decode
//! offset and length, per-checkpoint segment ranges on the global
//! output timeline, the pause boundaries, the warm-up end, and the
//! total output length.

use vstd::prelude::*;
use vstd::arithmetic::div_mod::{
    lemma_div_is_ordered, lemma_div_multiples_vanish, lemma_div_pos_is_pos,
    lemma_fundamental_div_mod, lemma_mod_division_less_than_divisor,
};
use vstd::arithmetic::mul::{
    lemma_mul_inequality, lemma_mul_is_associative, lemma_mul_is_commutative,
    lemma_mul_nonnegative,
};
use crate::config::{Config, Input};
use crate::layout::{
    fit_h, fit_w, grid_columns, place_tile, tile_x_pos, tile_y_pos, tiles_x_ok,
};

verus! {

/// What probing a source reports: its pixel size and its duration in
/// whole milliseconds.
#[derive(Debug, Copy, Clone, PartialEq, Eq, Structural)]
pub struct ProbeResult {
    pub width: u32,
    pub height: u32,
    pub duration: u64,
}

/// Planning failure: the sources' checkpoint lists do not line up.
#[derive(Debug, Copy, Clone, PartialEq, Eq, Structural)]
pub enum PrepareError {
    /// Two sources have different checkpoint counts.
    UnequalSplitCounts,
    /// The sources have no checkpoints at all.
    NoSplits,
}

/// One tile of the plan: which source it shows, how many frames the
/// decode skips and covers, its pixel rectangle on the canvas, and
/// its `(segmentStart, segmentEnd)` frame range per checkpoint on the
/// global output timeline.
#[derive(Debug, Clone)]
pub struct RenderTileInfo {
    pub input: usize,
    pub offset: u32,
    pub length: u32,
    pub x: u32,
    pub y: u32,
    pub width: u32,
    pub height: u32,
    pub splits: Vec<(u32, u32)>,
}

/// The immutable output of planning.
#[derive(Debug, Clone)]
pub struct RenderInfo {
    /// First frame index that is delivered as real output.
    pub start: u32,
    /// Total number of output frames.
    pub length: u32,
    /// One entry per source.
    pub tiles: Vec<RenderTileInfo>,
    /// Per checkpoint, the frame index ending its synchronized
    /// segment.
    pub pauses: Vec<u32>,
}

/// Frames for `ms` milliseconds at `fps`, rounding half up on the
/// seconds-times-rate product.
pub open spec fn round_frames(ms: int, fps: int) -> int {
    (ms * fps + 500) / 1000
}

/// Frames for `ms` milliseconds at `fps`, rounded down.
pub open spec fn floor_frames(ms: int, fps: int) -> int {
    ms * fps / 1000
}

/// Frames a tile's decode pipeline skips: the first checkpoint times
/// the rate, rounded down.
pub open spec fn offset_frames(ms: int, fps: int) -> int {
    ms * fps / 1000
}

/// Length in frames of a tile's segment at checkpoint `i`.
pub open spec fn seg_frames(splits: Seq<u64>, fps: int, i: int) -> int {
    if i == 0 {
        round_frames(splits[0] as int, fps) + 1 - offset_frames(splits[0] as int, fps)
    } else {
        round_frames(splits[i] as int, fps) - round_frames(splits[i - 1] as int, fps)
    }
}

/// Largest segment length at checkpoint `i` over the first `t` tiles
/// (0 when `t` is 0).
pub open spec fn sync_upto(all: Seq<Seq<u64>>, fps: int, i: int, t: int) -> int
    decreases t,
{
    if t <= 0 {
        0
    } else {
        let prev = sync_upto(all, fps, i, t - 1);
        let cur = seg_frames(all[t - 1], fps, i);
        if cur > prev {
            cur
        } else {
            prev
        }
    }
}

/// The synchronized segment length at checkpoint `i`: the slowest
/// tile dictates it.
pub open spec fn sync_frames(all: Seq<Seq<u64>>, fps: int, i: int) -> int {
    sync_upto(all, fps, i, all.len() as int)
}

/// Global frame index at which checkpoint `i`'s segments begin: all
/// earlier synchronized segments plus one pause insertion per earlier
/// checkpoint.
pub open spec fn seg_start_frames(all: Seq<Seq<u64>>, fps: int, pause: int, i: int) -> int
    decreases i,
{
    if i <= 0 {
        0
    } else {
        seg_start_frames(all, fps, pause, i - 1) + sync_frames(all, fps, i - 1) + pause
    }
}

/// Total output frames of an `n`-checkpoint plan: every synchronized
/// segment, with a pause insertion after each checkpoint but the
/// last.
pub open spec fn plan_length_frames(all: Seq<Seq<u64>>, fps: int, pause: int, n: int) -> int {
    if n <= 0 {
        0
    } else {
        seg_start_frames(all, fps, pause, n - 1) + sync_frames(all, fps, n - 1)
    }
}

/// Sum of the synchronized segment lengths of the first `i`
/// checkpoints.
pub open spec fn sync_sum(all: Seq<Seq<u64>>, fps: int, i: int) -> int
    decreases i,
{
    if i <= 0 {
        0
    } else {
        sync_sum(all, fps, i - 1) + sync_frames(all, fps, i - 1)
    }
}

/// All sources have the same checkpoint count.
pub open spec fn counts_equal(all: Seq<Seq<u64>>) -> bool {
    forall|k: int| 0 <= k < all.len() ==> (#[trigger] all[k]).len() == all[0].len()
}

/// A source the planner can work on: positive pixel sizes, checkpoint
/// times in nondecreasing order, every product with the rate within
/// machine range, and a duration that covers the decode offset.
pub open spec fn source_ok(fps: int, probe: ProbeResult, splits: Seq<u64>) -> bool {
    &&& 1 <= probe.width
    &&& 1 <= probe.height
    &&& (probe.duration as int) * fps <= u64::MAX
    &&& forall|i: int| 0 <= i < splits.len() ==> (#[trigger] splits[i] as int) * fps + 500
        <= u64::MAX
    &&& forall|i: int, j: int|
        0 <= i <= j < splits.len() ==> (#[trigger] splits[i]) <= (#[trigger] splits[j])
    &&& splits.len() > 0 ==> offset_frames(splits[0] as int, fps) <= floor_frames(
        probe.duration as int,
        fps,
    ) <= u32::MAX
}

impl Config {
    /// The checkpoint lists of all sources.
    pub open spec fn splits_view(&self) -> Seq<Seq<u64>> {
        self.inputs@.map_values(|inp: Input| inp.splits@)
    }

    /// Pause inserted after each checkpoint, in frames.
    pub open spec fn pause_frames(&self) -> int {
        round_frames(self.pause as int, self.fps as int)
    }

    /// The planner's precondition: at least one source, one probe per
    /// source, every source well-formed, and — when the checkpoint
    /// counts line up — a total frame count within `u32` range.
    pub open spec fn prepare_ready(&self, probes: Seq<ProbeResult>) -> bool {
        &&& 1 <= self.inputs@.len() <= u32::MAX
        &&& probes.len() == self.inputs@.len()
        &&& (self.pause as int) * (self.fps as int) + 500 <= u64::MAX
        &&& forall|k: int|
            0 <= k < probes.len() ==> source_ok(
                self.fps as int,
                #[trigger] probes[k],
                self.splits_view()[k],
            )
        &&& (counts_equal(self.splits_view()) ==> seg_start_frames(
            self.splits_view(),
            self.fps as int,
            self.pause_frames(),
            self.splits_view()[0].len() as int,
        ) <= u32::MAX)
    }
}

/// Tile `t`'s plan fields hold the aligner's values: decode offset
/// and length, and the exact segment range per checkpoint.
pub open spec fn tile_plan_ok(
    all: Seq<Seq<u64>>,
    fps: int,
    pause: int,
    t: int,
    probe: ProbeResult,
    tile: RenderTileInfo,
) -> bool {
    &&& tile.input == t
    &&& tile.offset == offset_frames(all[t][0] as int, fps)
    &&& tile.length == floor_frames(probe.duration as int, fps) - offset_frames(
        all[t][0] as int,
        fps,
    )
    &&& tile.splits@.len() == all[t].len()
    &&& forall|i: int|
        0 <= i < all[t].len() ==> (#[trigger] tile.splits@[i]).0 == seg_start_frames(
            all,
            fps,
            pause,
            i,
        ) && tile.splits@[i].1 == seg_start_frames(all, fps, pause, i) + seg_frames(
            all[t],
            fps,
            i,
        )
}

/// Tile `t`'s pixel rectangle holds the layout's values for an
/// `n`-tile grid with `tx` columns.
pub open spec fn tile_geom_ok(
    width: int,
    height: int,
    n: int,
    tx: int,
    t: int,
    probe: ProbeResult,
    tile: RenderTileInfo,
) -> bool {
    let bw = width / tx;
    let bh = height / tx;
    let w = fit_w(probe.width as int, probe.height as int, bw, bh);
    let h = fit_h(probe.width as int, probe.height as int, bw, bh);
    &&& tile.width == w
    &&& tile.height == h
    &&& tile.x == tile_x_pos(width, n, tx, t, w)
    &&& tile.y == tile_y_pos(height, n, tx, t, h)
}

/// The whole plan holds the planner's values for this configuration
/// and these probes.
pub open spec fn plan_matches(cfg: Config, probes: Seq<ProbeResult>, info: RenderInfo) -> bool {
    let all = cfg.splits_view();
    let fps = cfg.fps as int;
    let pause = cfg.pause_frames();
    let n = all.len() as int;
    let ns = all[0].len() as int;
    &&& info.tiles@.len() == n
    &&& info.pauses@.len() == ns
    &&& forall|i: int|
        0 <= i < ns ==> #[trigger] info.pauses@[i] == seg_start_frames(all, fps, pause, i)
            + sync_frames(all, fps, i)
    &&& info.start == seg_start_frames(all, fps, pause, 0) + sync_frames(all, fps, 0)
    &&& info.length == plan_length_frames(all, fps, pause, ns)
    &&& forall|t: int|
        0 <= t < n ==> tile_plan_ok(all, fps, pause, t, probes[t], #[trigger] info.tiles@[t])
    &&& exists|tx: int|
        #[trigger] tiles_x_ok(n, tx) && forall|t: int|
            0 <= t < n ==> tile_geom_ok(
                cfg.width as int,
                cfg.height as int,
                n,
                tx,
                t,
                probes[t],
                #[trigger] info.tiles@[t],
            )
}

impl RenderTileInfo {
    /// The tile's segments are consistent with the pause boundaries
    /// and the canvas: one segment per checkpoint, the first starting
    /// at frame zero, each ending no later than its checkpoint's
    /// pause boundary, which in turn precedes the next segment; and
    /// the tile's rectangle lies inside the canvas.
    pub open spec fn wf_in(&self, pauses: Seq<u32>, length: int, width: int, height: int) -> bool {
        &&& self.x + self.width <= width
        &&& self.y + self.height <= height
        &&& self.splits@.len() == pauses.len()
        &&& self.splits@.len() >= 1
        &&& self.splits@[0].0 == 0
        &&& forall|i: int|
            0 <= i < self.splits@.len() ==> (#[trigger] self.splits@[i]).0 <= self.splits@[i].1
                && self.splits@[i].1 <= pauses[i]
        &&& forall|i: int|
            0 <= i < self.splits@.len() - 1 ==> pauses[i] <= (#[trigger] self.splits@[i + 1]).0
        &&& pauses[pauses.len() - 1] <= length
    }
}

impl RenderInfo {
    /// The plan is consistent: at least one tile and one checkpoint,
    /// the warm-up ends at the first pause boundary, and every tile
    /// is well-formed against the shared pause boundaries and the
    /// canvas.
    pub open spec fn wf(&self, width: int, height: int) -> bool {
        &&& self.tiles@.len() >= 1
        &&& self.pauses@.len() >= 1
        &&& self.start == self.pauses@[0]
        &&& forall|t: int|
            0 <= t < self.tiles@.len() ==> (#[trigger] self.tiles@[t]).wf_in(
                self.pauses@,
                self.length as int,
                width,
                height,
            )
    }
}

/// The decode offset is the floored frame count, which never exceeds
/// the rounded one.
pub proof fn lemma_offset_le_round(ms: int, f: int)
    requires
        0 <= ms,
        0 <= f,
    ensures
        0 <= offset_frames(ms, f) <= floor_frames(ms, f) <= round_frames(ms, f),
{
    assert(ms * f >= 0) by {
        lemma_mul_nonnegative(ms, f);
    }
    assert(ms * f / 1000 >= 0) by {
        lemma_div_pos_is_pos(ms * f, 1000);
    }
    assert(ms * f / 1000 <= (ms * f + 500) / 1000) by {
        lemma_div_is_ordered(ms * f, ms * f + 500, 1000);
    }
}

/// Frame counts grow with time: rounding and flooring are monotone in
/// the millisecond value.
pub proof fn lemma_frames_monotone(a: int, b: int, f: int)
    requires
        0 <= a <= b,
        0 <= f,
    ensures
        round_frames(a, f) <= round_frames(b, f),
        floor_frames(a, f) <= floor_frames(b, f),
{
    assert(a * f <= b * f) by {
        lemma_mul_inequality(a, b, f);
    }
    lemma_div_is_ordered(a * f + 500, b * f + 500, 1000);
    lemma_div_is_ordered(a * f, b * f, 1000);
}

/// Every segment has a non-negative length, and the first — which
/// ends one frame past the rounded first checkpoint — a positive one.
pub proof fn lemma_seg_frames_nonneg(splits: Seq<u64>, f: int, i: int)
    requires
        0 <= f,
        0 <= i < splits.len(),
        forall|a: int, b: int|
            0 <= a <= b < splits.len() ==> (#[trigger] splits[a]) <= (#[trigger] splits[b]),
    ensures
        seg_frames(splits, f, i) >= 0,
        i == 0 ==> seg_frames(splits, f, i) >= 1,
{
    if i == 0 {
        lemma_offset_le_round(splits[0] as int, f);
    } else {
        assert(splits[i - 1] <= splits[i]);
        lemma_frames_monotone(splits[i - 1] as int, splits[i] as int, f);
    }
}

/// The running maximum of segment lengths is non-negative, grows with
/// the tile count, and covers each tile it has seen.
pub proof fn lemma_sync_upto_bounds(all: Seq<Seq<u64>>, f: int, i: int, t: int)
    requires
        0 <= t,
    ensures
        sync_upto(all, f, i, t) >= 0,
        forall|k: int|
            0 <= k < t ==> seg_frames(#[trigger] all[k], f, i) <= sync_upto(all, f, i, t),
    decreases t,
{
    if t > 0 {
        lemma_sync_upto_bounds(all, f, i, t - 1);
    }
}

/// Segment start positions never decrease along the checkpoints.
pub proof fn lemma_seg_start_monotone(all: Seq<Seq<u64>>, f: int, p: int, i: int, j: int)
    requires
        0 <= i <= j,
        0 <= p,
    ensures
        0 <= seg_start_frames(all, f, p, i) <= seg_start_frames(all, f, p, j),
    decreases j,
{
    if j > 0 {
        if i <= j - 1 {
            lemma_seg_start_monotone(all, f, p, i, j - 1);
        } else {
            lemma_seg_start_monotone(all, f, p, j - 1, j - 1);
        }
        lemma_sync_upto_bounds(all, f, j - 1, all.len() as int);
    }
}

/// Each checkpoint's start position is the sum of the earlier
/// synchronized segment lengths plus one pause insertion per earlier
/// checkpoint.
proof fn lemma_seg_start_sum(all: Seq<Seq<u64>>, f: int, p: int, n: int)
    requires
        0 <= n,
    ensures
        seg_start_frames(all, f, p, n) == sync_sum(all, f, n) + n * p,
    decreases n,
{
    if n == 0 {
        assert(n * p == 0) by (nonlinear_arith)
            requires
                n == 0,
        ;
    } else {
        lemma_seg_start_sum(all, f, p, n - 1);
        assert(seg_start_frames(all, f, p, n) == seg_start_frames(all, f, p, n - 1) + sync_frames(
            all,
            f,
            n - 1,
        ) + p);
        assert(sync_sum(all, f, n) == sync_sum(all, f, n - 1) + sync_frames(all, f, n - 1));
        assert(n * p == (n - 1) * p + p) by (nonlinear_arith);
    }
}

/// The plan's total length is the sum of the synchronized segment
/// lengths over the checkpoints, plus one pause insertion per
/// checkpoint except the last: no pause trails the final checkpoint.
pub proof fn lemma_plan_length(all: Seq<Seq<u64>>, f: int, p: int, n: int)
    requires
        1 <= n,
    ensures
        plan_length_frames(all, f, p, n) == sync_sum(all, f, n) + (n - 1) * p,
{
    lemma_seg_start_sum(all, f, p, n - 1);
}

/// A plan that holds the planner's values is well-formed: segments
/// are ordered, end within their pause boundaries, and the tiles lie
/// inside the canvas.
pub proof fn lemma_plan_wf(cfg: Config, probes: Seq<ProbeResult>, info: RenderInfo)
    requires
        cfg.prepare_ready(probes),
        counts_equal(cfg.splits_view()),
        cfg.splits_view()[0].len() >= 1,
        plan_matches(cfg, probes, info),
    ensures
        info.wf(cfg.width as int, cfg.height as int),
{
    let all = cfg.splits_view();
    let fps = cfg.fps as int;
    let pause = cfg.pause_frames();
    let n = all.len() as int;
    let ns = all[0].len() as int;
    assert(pause >= 0) by {
        lemma_offset_le_round(cfg.pause as int, fps);
    }
    let tx = choose|tx: int|
        #[trigger] tiles_x_ok(n, tx) && forall|t: int|
            0 <= t < n ==> tile_geom_ok(
                cfg.width as int,
                cfg.height as int,
                n,
                tx,
                t,
                probes[t],
                #[trigger] info.tiles@[t],
            );
    assert forall|t: int| 0 <= t < info.tiles@.len() implies (#[trigger] info.tiles@[t]).wf_in(
        info.pauses@,
        info.length as int,
        cfg.width as int,
        cfg.height as int,
    ) by {
        let tile = info.tiles@[t];
        assert(source_ok(fps, probes[t], all[t]));
        assert(tile_geom_ok(cfg.width as int, cfg.height as int, n, tx, t, probes[t], tile));
        crate::layout::lemma_tile_geometry(
            cfg.width as int,
            cfg.height as int,
            n,
            tx,
            t,
            probes[t].width as int,
            probes[t].height as int,
        );
        assert(tile_plan_ok(all, fps, pause, t, probes[t], tile));
        assert(all[t].len() == ns);
        assert forall|i: int| 0 <= i < tile.splits@.len() implies (#[trigger] tile.splits@[i]).0
            <= tile.splits@[i].1 && tile.splits@[i].1 <= info.pauses@[i] by {
            lemma_seg_frames_nonneg(all[t], fps, i);
            lemma_sync_upto_bounds(all, fps, i, n);
        }
        assert forall|i: int| 0 <= i < tile.splits@.len() - 1 implies info.pauses@[i]
            <= (#[trigger] tile.splits@[i + 1]).0 by {
            assert(seg_start_frames(all, fps, pause, i + 1) == seg_start_frames(all, fps, pause, i)
                + sync_frames(all, fps, i) + pause);
        }
        assert(info.pauses@[ns - 1] <= info.length);
    }
}

impl Config {
    /// Builds the render plan for this configuration from one probe
    /// result per source.
    ///
    /// Fails exactly when the sources' checkpoint counts differ, or
    /// when they are equal but zero.
    pub fn prepare(&self, probes: &Vec<ProbeResult>) -> (r: Result<RenderInfo, PrepareError>)
        requires
            self.prepare_ready(probes@),
        ensures
            r == Err::<RenderInfo, PrepareError>(PrepareError::UnequalSplitCounts) <==> !counts_equal(
                self.splits_view(),
            ),
            r == Err::<RenderInfo, PrepareError>(PrepareError::NoSplits) <==> counts_equal(
                self.splits_view(),
            ) && self.splits_view()[0].len() == 0,
            r matches Ok(info) ==> counts_equal(self.splits_view())
                && self.splits_view()[0].len() > 0 && plan_matches(*self, probes@, info)
                && info.wf(self.width as int, self.height as int),
    {
        let ghost all = self.splits_view();
        let ghost fps_g = self.fps as int;
        let ghost pause_g = self.pause_frames();
        let n_tiles = self.inputs.len();
        let n_splits = self.inputs[0].splits.len();
        proof {
            assert(all[0] == self.inputs@[0].splits@);
        }

        // the checkpoint counts must line up, and must not be zero
        let mut k: usize = 0;
        while k < n_tiles
            invariant
                0 <= k <= n_tiles,
                n_tiles == self.inputs@.len(),
                n_splits == all[0].len(),
                all == self.splits_view(),
                forall|q: int| 0 <= q < k ==> (#[trigger] all[q]).len() == n_splits,
            decreases n_tiles - k,
        {
            if self.inputs[k].splits.len() != n_splits {
                proof {
                    assert(all[k as int] == self.inputs@[k as int].splits@);
                }
                return Err(PrepareError::UnequalSplitCounts);
            }
            proof {
                assert(all[k as int] == self.inputs@[k as int].splits@);
            }
            k += 1;
        }
        assert(counts_equal(all));
        if n_splits == 0 {
            return Err(PrepareError::NoSplits);
        }

        let fps64 = self.fps as u64;
        let pause_frames: u64 = (self.pause * fps64 + 500) / 1000;
        proof {
            assert(pause_frames == pause_g);
            lemma_offset_le_round(self.pause as int, fps_g);
        }

        // first pass: per checkpoint, the synchronized segment length,
        // the running start position, and the pause boundary
        let mut starts: Vec<u64> = Vec::new();
        let mut pauses: Vec<u32> = Vec::new();
        let mut length: u64 = 0;
        let mut start_frame: u64 = 0;
        let mut i: usize = 0;
        while i < n_splits
            invariant
                0 <= i <= n_splits,
                n_tiles == self.inputs@.len() >= 1,
                n_splits == all[0].len(),
                all == self.splits_view(),
                counts_equal(all),
                self.prepare_ready(probes@),
                probes@.len() == n_tiles,
                fps64 == self.fps,
                fps_g == self.fps as int,
                pause_g == self.pause_frames(),
                pause_frames == pause_g,
                starts@.len() == i,
                pauses@.len() == i,
                if i < n_splits {
                    length == seg_start_frames(all, fps_g, pause_g, i as int)
                } else {
                    length == plan_length_frames(all, fps_g, pause_g, n_splits as int)
                },
                forall|q: int|
                    0 <= q < i ==> #[trigger] starts@[q] == seg_start_frames(
                        all,
                        fps_g,
                        pause_g,
                        q,
                    ),
                forall|q: int|
                    0 <= q < i ==> #[trigger] pauses@[q] == seg_start_frames(
                        all,
                        fps_g,
                        pause_g,
                        q,
                    ) + sync_frames(all, fps_g, q),
                i > 0 ==> start_frame == seg_start_frames(all, fps_g, pause_g, 0) + sync_frames(
                    all,
                    fps_g,
                    0,
                ),
            decreases n_splits - i,
        {
            starts.push(length);
            let mut t_max: u64 = 0;
            let mut t: usize = 0;
            while t < n_tiles
                invariant
                    0 <= t <= n_tiles,
                    0 <= i < n_splits,
                    n_tiles == self.inputs@.len(),
                    n_splits == all[0].len(),
                    all == self.splits_view(),
                    counts_equal(all),
                    self.prepare_ready(probes@),
                    probes@.len() == n_tiles,
                    fps64 == self.fps,
                    fps_g == self.fps as int,
                    t_max == sync_upto(all, fps_g, i as int, t as int),
                decreases n_tiles - t,
            {
                let ghost sp_view = all[t as int];
                proof {
                    assert(sp_view == self.inputs@[t as int].splits@);
                    assert(source_ok(fps_g, probes@[t as int], sp_view));
                    assert(sp_view.len() == n_splits);
                    lemma_seg_frames_nonneg(sp_view, fps_g, i as int);
                    assert((sp_view[i as int] as int) * fps_g + 500 <= u64::MAX);
                    lemma_offset_le_round(sp_view[0] as int, fps_g);
                    if i > 0 {
                        assert((sp_view[i - 1] as int) * fps_g + 500 <= u64::MAX);
                        assert(sp_view[i - 1] <= sp_view[i as int]);
                        lemma_frames_monotone(
                            sp_view[i - 1] as int,
                            sp_view[i as int] as int,
                            fps_g,
                        );
                    } else {
                        assert((sp_view[0] as int) * fps_g + 500 <= u64::MAX);
                        lemma_frames_monotone(sp_view[0] as int, sp_view[0] as int, fps_g);
                    }
                }
                let sp = &self.inputs[t].splits;
                let r_i = (sp[i] * fps64 + 500) / 1000;
                let seg: u64 = if i == 0 {
                    let off = sp[0] * fps64 / 1000;
                    r_i + 1 - off
                } else {
                    let r_prev = (sp[i - 1] * fps64 + 500) / 1000;
                    r_i - r_prev
                };
                proof {
                    assert(seg == seg_frames(sp_view, fps_g, i as int));
                }
                if seg > t_max {
                    t_max = seg;
                }
                t += 1;
            }
            proof {
                assert(t_max == sync_frames(all, fps_g, i as int));
                lemma_seg_start_monotone(all, fps_g, pause_g, i as int, n_splits as int);
                assert(seg_start_frames(all, fps_g, pause_g, i + 1) == seg_start_frames(
                    all,
                    fps_g,
                    pause_g,
                    i as int,
                ) + sync_frames(all, fps_g, i as int) + pause_g);
                lemma_seg_start_monotone(all, fps_g, pause_g, i + 1, n_splits as int);
                assert(seg_start_frames(all, fps_g, pause_g, n_splits as int) <= u32::MAX);
            }
            length = length + t_max;
            if i == 0 {
                start_frame = length;
            }
            pauses.push(length as u32);
            // a pause follows every checkpoint except the last
            if i + 1 < n_splits {
                length = length + pause_frames;
            }
            i += 1;
        }

        // second pass: per tile, geometry and segment ranges
        let tiles_x = grid_columns(n_tiles);
        let ghost tx_g = tiles_x as int;

        let mut tiles: Vec<RenderTileInfo> = Vec::new();
        let mut t: usize = 0;
        while t < n_tiles
            invariant
                0 <= t <= n_tiles,
                n_tiles == self.inputs@.len(),
                1 <= n_tiles <= u32::MAX,
                n_splits == all[0].len(),
                1 <= n_splits,
                all == self.splits_view(),
                counts_equal(all),
                self.prepare_ready(probes@),
                probes@.len() == n_tiles,
                fps64 == self.fps,
                fps_g == self.fps as int,
                pause_g == self.pause_frames(),
                tiles_x_ok(n_tiles as int, tx_g),
                1 <= tiles_x <= 65536,
                tx_g == tiles_x as int,
                pauses@.len() == n_splits,
                forall|q: int|
                    0 <= q < n_splits ==> #[trigger] pauses@[q] == seg_start_frames(
                        all,
                        fps_g,
                        pause_g,
                        q,
                    ) + sync_frames(all, fps_g, q),
                length == plan_length_frames(all, fps_g, pause_g, n_splits as int),
                start_frame == seg_start_frames(all, fps_g, pause_g, 0) + sync_frames(
                    all,
                    fps_g,
                    0,
                ),
                starts@.len() == n_splits,
                forall|q: int|
                    0 <= q < n_splits ==> #[trigger] starts@[q] == seg_start_frames(
                        all,
                        fps_g,
                        pause_g,
                        q,
                    ),
                tiles@.len() == t,
                forall|q: int|
                    0 <= q < t ==> tile_plan_ok(
                        all,
                        fps_g,
                        pause_g,
                        q,
                        probes@[q],
                        #[trigger] tiles@[q],
                    ),
                forall|q: int|
                    0 <= q < t ==> tile_geom_ok(
                        self.width as int,
                        self.height as int,
                        n_tiles as int,
                        tx_g,
                        q,
                        probes@[q],
                        #[trigger] tiles@[q],
                    ),
            decreases n_tiles - t,
        {
            let probe = probes[t];
            let ghost sp_view = all[t as int];
            proof {
                assert(sp_view == self.inputs@[t as int].splits@);
                assert(source_ok(fps_g, probes@[t as int], sp_view));
                assert(sp_view.len() == n_splits);
            }
            let (tile_x, tile_y, tw, th) = place_tile(
                self.width,
                self.height,
                n_tiles as u64,
                tiles_x,
                t as u64,
                probe.width,
                probe.height,
            );
            // decode offset and length
            let sp = &self.inputs[t].splits;
            proof {
                lemma_offset_le_round(sp_view[0] as int, fps_g);
                assert((sp_view[0] as int) * fps_g + 500 <= u64::MAX);
            }
            let dec_off = sp[0] * fps64 / 1000;
            let dec_len = probe.duration * fps64 / 1000 - dec_off;
            // segment ranges on the global timeline
            let mut segs: Vec<(u32, u32)> = Vec::new();
            let mut i2: usize = 0;
            while i2 < n_splits
                invariant
                    0 <= i2 <= n_splits,
                    n_splits == all[0].len(),
                    all == self.splits_view(),
                    counts_equal(all),
                    self.prepare_ready(probes@),
                    0 <= (t as int) < self.inputs@.len(),
                    probes@.len() == self.inputs@.len(),
                    fps64 == self.fps,
                    fps_g == self.fps as int,
                    pause_g == self.pause_frames(),
                    sp_view == all[t as int],
                    sp == self.inputs@[t as int].splits,
                    sp_view == sp@,
                    sp_view.len() == n_splits,
                    starts@.len() == n_splits,
                    forall|q: int|
                        0 <= q < n_splits ==> #[trigger] starts@[q] == seg_start_frames(
                            all,
                            fps_g,
                            pause_g,
                            q,
                        ),
                    segs@.len() == i2,
                    forall|q: int|
                        0 <= q < i2 ==> (#[trigger] segs@[q]).0 == seg_start_frames(
                            all,
                            fps_g,
                            pause_g,
                            q,
                        ) && segs@[q].1 == seg_start_frames(all, fps_g, pause_g, q) + seg_frames(
                            sp_view,
                            fps_g,
                            q,
                        ),
                decreases n_splits - i2,
            {
                proof {
                    assert(source_ok(fps_g, probes@[t as int], sp_view));
                    lemma_seg_frames_nonneg(sp_view, fps_g, i2 as int);
                    assert((sp_view[i2 as int] as int) * fps_g + 500 <= u64::MAX);
                    lemma_offset_le_round(sp_view[0] as int, fps_g);
                    if i2 > 0 {
                        assert((sp_view[i2 - 1] as int) * fps_g + 500 <= u64::MAX);
                        assert(sp_view[i2 - 1] <= sp_view[i2 as int]);
                        lemma_frames_monotone(
                            sp_view[i2 - 1] as int,
                            sp_view[i2 as int] as int,
                            fps_g,
                        );
                    }
                    lemma_sync_upto_bounds(all, fps_g, i2 as int, all.len() as int);
                    lemma_seg_start_monotone(all, fps_g, pause_g, i2 as int, n_splits as int);
                    assert(seg_start_frames(all, fps_g, pause_g, i2 + 1) == seg_start_frames(
                        all,
                        fps_g,
                        pause_g,
                        i2 as int,
                    ) + sync_frames(all, fps_g, i2 as int) + pause_g);
                    lemma_seg_start_monotone(all, fps_g, pause_g, i2 + 1, n_splits as int);
                    assert(seg_start_frames(all, fps_g, pause_g, n_splits as int) <= u32::MAX);
                }
                let base = starts[i2];
                let r_i = (sp[i2] * fps64 + 500) / 1000;
                let seg: u64 = if i2 == 0 {
                    let off = sp[0] * fps64 / 1000;
                    r_i + 1 - off
                } else {
                    let r_prev = (sp[i2 - 1] * fps64 + 500) / 1000;
                    r_i - r_prev
                };
                proof {
                    assert(seg == seg_frames(sp_view, fps_g, i2 as int));
                    assert(seg <= sync_frames(all, fps_g, i2 as int));
                }
                segs.push((base as u32, (base + seg) as u32));
                i2 += 1;
            }
            let tile = RenderTileInfo {
                input: t,
                offset: dec_off as u32,
                length: dec_len as u32,
                x: tile_x,
                y: tile_y,
                width: tw,
                height: th,
                splits: segs,
            };
            tiles.push(tile);
            t += 1;
        }

        proof {
            assert(length == plan_length_frames(all, fps_g, pause_g, n_splits as int));
            assert(seg_start_frames(all, fps_g, pause_g, n_splits as int)
                == plan_length_frames(all, fps_g, pause_g, n_splits as int) + pause_g);
            lemma_offset_le_round(self.pause as int, fps_g);
            assert(length <= u32::MAX);
            assert(pauses@[0] == seg_start_frames(all, fps_g, pause_g, 0) + sync_frames(
                all,
                fps_g,
                0,
            ));
            assert(start_frame == pauses@[0]);
        }
        let info = RenderInfo {
            start: start_frame as u32,
            length: length as u32,
            tiles,
            pauses,
        };
        proof {
            assert(tiles_x_ok(n_tiles as int, tx_g));
            assert(plan_matches(*self, probes@, info));
            lemma_plan_wf(*self, probes@, info);
        }
        Ok(info)
    }
}

} // verus!
