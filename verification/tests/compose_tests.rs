use std::sync::mpsc;

use splitscreen::compose::{active_segment, compose_tile, needs_frame, CollectSink, FrameSink, SinkError};
use splitscreen::config::{Compare, Config, Input};
use splitscreen::frame::Frame;
use splitscreen::plan::{ProbeResult, RenderTileInfo};

fn tile(x: u32, y: u32, w: u32, h: u32, splits: Vec<(u32, u32)>) -> RenderTileInfo {
    RenderTileInfo { input: 0, offset: 0, length: 100, x, y, width: w, height: h, splits }
}

fn scale() -> rusttype::Scale {
    rusttype::Scale::uniform(64.0)
}

fn snapshot(f: &Frame) -> Vec<u8> {
    f.data.clone()
}

#[test]
fn the_last_matching_segment_wins() {
    let segs = vec![(0, 5), (5, 8), (12, 20)];
    assert_eq!(active_segment(&segs, 0), 0);
    assert_eq!(active_segment(&segs, 4), 0);
    // a tie at a boundary selects the later segment
    assert_eq!(active_segment(&segs, 5), 1);
    assert_eq!(active_segment(&segs, 11), 1);
    assert_eq!(active_segment(&segs, 12), 2);
    assert_eq!(active_segment(&segs, 100), 2);
}

#[test]
fn needs_frame_until_the_segment_ends() {
    let t = tile(0, 0, 2, 2, vec![(0, 2), (3, 5)]);
    assert!(needs_frame(&t, 0));
    assert!(needs_frame(&t, 1));
    assert!(!needs_frame(&t, 2));
    assert!(needs_frame(&t, 3));
    assert!(needs_frame(&t, 4));
    assert!(!needs_frame(&t, 5));
    assert!(!needs_frame(&t, 6));
}

#[test]
fn a_playing_tile_shows_its_frame() {
    let mut canvas = Frame::new(4, 4);
    let t = tile(1, 1, 2, 1, vec![(0, 2)]);
    let pauses = vec![3];
    let got = Frame::from_raw(2, 1, vec![9, 8, 7, 6, 5, 4]).unwrap();
    let (a, froze, ov) =
        compose_tile(&mut canvas, &t, &pauses, None, 10, 0, Some(got), None, None, scale());
    assert_eq!(a, None);
    assert!(!froze);
    assert_eq!(ov, None);
    assert_eq!(canvas.get_px(1, 1), (9, 8, 7));
    assert_eq!(canvas.get_px(2, 1), (6, 5, 4));
    assert_eq!(canvas.get_px(0, 0), (0, 0, 0));
}

#[test]
fn a_starved_tile_goes_black() {
    let mut canvas = Frame::new(4, 4);
    canvas.fill_rect(0, 0, 4, 4, (50, 60, 70));
    let t = tile(1, 1, 2, 1, vec![(0, 2)]);
    let pauses = vec![3];
    let (_, froze, _) =
        compose_tile(&mut canvas, &t, &pauses, None, 10, 1, None, None, None, scale());
    assert!(!froze);
    assert_eq!(canvas.get_px(1, 1), (0, 0, 0));
    assert_eq!(canvas.get_px(2, 1), (0, 0, 0));
    assert_eq!(canvas.get_px(0, 1), (50, 60, 70));
}

#[test]
fn freeze_fires_exactly_at_the_segment_end_and_sticks() {
    let mut canvas = Frame::new(2, 1);
    canvas.fill_rect(0, 0, 2, 1, (100, 150, 200));
    let t = tile(0, 0, 2, 1, vec![(0, 2)]);
    let pauses = vec![5];

    // one frame before the end: no freeze
    let got = Frame::from_raw(2, 1, vec![100, 150, 200, 100, 150, 200]).unwrap();
    let (_, froze, _) =
        compose_tile(&mut canvas, &t, &pauses, None, 10, 1, Some(got), None, None, scale());
    assert!(!froze);
    assert_eq!(canvas.get_px(0, 0), (100, 150, 200));

    // at the end: desaturated once
    let (_, froze, _) =
        compose_tile(&mut canvas, &t, &pauses, None, 10, 2, None, None, None, scale());
    assert!(froze);
    assert_eq!(canvas.get_px(0, 0), (140, 140, 140));
    let after_freeze = snapshot(&canvas);

    // afterwards: the color never changes again
    for idx in 3..5 {
        let (_, froze, _) =
            compose_tile(&mut canvas, &t, &pauses, None, 10, idx, None, None, None, scale());
        assert!(!froze);
        assert_eq!(snapshot(&canvas), after_freeze);
    }
}

#[test]
fn time_save_is_zero_at_the_segment_end_and_grows_to_the_pause() {
    let mut canvas = Frame::new(2, 1);
    let t = tile(0, 0, 2, 1, vec![(0, 2), (3, 5)]);
    let pauses = vec![3, 8];
    let cmp = Some(Compare::TimeSave);

    // the tile's own second segment ends at frame 5; the cushion is
    // the plain (red, plus) reading
    let (_, froze, ov) =
        compose_tile(&mut canvas, &t, &pauses, cmp, 10, 5, None, None, None, scale());
    assert!(froze);
    assert_eq!(ov, Some((false, 0)));

    // afterwards the cushion grows, capped at the pause boundary
    let (_, _, ov) = compose_tile(&mut canvas, &t, &pauses, cmp, 10, 6, None, None, None, scale());
    assert_eq!(ov, Some((false, 1)));
    let (_, _, ov) = compose_tile(&mut canvas, &t, &pauses, cmp, 10, 7, None, None, None, scale());
    assert_eq!(ov, Some((false, 2)));

    // never on the first segment
    let (_, _, ov) = compose_tile(&mut canvas, &t, &pauses, cmp, 10, 2, None, None, None, scale());
    assert_eq!(ov, None);
}

#[test]
fn time_loss_baseline_is_shared_between_tiles() {
    let mut canvas = Frame::new(4, 1);
    let fast = tile(0, 0, 2, 1, vec![(0, 2), (3, 5)]);
    let slow = tile(2, 0, 2, 1, vec![(0, 2), (3, 8)]);
    let pauses = vec![3, 8];
    let cmp = Some(Compare::TimeLoss);

    // frame 5: the fast tile finishes and stamps the baseline; the
    // anchored wait is the inverted (green, minus) reading
    let (a, froze, ov) =
        compose_tile(&mut canvas, &fast, &pauses, cmp, 10, 5, None, None, None, scale());
    assert!(froze);
    assert_eq!(a, Some(5));
    assert_eq!(ov, Some((true, 0)));
    // the slow tile, still playing, measures against that baseline
    let (a, _, ov) =
        compose_tile(&mut canvas, &slow, &pauses, cmp, 10, 5, None, a, None, scale());
    assert_eq!(a, Some(5));
    assert_eq!(ov, Some((true, 0)));

    // frame 6: the fast tile stays at zero, the slow one falls behind
    let (a, _, ov) =
        compose_tile(&mut canvas, &fast, &pauses, cmp, 10, 6, None, a, None, scale());
    assert_eq!(ov, Some((true, 0)));
    let (a, _, ov) =
        compose_tile(&mut canvas, &slow, &pauses, cmp, 10, 6, None, a, None, scale());
    assert_eq!(a, Some(5));
    assert_eq!(ov, Some((true, 1)));

    // a new segment start clears the baseline
    let (a, _, _) = compose_tile(&mut canvas, &fast, &pauses, cmp, 10, 3, None, a, None, scale());
    assert_eq!(a, None);
}

fn one_source_config(splits: Vec<u64>) -> (Config, Vec<ProbeResult>) {
    let cfg = Config {
        width: 64,
        height: 48,
        fps: 10,
        cmp: None,
        pause: 0,
        inputs: vec![Input { video_path: String::from("run.mp4"), splits }],
    };
    let probes = vec![ProbeResult { width: 64, height: 48, duration: 10000 }];
    (cfg, probes)
}

#[test]
fn render_calls_the_sink_once_per_frame_in_order() {
    let (cfg, probes) = one_source_config(vec![1000, 3000]);
    let info = cfg.prepare(&probes).unwrap();
    assert_eq!(info.length, 21);
    assert_eq!(info.start, 1);

    let (tx, rx) = mpsc::channel::<Frame>();
    drop(tx);
    let sources = vec![rx];
    let mut sink = CollectSink::new();
    cfg.render(&info, &sources, None, scale(), &mut sink).unwrap();

    assert_eq!(sink.events.len(), 21);
    for (q, ev) in sink.events.iter().enumerate() {
        assert_eq!(ev.idx as usize, q);
        // warm-up frames carry no payload; real ones are canvas-sized
        let expected = if q >= 1 { Some((64, 48)) } else { None };
        assert_eq!(ev.frame, expected);
        assert!(ev.accepted && ev.cont);
    }
}

#[test]
fn early_sink_stop_ends_the_render() {
    let (cfg, probes) = one_source_config(vec![1000, 3000]);
    let info = cfg.prepare(&probes).unwrap();

    let (tx, rx) = mpsc::channel::<Frame>();
    drop(tx);
    let sources = vec![rx];
    let mut sink = CollectSink::stopping_at(5);
    cfg.render(&info, &sources, None, scale(), &mut sink).unwrap();

    // the sink was invoked for frames 0 through 5 and for nothing past 5
    assert_eq!(sink.events.len(), 6);
    assert!(sink.events.iter().all(|ev| ev.idx <= 5));
    assert!(sink.events[5].idx == 5 && !sink.events[5].cont);
    assert!(sink.events[..5].iter().all(|ev| ev.cont));
}

#[test]
fn render_consumes_queued_frames_in_fifo_order() {
    let (cfg, probes) = one_source_config(vec![1000]);
    let info = cfg.prepare(&probes).unwrap();
    assert_eq!(info.length, 1);

    let (tx, rx) = mpsc::channel::<Frame>();
    tx.send(Frame::new(64, 48)).unwrap();
    drop(tx);
    let sources = vec![rx];
    let mut sink = CollectSink::new();
    cfg.render(&info, &sources, None, scale(), &mut sink).unwrap();
    assert_eq!(sink.events.len(), 1);
}

/// A sink that fails at a chosen frame index.
struct FailingSink {
    fail_at: u32,
    calls: Vec<u32>,
}

impl FrameSink for FailingSink {
    fn accept(&mut self, frame_idx: u32, _frame: Option<&Frame>) -> Result<bool, SinkError> {
        self.calls.push(frame_idx);
        if frame_idx == self.fail_at {
            Err(SinkError { message: String::from("downstream failure") })
        } else {
            Ok(true)
        }
    }
}

#[test]
fn a_sink_error_aborts_the_render_at_once() {
    let (cfg, probes) = one_source_config(vec![1000, 3000]);
    let info = cfg.prepare(&probes).unwrap();

    let (tx, rx) = mpsc::channel::<Frame>();
    drop(tx);
    let sources = vec![rx];
    let mut sink = FailingSink { fail_at: 4, calls: Vec::new() };
    let res = cfg.render(&info, &sources, None, scale(), &mut sink);
    assert!(res.is_err());
    assert_eq!(res.unwrap_err().message, "downstream failure");
    // the erring call is the last one the sink ever saw
    assert_eq!(sink.calls, vec![0, 1, 2, 3, 4]);
}
