use splitscreen::config::{Config, Input};
use splitscreen::plan::{PrepareError, ProbeResult};

fn config(inputs: Vec<Input>, width: u32, height: u32, fps: u32, pause: u64) -> Config {
    Config { width, height, fps, cmp: None, pause, inputs }
}

fn source(splits: Vec<u64>) -> Input {
    Input { video_path: String::from("run.mp4"), splits }
}

fn probe(width: u32, height: u32, duration: u64) -> ProbeResult {
    ProbeResult { width, height, duration }
}

#[test]
fn two_sources_one_checkpoint() {
    // two 640x480 sources with one shared checkpoint at 2.0 s
    let cfg = config(vec![source(vec![2000]), source(vec![2000])], 640, 480, 10, 0);
    let probes = vec![probe(640, 480, 10000), probe(640, 480, 10000)];
    let info = cfg.prepare(&probes).unwrap();

    // the decode skips the first checkpoint's frames
    assert_eq!(info.tiles[0].offset, 20);
    assert_eq!(info.tiles[0].length, 80);
    // one segment, ending one frame past the rounded checkpoint
    assert_eq!(info.tiles[0].splits, vec![(0, 1)]);
    assert_eq!(info.tiles[1].splits, vec![(0, 1)]);
    assert_eq!(info.pauses, vec![1]);
    assert_eq!(info.start, 1);
    assert_eq!(info.length, 1);

    // two tiles side by side, each half the canvas wide
    assert_eq!(info.tiles.len(), 2);
    assert_eq!(info.tiles[0].width, 320);
    assert_eq!(info.tiles[0].height, 240);
    assert_eq!((info.tiles[0].x, info.tiles[0].y), (0, 120));
    assert_eq!(info.tiles[1].width, 320);
    assert_eq!((info.tiles[1].x, info.tiles[1].y), (320, 120));
}

#[test]
fn tiles_stay_inside_the_canvas() {
    let cfg = config(
        vec![source(vec![1000]), source(vec![1000]), source(vec![1000])],
        640,
        480,
        30,
        0,
    );
    // one portrait source forces a height-locked fit
    let probes = vec![probe(640, 480, 5000), probe(100, 400, 5000), probe(1920, 1080, 5000)];
    let info = cfg.prepare(&probes).unwrap();
    assert_eq!(info.tiles.len(), 3);
    for t in &info.tiles {
        assert!(t.x + t.width <= 640);
        assert!(t.y + t.height <= 480);
        assert!(t.width <= 320);
        assert!(t.height <= 240);
    }
    // the lone tile of the last row is centered on its own
    assert_eq!(info.tiles[2].x + info.tiles[2].width / 2, 320);
}

#[test]
fn unequal_split_counts_are_fatal() {
    let cfg = config(vec![source(vec![1000]), source(vec![1000, 2000])], 640, 480, 30, 0);
    let probes = vec![probe(640, 480, 5000), probe(640, 480, 5000)];
    assert!(matches!(cfg.prepare(&probes), Err(PrepareError::UnequalSplitCounts)));
}

#[test]
fn zero_split_counts_are_fatal() {
    let cfg = config(vec![source(vec![]), source(vec![])], 640, 480, 30, 0);
    let probes = vec![probe(640, 480, 5000), probe(640, 480, 5000)];
    assert!(matches!(cfg.prepare(&probes), Err(PrepareError::NoSplits)));
}

#[test]
fn pauses_accumulate_after_every_checkpoint() {
    // one source, checkpoints at 1 s and 3 s, a 1 s pause, 10 fps
    let cfg = config(vec![source(vec![1000, 3000])], 640, 480, 10, 1000);
    let probes = vec![probe(640, 480, 10000)];
    let info = cfg.prepare(&probes).unwrap();
    // offset 10; segments (rounded): 10-10+1 = 1, then 30-10 = 20
    assert_eq!(info.tiles[0].splits, vec![(0, 1), (11, 31)]);
    assert_eq!(info.pauses, vec![1, 31]);
    assert_eq!(info.start, 1);
    // no pause trails the last checkpoint
    assert_eq!(info.length, 31);
}

#[test]
fn slowest_tile_dictates_the_synchronized_length() {
    // second checkpoint: 2 s vs 3 s after a shared first at 1 s
    let cfg = config(vec![source(vec![1000, 2000]), source(vec![1000, 3000])], 640, 480, 10, 0);
    let probes = vec![probe(640, 480, 10000), probe(640, 480, 10000)];
    let info = cfg.prepare(&probes).unwrap();
    assert_eq!(info.tiles[0].splits, vec![(0, 1), (1, 11)]);
    assert_eq!(info.tiles[1].splits, vec![(0, 1), (1, 21)]);
    // the second segment lasts 20 frames: the slower tile's length
    assert_eq!(info.pauses, vec![1, 21]);
    assert_eq!(info.length, 21);
}

#[test]
fn offset_keeps_fractional_seconds() {
    // a first checkpoint at 2.5 s seeks 25 frames at 10 fps
    let cfg = config(vec![source(vec![2500])], 640, 480, 10, 0);
    let probes = vec![probe(640, 480, 10000)];
    let info = cfg.prepare(&probes).unwrap();
    assert_eq!(info.tiles[0].offset, 25);
    assert_eq!(info.tiles[0].length, 75);
    assert_eq!(info.tiles[0].splits, vec![(0, 1)]);
}

#[test]
fn rounding_is_half_up() {
    // 1.05 s at 10 fps lands on 10.5 scaled frames and rounds to 11
    let cfg = config(vec![source(vec![1050])], 640, 480, 10, 0);
    let probes = vec![probe(640, 480, 10000)];
    let info = cfg.prepare(&probes).unwrap();
    // round(1050 * 10 / 1000 + 0.5) = round half up of 10.5 = 11
    // offset = floor(1050 * 10 / 1000) = 10
    assert_eq!(info.tiles[0].offset, 10);
    assert_eq!(info.tiles[0].splits, vec![(0, 2)]);
}
