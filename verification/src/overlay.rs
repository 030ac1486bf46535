//! The comparison-timer overlay: the sign and color policy, text
//! measurement through the font's layout metrics, a background plate,
//! and the text itself drawn over a tile.

use vstd::prelude::*;
use vstd::string::*;
use crate::frame::Frame;
use crate::time_codec::{format_spec, format_time};

verus! {

#[verifier::external_type_specification]
#[verifier::external_body]
pub struct ExFont<'a>(rusttype::Font<'a>);

#[verifier::external_type_specification]
#[verifier::external_body]
pub struct ExScale(rusttype::Scale);

/// Relies on rusttype's `Font::layout` (seeded with the scaled ascent
/// from `Font::v_metrics`): yields each glyph's pixel bounding box as
/// plain minimum and maximum coordinates, `None` for a glyph without
/// one. Where the boxes lie is the font's affair, so nothing is
/// promised of them.
#[verifier::external_body]
fn layout_bboxes(font: &rusttype::Font, scale: rusttype::Scale, text: &str) -> (r: Vec<
    Option<(i32, i32, i32, i32)>,
>) {
    let v = font.v_metrics(scale);
    font.layout(text, scale, rusttype::point(Default::default(), v.ascent)).map(
        |g| g.pixel_bounding_box().map(|b| (b.min.x, b.min.y, b.max.x, b.max.y)),
    ).collect()
}

/// Relies on imageproc's `draw_text_mut` with a rusttype font: it
/// rasterizes `text` onto the frame at `(x, y)` in place, clipped to
/// the frame. Which pixels the glyphs touch is the rasterizer's
/// affair, so only the frame's size is promised; callers confine the
/// effect by drawing into a scratch frame of the wanted rectangle.
#[verifier::external_body]
fn draw_text(
    frame: &mut Frame,
    color: (u8, u8, u8),
    x: u32,
    y: u32,
    scale: rusttype::Scale,
    font: &rusttype::Font,
    text: &str,
)
    requires
        old(frame).wf(),
    ensures
        final(frame).width == old(frame).width,
        final(frame).height == old(frame).height,
        final(frame).data@.len() == old(frame).data@.len(),
{
    let w = frame.width;
    let h = frame.height;
    let data = std::mem::take(&mut frame.data);
    let mut img = image::RgbImage::from_raw(w, h, data).unwrap();
    let c = image::Rgb([color.0, color.1, color.2]);
    imageproc::drawing::draw_text_mut(&mut img, c, x, y, scale, font, text);
    frame.data = img.into_raw();
}

/// The enclosing box of the first `k` glyph boxes, folded as
/// `(min x, min y, max x, max y)`; `None` while no glyph had a box.
pub open spec fn bbox_fold(bs: Seq<Option<(i32, i32, i32, i32)>>, k: int) -> Option<
    (int, int, int, int),
>
    decreases k,
{
    if k <= 0 {
        None
    } else {
        let prev = bbox_fold(bs, k - 1);
        match bs[k - 1] {
            None => prev,
            Some(b) => match prev {
                None => Some((b.0 as int, b.1 as int, b.2 as int, b.3 as int)),
                Some(p) => Some(
                    (
                        if b.0 < p.0 {
                            b.0 as int
                        } else {
                            p.0
                        },
                        if b.1 < p.1 {
                            b.1 as int
                        } else {
                            p.1
                        },
                        if b.2 > p.2 {
                            b.2 as int
                        } else {
                            p.2
                        },
                        if b.3 > p.3 {
                            b.3 as int
                        } else {
                            p.3
                        },
                    ),
                ),
            },
        }
    }
}

/// Folds the glyph boxes into the text's enclosing pixel box.
fn measure_bboxes(bs: &Vec<Option<(i32, i32, i32, i32)>>) -> (r: Option<(i32, i32, i32, i32)>)
    ensures
        ({
            let f = bbox_fold(bs@, bs@.len() as int);
            match r {
                None => f is None,
                Some(b) => f == Some((b.0 as int, b.1 as int, b.2 as int, b.3 as int)),
            }
        }),
{
    let mut acc: Option<(i32, i32, i32, i32)> = None;
    let mut k: usize = 0;
    while k < bs.len()
        invariant
            0 <= k <= bs@.len(),
            match acc {
                None => bbox_fold(bs@, k as int) is None,
                Some(b) => bbox_fold(bs@, k as int) == Some(
                    (b.0 as int, b.1 as int, b.2 as int, b.3 as int),
                ),
            },
        decreases bs@.len() - k,
    {
        match bs[k] {
            None => {},
            Some(b) => {
                acc = match acc {
                    None => Some(b),
                    Some(p) => Some(
                        (
                            if b.0 < p.0 {
                                b.0
                            } else {
                                p.0
                            },
                            if b.1 < p.1 {
                                b.1
                            } else {
                                p.1
                            },
                            if b.2 > p.2 {
                                b.2
                            } else {
                                p.2
                            },
                            if b.3 > p.3 {
                                b.3
                            } else {
                                p.3
                            },
                        ),
                    ),
                };
            },
        }
        k += 1;
    }
    acc
}

/// The overlay text for a frame-count difference at a frame rate:
/// the difference in seconds, formatted by the time codec.
pub open spec fn diff_text_spec(inv: bool, diff: int, fps: int) -> Seq<char> {
    let ms = diff * 1000 / fps;
    if diff == 0 {
        format_spec(ms)
    } else if inv {
        seq!['-'] + format_spec(ms)
    } else {
        seq!['+'] + format_spec(ms)
    }
}

/// The overlay color policy: white for a zero difference, green for
/// an inverted (gained-time) difference, red otherwise.
pub open spec fn diff_color_spec(inv: bool, diff: int) -> (u8, u8, u8) {
    if diff == 0 {
        (255u8, 255u8, 255u8)
    } else if inv {
        (0u8, 192u8, 0u8)
    } else {
        (192u8, 0u8, 0u8)
    }
}

/// The text and color of a comparison overlay: the frame difference
/// rendered as seconds, unsigned white when zero, `-` green when
/// inverted, `+` red otherwise.
pub fn diff_text(inv: bool, diff: u32, fps: u32) -> (r: (String, (u8, u8, u8)))
    requires
        1 <= fps,
    ensures
        r.0@ == diff_text_spec(inv, diff as int, fps as int),
        r.1 == diff_color_spec(inv, diff as int),
{
    let ms = (diff as u64) * 1000 / (fps as u64);
    proof {
        assert((diff as u64) * 1000 <= 0xffff_ffffu64 * 1000) by (nonlinear_arith)
            requires
                diff <= 0xffff_ffffu32,
        ;
        assert(ms <= 0xffff_ffffu64 * 1000);
    }
    let text = format_time(ms as i64);
    if diff == 0 {
        (text, (255, 255, 255))
    } else if inv {
        proof {
            reveal_strlit("-");
        }
        let mut s = String::from_str("-");
        s.append(text.as_str());
        proof {
            assert(s@ =~= diff_text_spec(inv, diff as int, fps as int));
        }
        (s, (0, 192, 0))
    } else {
        proof {
            reveal_strlit("+");
        }
        let mut s = String::from_str("+");
        s.append(text.as_str());
        proof {
            assert(s@ =~= diff_text_spec(inv, diff as int, fps as int));
        }
        (s, (192, 0, 0))
    }
}

/// Where the overlay's background plate goes in a tile, for a
/// measured text box: the plate wraps the text in a border of half
/// the text height, centered horizontally, anchored near the tile's
/// bottom edge. `None` when the text box is degenerate, the plate
/// would leave the tile, or the text start would not be a pixel
/// position — such an overlay is not drawn.
pub open spec fn plate_spec(
    tile_x: int,
    tile_y: int,
    tile_w: int,
    tile_h: int,
    bb: (int, int, int, int),
) -> Option<(int, int, int, int)> {
    let tw = bb.2 - bb.0;
    let th = bb.3 - bb.1;
    let border = th / 2;
    let x = tile_x + tile_w / 2 - tw / 2;
    let y = tile_y + tile_h - 2 * border - th;
    if tw > 0 && th > 0 && x - border >= tile_x && y - border >= tile_y && x - border + tw + 2
        * border <= tile_x + tile_w && y - border + th + 2 * border <= tile_y + tile_h && border
        - bb.0 >= 0 && border - bb.1 >= 0 && border - bb.0 <= u32::MAX && border - bb.1
        <= u32::MAX {
        Some((x - border, y - border, tw + 2 * border, th + 2 * border))
    } else {
        None
    }
}

/// Places the overlay plate for a measured text box: exactly the
/// decision of `plate_spec`, paired with where the text starts
/// inside the plate (one border in from its corner, shifted back by
/// the box's own origin).
pub fn place_plate(tile_x: u32, tile_y: u32, tile_w: u32, tile_h: u32, bb: (i32, i32, i32, i32))
    -> (r: Option<((u32, u32, u32, u32), (u32, u32))>)
    requires
        tile_x + tile_w <= u32::MAX,
        tile_y + tile_h <= u32::MAX,
    ensures
        ({
            let p = plate_spec(
                tile_x as int,
                tile_y as int,
                tile_w as int,
                tile_h as int,
                (bb.0 as int, bb.1 as int, bb.2 as int, bb.3 as int),
            );
            match r {
                None => p is None,
                Some(v) => {
                    &&& p == Some((v.0.0 as int, v.0.1 as int, v.0.2 as int, v.0.3 as int))
                    &&& v.1.0 as int == (bb.3 as int - bb.1 as int) / 2 - bb.0 as int
                    &&& v.1.1 as int == (bb.3 as int - bb.1 as int) / 2 - bb.1 as int
                },
            }
        }),
{
    let tw = bb.2 as i64 - bb.0 as i64;
    let th = bb.3 as i64 - bb.1 as i64;
    let border = th / 2;
    let x = tile_x as i64 + tile_w as i64 / 2 - tw / 2;
    let y = tile_y as i64 + tile_h as i64 - 2 * border - th;
    let plate_x = x - border;
    let plate_y = y - border;
    let plate_w = tw + 2 * border;
    let plate_h = th + 2 * border;
    let sx = border - bb.0 as i64;
    let sy = border - bb.1 as i64;
    if tw <= 0 || th <= 0 || plate_x < tile_x as i64 || plate_y < tile_y as i64 || plate_x
        + plate_w > tile_x as i64 + tile_w as i64 || plate_y + plate_h > tile_y as i64 + tile_h
        as i64 || sx < 0 || sy < 0 || sx > u32::MAX as i64 || sy > u32::MAX as i64 {
        return None;
    }
    Some((
        (plate_x as u32, plate_y as u32, plate_w as u32, plate_h as u32),
        (sx as u32, sy as u32),
    ))
}

/// Draws a comparison overlay over one tile: the text of `diff_text`,
/// in its color, on an opaque black plate placed by `place_plate` for
/// the measured text box. The text is rasterized into a plate-sized
/// scratch frame that is then copied over the tile, so the canvas
/// changes nowhere outside the returned plate rectangle. When the
/// text cannot be measured or the plate does not fit the tile,
/// nothing is drawn at all (where a direct draw could spill beyond
/// the tile).
pub fn draw_overlay(
    canvas: &mut Frame,
    tile_x: u32,
    tile_y: u32,
    tile_w: u32,
    tile_h: u32,
    inv: bool,
    diff: u32,
    fps: u32,
    font: &rusttype::Font,
    scale: rusttype::Scale,
) -> (r: Option<((u32, u32, u32, u32), (u8, u8, u8), String)>)
    requires
        old(canvas).wf(),
        1 <= fps,
        tile_x + tile_w <= old(canvas).width,
        tile_y + tile_h <= old(canvas).height,
    ensures
        final(canvas).wf(),
        final(canvas).width == old(canvas).width,
        final(canvas).height == old(canvas).height,
        r is None ==> *final(canvas) == *old(canvas),
        r matches Some(v) ==> {
            &&& tile_x <= v.0.0 && v.0.0 + v.0.2 <= tile_x + tile_w
            &&& tile_y <= v.0.1 && v.0.1 + v.0.3 <= tile_y + tile_h
            &&& final(canvas).same_outside(
                *old(canvas),
                v.0.0 as int,
                v.0.1 as int,
                v.0.2 as int,
                v.0.3 as int,
            )
            &&& exists|bb: (int, int, int, int)|
                #[trigger] plate_spec(tile_x as int, tile_y as int, tile_w as int, tile_h as int, bb)
                    == Some((v.0.0 as int, v.0.1 as int, v.0.2 as int, v.0.3 as int))
            &&& v.1 == diff_color_spec(inv, diff as int)
            &&& v.2@ == diff_text_spec(inv, diff as int, fps as int)
        },
        final(canvas).same_outside(
            *old(canvas),
            tile_x as int,
            tile_y as int,
            tile_w as int,
            tile_h as int,
        ),
{
    let (text, color) = diff_text(inv, diff, fps);
    let bboxes = layout_bboxes(font, scale, text.as_str());
    let bb = match measure_bboxes(&bboxes) {
        Some(b) => b,
        None => {
            return None;
        },
    };
    let (plate, (sx, sy)) = match place_plate(tile_x, tile_y, tile_w, tile_h, bb) {
        Some(v) => v,
        None => {
            return None;
        },
    };
    let ghost bb_g = (bb.0 as int, bb.1 as int, bb.2 as int, bb.3 as int);
    proof {
        assert(plate_spec(tile_x as int, tile_y as int, tile_w as int, tile_h as int, bb_g)
            == Some((plate.0 as int, plate.1 as int, plate.2 as int, plate.3 as int)));
        let cw = canvas.width as int;
        let ch = canvas.height as int;
        assert((plate.2 as int) * (plate.3 as int) * 3 <= cw * ch * 3) by (nonlinear_arith)
            requires
                0 <= plate.2 <= cw,
                0 <= plate.3 <= ch,
        ;
    }
    // the plate: a black scratch frame the text is rasterized into,
    // copied over the tile in one verified step
    let cap = canvas.data.len();
    proof {
        assert((plate.2 as int) * (plate.3 as int) * 3 <= cap as int);
    }
    let mut scratch = Frame::new(plate.2, plate.3);
    draw_text(&mut scratch, color, sx, sy, scale, font, text.as_str());
    canvas.copy_from(&scratch, plate.0, plate.1);
    proof {
        assert forall|a: int, b2: int|
            0 <= a < canvas.width as int && 0 <= b2 < canvas.height as int && !(tile_x <= a
                < tile_x + tile_w && tile_y <= b2 < tile_y + tile_h) implies canvas.pixel(a, b2)
            == old(canvas).pixel(a, b2) by {
            assert(!(plate.0 <= a < plate.0 + plate.2 && plate.1 <= b2 < plate.1 + plate.3));
        }
    }
    Some((plate, color, text))
}

} // verus!
