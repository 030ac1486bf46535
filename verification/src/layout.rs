//! Tile layout: a near-square grid over the canvas, an
//! aspect-preserving fit of each source into its grid cell, and
//! centering, with the last (possibly partial) row centered on its
//! own tile count.

use vstd::prelude::*;
use vstd::arithmetic::div_mod::{
    lemma_div_is_ordered, lemma_div_multiples_vanish, lemma_div_pos_is_pos,
    lemma_fundamental_div_mod, lemma_mod_division_less_than_divisor, lemma_multiply_divide_lt,
};
use vstd::arithmetic::mul::{
    lemma_mul_inequality, lemma_mul_is_associative, lemma_mul_is_commutative,
    lemma_mul_nonnegative,
};

verus! {

/// `tx` is the number of grid columns for `n` tiles: the least
/// positive count whose square covers `n`.
pub open spec fn tiles_x_ok(n: int, tx: int) -> bool {
    &&& 1 <= tx
    &&& n <= tx * tx
    &&& (tx - 1) * (tx - 1) < n
}

/// Number of grid rows for `n` tiles over `tx` columns.
pub open spec fn tiles_y_of(n: int, tx: int) -> int {
    (n + tx - 1) / tx
}

/// Number of tiles in the last grid row.
pub open spec fn last_row_of(n: int, tx: int) -> int {
    if n % tx == 0 {
        tx
    } else {
        n % tx
    }
}

/// Width of the aspect-preserving fit of a `sw` by `sh` source into a
/// `bw` by `bh` box: width-locked when the implied height fits,
/// height-locked otherwise.
pub open spec fn fit_w(sw: int, sh: int, bw: int, bh: int) -> int {
    if sh * bw / sw <= bh {
        bw
    } else {
        sw * bh / sh
    }
}

/// Height of the aspect-preserving fit (see `fit_w`).
pub open spec fn fit_h(sw: int, sh: int, bw: int, bh: int) -> int {
    if sh * bw / sw <= bh {
        sh * bw / sw
    } else {
        bh
    }
}

/// Horizontal pixel position of tile `t`'s fitted rectangle of width
/// `w`: its grid cell's left edge under the row's own centering
/// offset, plus centering within the cell.
pub open spec fn tile_x_pos(width: int, n: int, tx: int, t: int, w: int) -> int {
    let bw = width / tx;
    let ty = tiles_y_of(n, tx);
    let col = t % tx;
    let row = t / tx;
    let cnt = if row == ty - 1 {
        last_row_of(n, tx)
    } else {
        tx
    };
    (width / 2 - cnt * bw / 2) + col * bw + bw / 2 - w / 2
}

/// Vertical pixel position of tile `t`'s fitted rectangle of height
/// `h`: the centered grid's top edge plus the row offset, plus
/// centering within the cell.
pub open spec fn tile_y_pos(height: int, n: int, tx: int, t: int, h: int) -> int {
    let bh = height / tx;
    let ty = tiles_y_of(n, tx);
    let row = t / tx;
    (height / 2 - ty * bh / 2) + row * bh + bh / 2 - h / 2
}

/// The grid covers every tile: the column count times the row count
/// is at least the tile count.
pub proof fn lemma_grid_covers(n: int, tx: int)
    requires
        1 <= n,
        tiles_x_ok(n, tx),
    ensures
        n <= tx * tiles_y_of(n, tx),
{
    lemma_fundamental_div_mod(n + tx - 1, tx);
    lemma_mod_division_less_than_divisor(n + tx - 1, tx);
}

/// What an integer loses to halving it regains from halving its
/// successor.
proof fn lemma_half_split(x: int)
    requires
        0 <= x,
    ensures
        x - x / 2 == (x + 1) / 2,
{
    lemma_fundamental_div_mod(x, 2);
    lemma_mod_division_less_than_divisor(x, 2);
    let q = x / 2;
    let r = x % 2;
    if r == 0 {
        vstd::arithmetic::div_mod::lemma_fundamental_div_mod_converse(x + 1, 2, q, 1);
    } else {
        vstd::arithmetic::div_mod::lemma_fundamental_div_mod_converse(x + 1, 2, q + 1, 0);
    }
}

/// Placing item `idx` of `cnt` cells, each `cell` wide, centered in a
/// span of `total`, with the item of size `item` centered in its
/// cell, keeps the item inside the span.
proof fn lemma_axis_place(total: int, cell: int, cnt: int, idx: int, item: int)
    requires
        0 <= total,
        0 <= cell,
        1 <= cnt,
        0 <= idx < cnt,
        0 <= item <= cell,
        cnt * cell <= total,
    ensures
        0 <= (total / 2 - cnt * cell / 2) + idx * cell + cell / 2 - item / 2,
        (total / 2 - cnt * cell / 2) + idx * cell + cell / 2 - item / 2 + item <= total,
{
    let t = cnt * cell;
    assert(t >= 0) by {
        lemma_mul_nonnegative(cnt, cell);
    }
    let off = total / 2 - t / 2;
    // the grid offset is non-negative
    assert(t / 2 <= total / 2) by {
        lemma_div_is_ordered(t, total, 2);
    }
    // the item never outgrows its cell's centering
    assert(item / 2 <= cell / 2) by {
        lemma_div_is_ordered(item, cell, 2);
    }
    assert(idx * cell >= 0) by {
        lemma_mul_nonnegative(idx, cell);
    }
    // upper bound: the item ends within its cell, the cell within the
    // grid, the grid within the span
    assert(cell / 2 - item / 2 + item <= cell) by {
        lemma_half_split(item);
        lemma_half_split(cell);
        lemma_div_is_ordered(item + 1, cell + 1, 2);
    }
    assert(idx * cell + cell <= t) by {
        assert((idx + 1) * cell <= cnt * cell) by {
            lemma_mul_inequality(idx + 1, cnt, cell);
        }
        assert((idx + 1) * cell == idx * cell + cell) by (nonlinear_arith);
    }
    assert(off + t <= total) by {
        lemma_half_split(t);
        lemma_half_split(total);
        lemma_div_is_ordered(t + 1, total + 1, 2);
    }
}

/// The fitted rectangle of every tile of an `n`-tile grid with `tx`
/// columns lies inside the canvas, and its size stays within the grid
/// cell.
pub proof fn lemma_tile_geometry(width: int, height: int, n: int, tx: int, t: int, sw: int, sh: int)
    requires
        0 <= width,
        0 <= height,
        1 <= n,
        tiles_x_ok(n, tx),
        0 <= t < n,
        1 <= sw,
        1 <= sh,
    ensures
        0 <= fit_w(sw, sh, width / tx, height / tx) <= width / tx,
        0 <= fit_h(sw, sh, width / tx, height / tx) <= height / tx,
        0 <= tile_x_pos(width, n, tx, t, fit_w(sw, sh, width / tx, height / tx)),
        tile_x_pos(width, n, tx, t, fit_w(sw, sh, width / tx, height / tx)) + fit_w(
            sw,
            sh,
            width / tx,
            height / tx,
        ) <= width,
        0 <= tile_y_pos(height, n, tx, t, fit_h(sw, sh, width / tx, height / tx)),
        tile_y_pos(height, n, tx, t, fit_h(sw, sh, width / tx, height / tx)) + fit_h(
            sw,
            sh,
            width / tx,
            height / tx,
        ) <= height,
{
    let bw = width / tx;
    let bh = height / tx;
    assert(bw >= 0) by {
        lemma_div_pos_is_pos(width, tx);
    }
    assert(bh >= 0) by {
        lemma_div_pos_is_pos(height, tx);
    }
    // the full grid of boxes fits the canvas on both axes
    assert(tx * bw <= width) by {
        lemma_fundamental_div_mod(width, tx);
        lemma_mod_division_less_than_divisor(width, tx);
    }
    assert(tx * bh <= height) by {
        lemma_fundamental_div_mod(height, tx);
        lemma_mod_division_less_than_divisor(height, tx);
    }
    // the fitted size stays within the box
    let w = fit_w(sw, sh, bw, bh);
    let h = fit_h(sw, sh, bw, bh);
    let h1 = sh * bw / sw;
    assert(h1 >= 0) by {
        lemma_mul_nonnegative(sh, bw);
        lemma_div_pos_is_pos(sh * bw, sw);
    }
    if h1 <= bh {
        assert(w == bw && h == h1);
    } else {
        // width-locked overflows the box height, so the height-locked
        // scale is used, and it keeps the width under the box width
        assert(w == sw * bh / sh && h == bh);
        assert(sw * bh <= sh * bw) by {
            lemma_fundamental_div_mod(sh * bw, sw);
            lemma_mod_division_less_than_divisor(sh * bw, sw);
            assert(sw * (bh + 1) <= sw * h1) by {
                lemma_mul_inequality(bh + 1, h1, sw);
                lemma_mul_is_commutative(bh + 1, sw);
                lemma_mul_is_commutative(h1, sw);
            }
            assert(sw * h1 <= sh * bw);
            assert(sw * bh + sw == sw * (bh + 1)) by (nonlinear_arith);
        }
        assert(sw * bh / sh <= sh * bw / sh) by {
            lemma_mul_nonnegative(sw, bh);
            lemma_div_is_ordered(sw * bh, sh * bw, sh);
        }
        assert(sh * bw / sh == bw) by {
            lemma_mul_is_commutative(sh, bw);
            lemma_div_multiples_vanish(bw, sh);
        }
        assert(w >= 0) by {
            lemma_mul_nonnegative(sw, bh);
            lemma_div_pos_is_pos(sw * bh, sh);
        }
    }
    // rows and columns of tile t
    let ty = tiles_y_of(n, tx);
    let col = t % tx;
    let row = t / tx;
    assert(0 <= col < tx) by {
        lemma_mod_division_less_than_divisor(t, tx);
    }
    assert(row >= 0) by {
        lemma_div_pos_is_pos(t, tx);
    }
    // the row grid covers all n tiles: n <= ty * tx
    assert(n <= ty * tx) by {
        lemma_fundamental_div_mod(n + tx - 1, tx);
        lemma_mod_division_less_than_divisor(n + tx - 1, tx);
        lemma_mul_is_commutative(ty, tx);
    }
    assert(row < ty) by {
        assert(t < tx * ty) by {
            lemma_mul_is_commutative(ty, tx);
        }
        lemma_multiply_divide_lt(t, tx, ty);
    }
    assert(ty <= tx) by {
        assert(n + tx - 1 < tx * (tx + 1)) by {
            assert(tx * tx + tx == tx * (tx + 1)) by (nonlinear_arith);
        }
        lemma_multiply_divide_lt(n + tx - 1, tx, tx + 1);
    }
    // the last row holds last_row_of tiles, and a tile of the last
    // row has a column index under that count
    let last_n = last_row_of(n, tx);
    assert(0 <= n % tx < tx) by {
        lemma_mod_division_less_than_divisor(n, tx);
    }
    assert(1 <= last_n <= tx);
    assert(t == tx * row + col) by {
        lemma_fundamental_div_mod(t, tx);
    }
    if row == ty - 1 {
        assert(col < last_n) by {
            lemma_fundamental_div_mod(n, tx);
            if n % tx == 0 {
                // full last row: ty == n / tx
                vstd::arithmetic::div_mod::lemma_fundamental_div_mod_converse(
                    n + tx - 1,
                    tx,
                    n / tx,
                    tx - 1,
                );
            } else {
                // ragged last row: ty == n / tx + 1
                assert((n / tx + 1) * tx == (n / tx) * tx + tx) by (nonlinear_arith);
                vstd::arithmetic::div_mod::lemma_fundamental_div_mod_converse(
                    n + tx - 1,
                    tx,
                    n / tx + 1,
                    n % tx - 1,
                );
            }
        }
        assert(last_n * bw <= tx * bw) by {
            lemma_mul_inequality(last_n, tx, bw);
        }
        lemma_axis_place(width, bw, last_n, col, w);
    } else {
        lemma_axis_place(width, bw, tx, col, w);
    }
    // vertical: rows are always centered on the full row count
    assert(ty * bh <= tx * bh) by {
        lemma_mul_inequality(ty, tx, bh);
    }
    lemma_axis_place(height, bh, ty, row, h);
}

/// Computes tile `t`'s pixel rectangle: position and aspect-fitted
/// size inside its grid cell, with the last row centered on its own
/// tile count. The rectangle lies inside the canvas.
pub fn place_tile(width: u32, height: u32, n: u64, tx: u64, t: u64, sw: u32, sh: u32) -> (r: (
    u32,
    u32,
    u32,
    u32,
))
    requires
        1 <= n <= u32::MAX,
        tiles_x_ok(n as int, tx as int),
        tx <= 65536,
        t < n,
        1 <= sw,
        1 <= sh,
    ensures
        ({
            let w = fit_w(sw as int, sh as int, width as int / tx as int, height as int / tx as int);
            let h = fit_h(sw as int, sh as int, width as int / tx as int, height as int / tx as int);
            &&& r.2 == w
            &&& r.3 == h
            &&& r.0 == tile_x_pos(width as int, n as int, tx as int, t as int, w)
            &&& r.1 == tile_y_pos(height as int, n as int, tx as int, t as int, h)
            &&& r.0 + r.2 <= width
            &&& r.1 + r.3 <= height
        }),
{
    proof {
        lemma_tile_geometry(
            width as int,
            height as int,
            n as int,
            tx as int,
            t as int,
            sw as int,
            sh as int,
        );
    }
    let bw = (width as u64) / tx;
    let bh = (height as u64) / tx;
    let ty = (n + tx - 1) / tx;
    let last_n = if n % tx == 0 {
        tx
    } else {
        n % tx
    };
    let row = t / tx;
    let col = t % tx;
    proof {
        assert(1 <= ty) by (nonlinear_arith)
            requires
                1 <= n,
                1 <= tx,
                ty as int == (n as int + tx as int - 1) / (tx as int),
        ;
    }
    let cnt = if row == ty - 1 {
        last_n
    } else {
        tx
    };
    proof {
        // all the grid quantities are small and the grid fits the span
        assert(tx * bw <= width) by {
            lemma_fundamental_div_mod(width as int, tx as int);
            lemma_mod_division_less_than_divisor(width as int, tx as int);
        }
        assert(tx * bh <= height) by {
            lemma_fundamental_div_mod(height as int, tx as int);
            lemma_mod_division_less_than_divisor(height as int, tx as int);
        }
        assert(1 <= ty <= tx) by (nonlinear_arith)
            requires
                1 <= n,
                1 <= tx,
                (n as int) <= (tx as int) * (tx as int),
                ty as int == (n as int + tx as int - 1) / (tx as int),
        ;
        assert(0 <= n % tx < tx) by {
            lemma_mod_division_less_than_divisor(n as int, tx as int);
        }
        assert(0 <= col < tx) by {
            lemma_mod_division_less_than_divisor(t as int, tx as int);
        }
        assert(n <= ty * tx) by {
            lemma_fundamental_div_mod(n as int + tx as int - 1, tx as int);
            lemma_mod_division_less_than_divisor(n as int + tx as int - 1, tx as int);
            lemma_mul_is_commutative(ty as int, tx as int);
        }
        assert(row < ty) by {
            assert(t < tx * ty) by {
                lemma_mul_is_commutative(ty as int, tx as int);
            }
            lemma_multiply_divide_lt(t as int, tx as int, ty as int);
        }
        assert(1 <= cnt <= tx);
        assert(cnt * bw <= tx * bw) by {
            lemma_mul_inequality(cnt as int, tx as int, bw as int);
        }
        assert(col * bw <= tx * bw) by {
            lemma_mul_inequality(col as int, tx as int, bw as int);
        }
        assert(ty * bh <= tx * bh) by {
            lemma_mul_inequality(ty as int, tx as int, bh as int);
        }
        assert(row * bh <= tx * bh) by {
            lemma_mul_inequality(row as int, tx as int, bh as int);
        }
    }
    // aspect-preserving fit into the grid cell
    let pw = sw as u64;
    let ph = sh as u64;
    proof {
        assert(ph * bw <= u64::MAX) by (nonlinear_arith)
            requires
                ph <= u32::MAX,
                bw <= u32::MAX,
        ;
        assert(pw * bh <= u64::MAX) by (nonlinear_arith)
            requires
                pw <= u32::MAX,
                bh <= u32::MAX,
        ;
    }
    let h1 = ph * bw / pw;
    let (w, h): (u64, u64) = if h1 <= bh {
        (bw, h1)
    } else {
        (pw * bh / ph, bh)
    };
    proof {
        assert(w == fit_w(sw as int, sh as int, bw as int, bh as int));
        assert(h == fit_h(sw as int, sh as int, bw as int, bh as int));
        assert(w / 2 <= bw / 2) by {
            lemma_div_is_ordered(w as int, bw as int, 2);
        }
        assert(h / 2 <= bh / 2) by {
            lemma_div_is_ordered(h as int, bh as int, 2);
        }
        assert(cnt * bw / 2 <= width as u64 / 2) by {
            lemma_div_is_ordered(cnt as int * bw as int, width as int, 2);
        }
        assert(ty * bh / 2 <= height as u64 / 2) by {
            lemma_div_is_ordered(ty as int * bh as int, height as int, 2);
        }
    }
    let x = (width as u64 / 2 - cnt * bw / 2) + col * bw + bw / 2 - w / 2;
    let y = (height as u64 / 2 - ty * bh / 2) + row * bh + bh / 2 - h / 2;
    proof {
        assert(x == tile_x_pos(width as int, n as int, tx as int, t as int, w as int));
        assert(y == tile_y_pos(height as int, n as int, tx as int, t as int, h as int));
    }
    (x as u32, y as u32, w as u32, h as u32)
}

/// The number of grid columns: the least count whose square covers
/// `n` tiles.
pub fn grid_columns(n: usize) -> (r: u64)
    requires
        1 <= n <= u32::MAX,
    ensures
        tiles_x_ok(n as int, r as int),
        1 <= r <= 65536,
{
    let mut t: u64 = 1;
    let mut sq: u64 = 1;
    while sq < n as u64
        invariant
            1 <= t <= 65536,
            n <= u32::MAX,
            sq == t * t,
            (t - 1) * (t - 1) < n,
        decreases 65536 - t,
    {
        proof {
            assert(t < 65536) by (nonlinear_arith)
                requires
                    1 <= t,
                    t * t < n,
                    n <= u32::MAX,
            ;
        }
        t = t + 1;
        proof {
            assert(t * t <= 65536 * 65536) by (nonlinear_arith)
                requires
                    1 <= t <= 65536,
            ;
        }
        sq = t * t;
    }
    t
}

} // verus!
