//! The canvas and the one drawing primitive. A canvas of `w` by `h` pixels
//! is a buffer of `w * h * 3` bytes: rows from the top, pixels from the left,
//! red, green and blue for each pixel.

use vstd::prelude::*;
use vstd::arithmetic::div_mod::lemma_fundamental_div_mod_converse;

verus! {

/// Whether the pixel `(x, y)` belongs to the circle: it lies in the bounding
/// square of the circle, and the square of its distance to the centre is at
/// most the square of the radius. A circle of negative radius has no pixel.
pub open spec fn inside_circle(x: int, y: int, cx: int, cy: int, radius: int) -> bool {
    &&& cx - radius <= x <= cx + radius
    &&& cy - radius <= y <= cy + radius
    &&& (x - cx) * (x - cx) + (y - cy) * (y - cy) <= radius * radius
}

/// The column of the pixel that byte `i` of a canvas `w` pixels wide belongs to.
pub open spec fn column_of(i: int, w: int) -> int {
    (i / 3) % w
}

/// The row of the pixel that byte `i` of a canvas `w` pixels wide belongs to.
pub open spec fn row_of(i: int, w: int) -> int {
    (i / 3) / w
}

/// Whether byte `i` of a canvas of `w` by `h` pixels belongs to a pixel of
/// the circle.
pub open spec fn covered(i: int, w: int, h: int, cx: int, cy: int, radius: int) -> bool {
    &&& 0 <= i < w * h * 3
    &&& inside_circle(column_of(i, w), row_of(i, w), cx, cy, radius)
}

/// The canvas after the circle is drawn: the bytes of the circle's pixels
/// hold the colour, every other byte is as before.
pub open spec fn with_circle(
    canvas: Seq<u8>,
    w: int,
    h: int,
    cx: int,
    cy: int,
    radius: int,
    color: Seq<u8>,
) -> Seq<u8> {
    Seq::new(
        canvas.len(),
        |i: int| if covered(i, w, h, cx, cy, radius) { color[i % 3] } else { canvas[i] },
    )
}

/// Byte `c` of the pixel in column `x` of row `y` is found again from its
/// index.
pub proof fn lemma_pixel_of_index(w: int, x: int, y: int, c: int)
    requires
        0 <= x < w,
        0 <= y,
        0 <= c < 3,
    ensures
        column_of((y * w + x) * 3 + c, w) == x,
        row_of((y * w + x) * 3 + c, w) == y,
        ((y * w + x) * 3 + c) % 3 == c,
        ((y * w + x) * 3 + c) / 3 == y * w + x,
{
    let p: int = y * w + x;
    assert(0 <= y * w) by (nonlinear_arith)
        requires
            0 <= y,
            0 <= w,
    ;
    lemma_fundamental_div_mod_converse(p * 3 + c, 3, p, c);
    lemma_fundamental_div_mod_converse(p, w, y, x);
}

/// Every byte of a canvas is a byte of one pixel, in a column and a row of
/// the canvas.
pub proof fn lemma_index_of_pixel(i: int, w: int, h: int)
    requires
        0 <= i < w * h * 3,
        0 <= w,
        0 <= h,
    ensures
        0 <= column_of(i, w) < w,
        0 <= row_of(i, w) < h,
        0 <= i % 3 < 3,
        i == (row_of(i, w) * w + column_of(i, w)) * 3 + i % 3,
{
    let p: int = i / 3;
    assert(w > 0) by (nonlinear_arith)
        requires
            0 <= i < w * h * 3,
            0 <= w,
    ;
    assert(p < w * h);
    vstd::arithmetic::div_mod::lemma_fundamental_div_mod(p, w);
    vstd::arithmetic::div_mod::lemma_mod_bound(p, w);
    let y: int = p / w;
    let x: int = p % w;
    assert(p == w * y + x);
    assert(w * y == y * w) by (nonlinear_arith);
    assert(0 <= y < h) by (nonlinear_arith)
        requires
            0 <= p < w * h,
            p == w * y + x,
            0 <= x < w,
            0 < w,
    ;
}

/// A circle whose bounding square misses the canvas leaves the canvas as it
/// is, and so does a circle of negative radius; a canvas without pixels
/// stays as it is in any case.
pub proof fn lemma_circle_off_canvas(
    canvas: Seq<u8>,
    w: int,
    h: int,
    cx: int,
    cy: int,
    radius: int,
    color: Seq<u8>,
)
    requires
        canvas.len() == w * h * 3,
        0 <= w,
        0 <= h,
        radius < 0 || cx + radius < 0 || cy + radius < 0 || w <= cx - radius || h <= cy - radius
            || w == 0 || h == 0,
    ensures
        with_circle(canvas, w, h, cx, cy, radius, color) == canvas,
{
    assert forall|i: int| 0 <= i < canvas.len() implies !covered(i, w, h, cx, cy, radius) by {
        lemma_index_of_pixel(i, w, h);
    }
    assert(with_circle(canvas, w, h, cx, cy, radius, color) =~= canvas);
}

/// Whether byte `i` belongs to a pixel of the circle that comes, row by row
/// and from the left in each row, before column `col` of row `row`.
pub open spec fn painted(
    i: int,
    w: int,
    h: int,
    cx: int,
    cy: int,
    radius: int,
    row: int,
    col: int,
) -> bool {
    &&& covered(i, w, h, cx, cy, radius)
    &&& (row_of(i, w) < row || (row_of(i, w) == row && column_of(i, w) < col))
}

/// Draws a filled circle: every pixel of the canvas that belongs to the
/// circle gets the colour, and nothing else changes.
pub fn draw_circle(
    buf: &mut [u8],
    w: usize,
    h: usize,
    cx: i32,
    cy: i32,
    radius: i32,
    color: [u8; 3],
)
    requires
        old(buf)@.len() == w * h * 3,
    ensures
        final(buf)@ == with_circle(
            old(buf)@,
            w as int,
            h as int,
            cx as int,
            cy as int,
            radius as int,
            color@,
        ),
{
    let ghost before = buf@;
    let ghost len: int = before.len() as int;
    let size: usize = buf.len();
    let left: i64 = cx as i64 - radius as i64;
    let right: i64 = cx as i64 + radius as i64 + 1;
    let top: i64 = cy as i64 - radius as i64;
    let bottom: i64 = cy as i64 + radius as i64 + 1;
    if radius < 0 || right <= 0 || bottom <= 0 {
        proof {
            lemma_circle_off_canvas(
                before,
                w as int,
                h as int,
                cx as int,
                cy as int,
                radius as int,
                color@,
            );
        }
        return ;
    }
    let x0: usize = if left < 0 { 0 } else { left as usize };
    let y0: usize = if top < 0 { 0 } else { top as usize };
    let x1: usize = if (right as usize) < w { right as usize } else { w };
    let y1: usize = if (bottom as usize) < h { bottom as usize } else { h };
    if x0 >= x1 || y0 >= y1 {
        proof {
            lemma_circle_off_canvas(
                before,
                w as int,
                h as int,
                cx as int,
                cy as int,
                radius as int,
                color@,
            );
        }
        return ;
    }
    assert(0 <= radius * radius <= 0x4000_0000_0000_0000) by (nonlinear_arith)
        requires
            0 <= radius <= 0x8000_0000,
    ;
    let reach: i64 = radius as i64 * radius as i64;
    let mut y: usize = y0;
    while y < y1
        invariant
            y0 <= y <= y1 <= h,
            x0 < x1 <= w,
            0 <= radius,
            x0 == (if cx - radius < 0 { 0 } else { cx - radius }),
            y0 == (if cy - radius < 0 { 0 } else { cy - radius }),
            x1 == (if cx + radius + 1 < w { cx + radius + 1 } else { w as int }),
            y1 == (if cy + radius + 1 < h { cy + radius + 1 } else { h as int }),
            reach == radius * radius,
            len == w * h * 3,
            len == size,
            buf@.len() == len,
            before.len() == len,
            forall|i: int|
                0 <= i < len ==> buf@[i] == (if painted(
                    i,
                    w as int,
                    h as int,
                    cx as int,
                    cy as int,
                    radius as int,
                    y as int,
                    x0 as int,
                ) {
                    color@[i % 3]
                } else {
                    before[i]
                }),
        decreases y1 - y,
    {
        let mut x: usize = x0;
        while x < x1
            invariant
                y0 <= y < y1 <= h,
                x0 <= x <= x1 <= w,
                0 <= radius,
                x0 == (if cx - radius < 0 { 0 } else { cx - radius }),
                y0 == (if cy - radius < 0 { 0 } else { cy - radius }),
                x1 == (if cx + radius + 1 < w { cx + radius + 1 } else { w as int }),
                y1 == (if cy + radius + 1 < h { cy + radius + 1 } else { h as int }),
                reach == radius * radius,
                len == w * h * 3,
                len == size,
                buf@.len() == len,
                before.len() == len,
                forall|i: int|
                    0 <= i < len ==> buf@[i] == (if painted(
                        i,
                        w as int,
                        h as int,
                        cx as int,
                        cy as int,
                        radius as int,
                        y as int,
                        x as int,
                    ) {
                        color@[i % 3]
                    } else {
                        before[i]
                    }),
            decreases x1 - x,
        {
            let dx: i64 = x as i64 - cx as i64;
            let dy: i64 = y as i64 - cy as i64;
            proof {
                assert(0 <= dx * dx <= 0x3fff_ffff_0000_0001) by (nonlinear_arith)
                    requires
                        -0x7fff_ffff <= dx <= 0x7fff_ffff,
                ;
                assert(0 <= dy * dy <= 0x3fff_ffff_0000_0001) by (nonlinear_arith)
                    requires
                        -0x7fff_ffff <= dy <= 0x7fff_ffff,
                ;
                assert(0 <= y * w && y * w + x < w * h && w * h <= w * h * 3) by (nonlinear_arith)
                    requires
                        0 <= x < w,
                        0 <= y < h,
                ;
            }
            let ghost prev = buf@;
            let hit: bool = dx * dx + dy * dy <= reach;
            if hit {
                let idx: usize = (y * w + x) * 3;
                buf[idx] = color[0];
                buf[idx + 1] = color[1];
                buf[idx + 2] = color[2];
            }
            proof {
                let base: int = (y * w + x) * 3;
                lemma_pixel_of_index(w as int, x as int, y as int, 0);
                lemma_pixel_of_index(w as int, x as int, y as int, 1);
                lemma_pixel_of_index(w as int, x as int, y as int, 2);
                assert(hit == inside_circle(
                    x as int,
                    y as int,
                    cx as int,
                    cy as int,
                    radius as int,
                ));
                assert forall|i: int| 0 <= i < len implies buf@[i] == (if painted(
                    i,
                    w as int,
                    h as int,
                    cx as int,
                    cy as int,
                    radius as int,
                    y as int,
                    x + 1,
                ) {
                    color@[i % 3]
                } else {
                    before[i]
                }) by {
                    lemma_index_of_pixel(i, w as int, h as int);
                    if base <= i < base + 3 {
                        assert(i == base || i == base + 1 || i == base + 2);
                    } else {
                        assert(buf@[i] == prev[i]);
                        if row_of(i, w as int) == y && column_of(i, w as int) == x {
                            assert(i == base + i % 3);
                        }
                    }
                }
            }
            x += 1;
        }
        proof {
            assert forall|i: int| 0 <= i < len implies painted(
                i,
                w as int,
                h as int,
                cx as int,
                cy as int,
                radius as int,
                y as int,
                x1 as int,
            ) == painted(
                i,
                w as int,
                h as int,
                cx as int,
                cy as int,
                radius as int,
                y + 1,
                x0 as int,
            ) by {
                lemma_index_of_pixel(i, w as int, h as int);
            }
        }
        y += 1;
    }
    proof {
        assert forall|i: int| 0 <= i < len implies painted(
            i,
            w as int,
            h as int,
            cx as int,
            cy as int,
            radius as int,
            y1 as int,
            x0 as int,
        ) == covered(i, w as int, h as int, cx as int, cy as int, radius as int) by {
            lemma_index_of_pixel(i, w as int, h as int);
        }
        assert(buf@ =~= with_circle(
            before,
            w as int,
            h as int,
            cx as int,
            cy as int,
            radius as int,
            color@,
        ));
    }
}

/// Pixel by pixel: after the circle is drawn, each of the three bytes of the
/// pixel in column `x` of row `y` holds its byte of the colour where the
/// pixel belongs to the circle, and is as before where it does not.
pub proof fn lemma_pixel_after_circle(
    canvas: Seq<u8>,
    w: int,
    h: int,
    cx: int,
    cy: int,
    radius: int,
    color: Seq<u8>,
    x: int,
    y: int,
    c: int,
)
    requires
        canvas.len() == w * h * 3,
        0 <= x < w,
        0 <= y < h,
        0 <= c < 3,
    ensures
        0 <= (y * w + x) * 3 + c < canvas.len(),
        with_circle(canvas, w, h, cx, cy, radius, color)[(y * w + x) * 3 + c] == (if inside_circle(
            x,
            y,
            cx,
            cy,
            radius,
        ) {
            color[c]
        } else {
            canvas[(y * w + x) * 3 + c]
        }),
{
    lemma_pixel_of_index(w, x, y, c);
    assert(0 <= y * w && y * w + x < w * h) by (nonlinear_arith)
        requires
            0 <= x < w,
            0 <= y < h,
    ;
}

/// Drawing a circle a second time changes nothing: the canvas with the
/// circle drawn twice is the canvas with the circle drawn once.
pub proof fn lemma_draw_circle_idempotent(
    canvas: Seq<u8>,
    w: int,
    h: int,
    cx: int,
    cy: int,
    radius: int,
    color: Seq<u8>,
)
    ensures
        with_circle(with_circle(canvas, w, h, cx, cy, radius, color), w, h, cx, cy, radius, color)
            == with_circle(canvas, w, h, cx, cy, radius, color),
{
    let once = with_circle(canvas, w, h, cx, cy, radius, color);
    let twice = with_circle(once, w, h, cx, cy, radius, color);
    assert(twice =~= once);
}

} // verus!
