//! The picture on the screen at boot.
use vstd::prelude::*;

verus! {

/// Colour of the line that is drawn.
pub const WHITE: u32 = 0xFFFF_FFFF;

/// Pixels of the line that is drawn.
pub const LINE_PIXELS: usize = 100;

/// Pixel `p` belongs to the line.
pub open spec fn on_line(width: int, n: int, p: int) -> bool {
    exists|i: int| 0 <= i < n && p == #[trigger] line_pixel(width, i)
}

/// Pixel number `i` of the line.
pub open spec fn line_pixel(width: int, i: int) -> int {
    i * width + i
}

/// Draws a diagonal white line from the upper left corner.
pub fn draw_line(fb: &mut [u32], width: usize)
    requires
        line_pixel(width as int, LINE_PIXELS - 1) < old(fb)@.len(),
    ensures
        final(fb)@.len() == old(fb)@.len(),
        forall|p: int|
            0 <= p < old(fb)@.len() ==> #[trigger] final(fb)@[p] == (if on_line(
                width as int,
                LINE_PIXELS as int,
                p,
            ) {
                WHITE
            } else {
                old(fb)@[p]
            }),
        forall|i: int| 0 <= i < 100 ==> #[trigger] final(fb)@[i * width + i] == 0xFFFF_FFFF,
        forall|p: int|
            0 <= p < old(fb)@.len() && (forall|i: int| 0 <= i < 100 ==> p != #[trigger] (i * width
                + i)) ==> #[trigger] final(fb)@[p] == old(fb)@[p],
{
    let n: usize = fb.len();
    let mut i: usize = 0;
    while i < LINE_PIXELS
        invariant
            i <= LINE_PIXELS,
            n == fb@.len(),
            fb@.len() == old(fb)@.len(),
            line_pixel(width as int, LINE_PIXELS - 1) < fb@.len(),
            forall|p: int|
                0 <= p < fb@.len() ==> #[trigger] fb@[p] == (if on_line(
                    width as int,
                    i as int,
                    p,
                ) {
                    WHITE
                } else {
                    old(fb)@[p]
                }),
        decreases LINE_PIXELS - i,
    {
        proof {
            assert(i * width <= 99 * width) by (nonlinear_arith)
                requires
                    0 <= i <= 99,
                    0 <= width,
            ;
        }
        let ghost before = fb@;
        let pixel: usize = i * width + i;
        fb[pixel] = WHITE;
        proof {
            assert forall|p: int| 0 <= p < fb@.len() implies #[trigger] fb@[p] == (if on_line(
                width as int,
                i + 1,
                p,
            ) {
                WHITE
            } else {
                old(fb)@[p]
            }) by {
                if on_line(width as int, i + 1, p) && p != pixel {
                    let j = choose|j: int|
                        0 <= j < i + 1 && p == #[trigger] line_pixel(width as int, j);
                    assert(j != i);
                    assert(on_line(width as int, i as int, p));
                }
                if on_line(width as int, i as int, p) {
                    let j = choose|j: int|
                        0 <= j < i && p == #[trigger] line_pixel(width as int, j);
                    assert(0 <= j < i + 1);
                }
                assert(line_pixel(width as int, i as int) == pixel);
                assert(before[p] == fb@[p] || p == pixel);
            }
        }
        i = i + 1;
    }
    proof {
        assert forall|i: int| 0 <= i < 100 implies #[trigger] fb@[i * width + i] == 0xFFFF_FFFF by {
            assert(0 <= i * width <= 99 * width) by (nonlinear_arith)
                requires
                    0 <= i <= 99,
                    0 <= width,
            ;
            assert(i * width + i == line_pixel(width as int, i));
            assert(on_line(width as int, 100, i * width + i));
        }
    }
}

} // verus!
