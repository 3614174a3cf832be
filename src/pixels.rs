use vstd::prelude::*;

use crate::kernel::{grid, is_rect};

verus! {

/// Columns of a grid whose rows all share the first row's width.
pub open spec fn width_of<T>(g: Seq<Seq<T>>) -> nat {
    if g.len() == 0 {
        0
    } else {
        g[0].len()
    }
}

/// The four bytes of pixel number `k` in a packed RGBA buffer.
pub open spec fn rgba_at(bytes: Seq<u8>, k: int) -> (u8, u8, u8, u8) {
    (bytes[4 * k], bytes[4 * k + 1], bytes[4 * k + 2], bytes[4 * k + 3])
}

/// Packs a grid of 8-bit colours into an RGBA buffer, rows top to bottom,
/// each pixel as its red, green and blue bytes followed by an opaque alpha.
pub fn to_pixel_map(colors: &Vec<Vec<(u8, u8, u8)>>) -> (r: Vec<u8>)
    requires
        is_rect(grid(colors)),
    ensures
        r@.len() == 4 * (grid(colors).len() * width_of(grid(colors))),
        forall|y: int, x: int|
            0 <= y < grid(colors).len() && 0 <= x < width_of(grid(colors)) ==> {
                let c = #[trigger] grid(colors)[y][x];
                rgba_at(r@, y * width_of(grid(colors)) + x) == (c.0, c.1, c.2, 255u8)
            },
{
    let g = Ghost(grid(colors));
    let w = Ghost(width_of(g@));
    let mut out: Vec<u8> = Vec::new();
    let mut y: usize = 0;
    while y < colors.len()
        invariant
            g@ == grid(colors),
            w@ == width_of(g@),
            is_rect(g@),
            y <= g@.len(),
            out@.len() == 4 * (y * w@),
            forall|yy: int, x: int|
                0 <= yy < y && 0 <= x < w@ ==> {
                    let c = #[trigger] g@[yy][x];
                    rgba_at(out@, yy * w@ + x) == (c.0, c.1, c.2, 255u8)
                },
        decreases g@.len() - y,
    {
        let row = &colors[y];
        assert(row@ == g@[y as int]);
        let mut x: usize = 0;
        while x < row.len()
            invariant
                g@ == grid(colors),
                w@ == width_of(g@),
                is_rect(g@),
                y < g@.len(),
                row@ == g@[y as int],
                row@.len() == w@,
                x <= w@,
                out@.len() == 4 * (y * w@ + x),
                forall|yy: int, xx: int|
                    0 <= yy < y && 0 <= xx < w@ ==> {
                        let c = #[trigger] g@[yy][xx];
                        rgba_at(out@, yy * w@ + xx) == (c.0, c.1, c.2, 255u8)
                    },
                forall|xx: int|
                    0 <= xx < x ==> {
                        let c = #[trigger] g@[y as int][xx];
                        rgba_at(out@, y * w@ + xx) == (c.0, c.1, c.2, 255u8)
                    },
            decreases w@ - x,
        {
            let c = row[x];
            let ghost before = out@;
            out.push(c.0);
            out.push(c.1);
            out.push(c.2);
            out.push(255u8);
            proof {
                assert forall|yy: int, xx: int|
                    0 <= yy < y && 0 <= xx < w@ implies {
                        let c = #[trigger] g@[yy][xx];
                        rgba_at(out@, yy * w@ + xx) == (c.0, c.1, c.2, 255u8)
                    } by {
                    assert(yy * w@ + xx < y * w@) by (nonlinear_arith)
                        requires
                            yy < y,
                            xx < w@,
                    ;
                    assert(rgba_at(out@, yy * w@ + xx) == rgba_at(before, yy * w@ + xx));
                }
                assert forall|xx: int| 0 <= xx <= x implies {
                    let c = #[trigger] g@[y as int][xx];
                    rgba_at(out@, y * w@ + xx) == (c.0, c.1, c.2, 255u8)
                } by {
                    if xx < x {
                        assert(rgba_at(out@, y * w@ + xx) == rgba_at(before, y * w@ + xx));
                    }
                }
            }
            x = x + 1;
        }
        proof {
            assert(y * w@ + w@ == (y + 1) * w@) by (nonlinear_arith);
        }
        y = y + 1;
    }
    out
}

} // verus!
