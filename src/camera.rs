use vstd::prelude::*;

verus! {

/// The camera ray through the pixel in column `i`, row `j` of a `width` by
/// `height` image, before it is scaled to unit length: its offset from the
/// image centre (half the size, rounded down) and the focal length as depth.
pub fn pixel_direction(i: u32, j: u32, width: u32, height: u32, focal_length: u32) -> (r: (
    i64,
    i64,
    i64,
))
    ensures
        r.0 == i - width / 2,
        r.1 == j - height / 2,
        r.2 == focal_length,
{
    (i as i64 - (width / 2) as i64, j as i64 - (height / 2) as i64, focal_length as i64)
}

} // verus!
