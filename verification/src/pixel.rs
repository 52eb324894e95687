//! The label of one pixel.
use vstd::prelude::*;

verus! {

/// The sum of the three samples below which a pixel counts as an obstacle:
/// half of the largest sum, `3 * 255`, rounded up.
pub const OBSTACLE_THRESHOLD: u16 = 384;

/// Pixel `x` of the scanline `line` is an obstacle: its red, green and blue
/// samples add up to less than the threshold.
pub open spec fn pixel_is_obstacle(line: Seq<u8>, x: int) -> bool {
    line[3 * x] + line[3 * x + 1] + line[3 * x + 2] < 384
}

/// Says whether pixel `x` of `line` is an obstacle.
pub fn is_obstacle_rgb(line: &Vec<u8>, x: usize) -> (obstacle: bool)
    requires
        3 * x + 2 < line.len(),
    ensures
        obstacle == pixel_is_obstacle(line@, x as int),
{
    let red: u16 = line[3 * x] as u16;
    let green: u16 = line[3 * x + 1] as u16;
    let blue: u16 = line[3 * x + 2] as u16;
    red + green + blue < OBSTACLE_THRESHOLD
}

} // verus!
