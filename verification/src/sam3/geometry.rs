//! Where a bilinear sample reads its map.
use vstd::prelude::*;

verus! {

/// The two lines of a map that a sample reads along one axis.
#[derive(Clone, Copy, Debug, PartialEq, Eq, Structural)]
pub struct Corners {
    pub low: i32,
    pub high: i32,
    /// The sample lies on the last line: it reads that line alone.
    pub at_edge: bool,
}

/// The lines around a sample whose coordinate has the integer part `whole`: the line and the next
/// one, or the last line twice.
pub open spec fn corners_of(whole: int, size: int) -> (int, int) {
    if whole >= size - 1 {
        (size - 1, size - 1)
    } else {
        (whole, whole + 1)
    }
}

/// The lines around a sample along one axis.
pub fn corners(whole: i32, size: i32) -> (r: Corners)
    requires
        0 < size,
        0 <= whole,
    ensures
        (r.low as int, r.high as int) == corners_of(whole as int, size as int),
        r.at_edge == (whole >= size - 1),
        0 <= r.low <= r.high < size,
{
    if whole >= size - 1 {
        Corners { low: size - 1, high: size - 1, at_edge: true }
    } else {
        Corners { low: whole, high: whole + 1, at_edge: false }
    }
}

/// The four places of a map that a sample reads, row by row.
pub fn corner_places(y: Corners, x: Corners, height: i32, width: i32) -> (r: [usize; 4])
    requires
        0 <= y.low <= y.high < height,
        0 <= x.low <= x.high < width,
        height * width <= i32::MAX,
    ensures
        r@ == seq![
            (y.low * width + x.low) as usize,
            (y.low * width + x.high) as usize,
            (y.high * width + x.low) as usize,
            (y.high * width + x.high) as usize,
        ],
        forall|i: int| 0 <= i < 4 ==> #[trigger] r@[i] < height * width,
{
    assert(0 <= y.low * width && y.low * width + width <= height * width && 0 <= y.high * width
        && y.high * width + width <= height * width) by (nonlinear_arith)
        requires
            0 <= y.low,
            y.low + 1 <= height,
            0 <= y.high,
            y.high + 1 <= height,
            0 <= width,
    ;
    let r: [usize; 4] = [
        (y.low * width + x.low) as usize,
        (y.low * width + x.high) as usize,
        (y.high * width + x.low) as usize,
        (y.high * width + x.high) as usize,
    ];
    assert(r@ =~= seq![
        (y.low * width + x.low) as usize,
        (y.low * width + x.high) as usize,
        (y.high * width + x.low) as usize,
        (y.high * width + x.high) as usize,
    ]);
    r
}

/// A place is sampled between its own cell and the next; at the last cell and beyond, from the last
/// cell alone.
pub proof fn samples_stay_on_the_grid(whole: int, size: int)
    requires
        0 < size,
        0 <= whole,
    ensures
        whole + 1 < size ==> corners_of(whole, size) == (whole, whole + 1),
        whole + 1 >= size ==> corners_of(whole, size) == (size - 1, size - 1),
{
}

} // verus!
