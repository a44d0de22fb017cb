//! The zigzag route that sweeps the game window while the magnet cloud is up.
use vstd::prelude::*;

verus! {

/// One pointer move of the sweep, to screen position `(x, y)`.
#[derive(Clone, Copy, Debug, PartialEq, Eq, Structural)]
pub enum CloudMove {
    /// A smooth, human-like move.
    Glide(i64, i64),
    /// A direct jump.
    Jump(i64, i64),
}

/// The rows of the sweep from height `y` on: right along the row, a step down, left back,
/// and a second step down while that stays above `bottom`; rows start while `y` is above
/// `stop`.
pub open spec fn sweep(y: int, step: int, left: int, right: int, stop: int, bottom: int) -> Seq<CloudMove>
    decreases if y < stop { stop - y } else { 0 },
{
    if step > 0 && y < stop {
        let y2 = y + step;
        let row = seq![CloudMove::Glide(right as i64, y as i64), CloudMove::Jump(right as i64, y2 as i64), CloudMove::Glide(left as i64, y2 as i64)];
        if y2 < bottom {
            row + seq![CloudMove::Jump(left as i64, (y2 + step) as i64)] + sweep(y2 + step, step, left, right, stop, bottom)
        } else {
            row + sweep(y2, step, left, right, stop, bottom)
        }
    } else {
        Seq::empty()
    }
}

/// The whole route for a window at `(x, y)` of `width` by `height`, keeping `margin`
/// pixels of jitter room from its sides: a glide to the top-left start (where the button
/// goes down), then the sweep rows, one eleventh of the height apart (truncated), from 50 pixels below
/// the top to 80 above the bottom.
pub open spec fn cloud_route_of(x: int, y: int, width: int, height: int, margin: int) -> Seq<CloudMove> {
    let step = if height >= 0 { height / 11 } else { -((-height) / 11) };
    let start = y + 50 + step;
    let left = x + (4 + margin);
    let right = x + width - (4 + margin);
    seq![CloudMove::Glide(left as i64, start as i64)] + sweep(
        start,
        step,
        left,
        right,
        y + height - 80 - step,
        y + height - step,
    )
}

/// The sweep route over a window; its first move leads to the point where the mouse
/// button is pressed, and the button is released after the last.
pub fn cloud_route(window_x: i32, window_y: i32, window_width: i32, window_height: i32, max_x_offset: i32) -> (r: Vec<CloudMove>)
    ensures
        r@ == cloud_route_of(window_x as int, window_y as int, window_width as int, window_height as int, max_x_offset as int),
{
    let step: i64 = window_height as i64 / 11;
    let mut cy: i64 = window_y as i64 + 50 + step;
    let left: i64 = window_x as i64 + (4 + max_x_offset as i64);
    let right: i64 = window_x as i64 + window_width as i64 - (4 + max_x_offset as i64);
    let stop: i64 = window_y as i64 + window_height as i64 - 80 - step;
    let bottom: i64 = window_y as i64 + window_height as i64 - step;
    let mut route: Vec<CloudMove> = Vec::new();
    route.push(CloudMove::Glide(left, cy));
    let ghost whole = cloud_route_of(window_x as int, window_y as int, window_width as int, window_height as int, max_x_offset as int);
    assert(whole == route@ + sweep(cy as int, step as int, left as int, right as int, stop as int, bottom as int));
    while step > 0 && cy < stop
        invariant
            -0x1000_0000 <= step <= 0x1000_0000,
            -0x4_0000_0000 <= left <= 0x4_0000_0000,
            -0x4_0000_0000 <= right <= 0x4_0000_0000,
            -0x4_0000_0000 <= stop <= 0x4_0000_0000,
            -0x4_0000_0000 <= bottom <= 0x4_0000_0000,
            -0x4_0000_0000 <= cy <= 0x8_0000_0000,
            whole == route@ + sweep(cy as int, step as int, left as int, right as int, stop as int, bottom as int),
        decreases if cy < stop { stop - cy } else { 0 },
    {
        let ghost before = route@;
        let ghost rest = sweep(cy as int, step as int, left as int, right as int, stop as int, bottom as int);
        route.push(CloudMove::Glide(right, cy));
        let y2 = cy + step;
        route.push(CloudMove::Jump(right, y2));
        route.push(CloudMove::Glide(left, y2));
        if y2 < bottom {
            route.push(CloudMove::Jump(left, y2 + step));
            cy = y2 + step;
        } else {
            cy = y2;
        }
        assert(before + rest =~= route@ + sweep(cy as int, step as int, left as int, right as int, stop as int, bottom as int));
    }
    route
}

} // verus!
