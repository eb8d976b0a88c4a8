//! Random seeding of a rectangular area with living cells.

use crate::cellule::CellPosition;
use rand::Rng;
use vstd::prelude::*;

verus! {

/// Relies on `rand::Rng::random_range` over `0..n` on the thread-local
/// generator: a uniform draw below `n`. The call panics on an empty
/// range, which the precondition rules out; nothing more is promised
/// of a random value.
#[verifier::external_body]
fn random_below(n: u32) -> (r: u32)
    requires
        n > 0,
    ensures
        r < n,
{
    rand::rng().random_range(0..n)
}

/// Column-major-free reading order of the generator: positions come
/// out ordered by x first, then by y.
pub open spec fn scan_order_less(a: CellPosition, b: CellPosition) -> bool {
    a.x < b.x || (a.x == b.x && a.y < b.y)
}

/// Generates random cells in a rectangular area: each position of the
/// `width` by `height` rectangle anchored at `(x, y)` is filled with
/// probability two in ten. The result stays inside the rectangle,
/// holds no position twice, and comes in scan order: column by
/// column, each column top to bottom.
pub fn generate_random_cells(x: isize, y: isize, width: usize, height: usize) -> (cells: Vec<
    CellPosition,
>)
    requires
        width <= isize::MAX,
        height <= isize::MAX,
        x + width <= isize::MAX,
        y + height <= isize::MAX,
    ensures
        forall|l: int|
            0 <= l < cells@.len() ==> x <= #[trigger] cells@[l].x < x + width && y <= cells@[l].y
                < y + height,
        forall|l1: int, l2: int|
            0 <= l1 < l2 < cells@.len() ==> scan_order_less(cells@[l1], cells@[l2]),
        cells@.no_duplicates(),
{
    let mut cells: Vec<CellPosition> = Vec::new();
    let mut i: usize = 0;
    while i < width
        invariant
            i <= width,
            width <= isize::MAX,
            height <= isize::MAX,
            x + width <= isize::MAX,
            y + height <= isize::MAX,
            forall|l: int|
                0 <= l < cells@.len() ==> x <= #[trigger] cells@[l].x < x + i && y <= cells@[l].y
                    < y + height,
            forall|l1: int, l2: int|
                0 <= l1 < l2 < cells@.len() ==> scan_order_less(cells@[l1], cells@[l2]),
            cells@.no_duplicates(),
        decreases width - i,
    {
        let coord_x = x + (i as isize);
        let mut j: usize = 0;
        while j < height
            invariant
                j <= height,
                i < width,
                coord_x == x + i,
                width <= isize::MAX,
                height <= isize::MAX,
                x + width <= isize::MAX,
                y + height <= isize::MAX,
                forall|l: int|
                    0 <= l < cells@.len() ==> x <= #[trigger] cells@[l].x <= x + i && y
                        <= cells@[l].y < y + height,
                forall|l: int|
                    0 <= l < cells@.len() && #[trigger] cells@[l].x == x + i ==> cells@[l].y < y
                        + j,
                forall|l1: int, l2: int|
                    0 <= l1 < l2 < cells@.len() ==> scan_order_less(cells@[l1], cells@[l2]),
                cells@.no_duplicates(),
            decreases height - j,
        {
            let coord_y = y + (j as isize);
            if random_below(10) > 7 {
                let ghost before = cells@;
                cells.push(CellPosition { x: coord_x, y: coord_y });
                proof {
                    assert(forall|l: int| 0 <= l < before.len() ==> cells@[l] == before[l]);
                    assert(cells@[cells@.len() - 1] == CellPosition { x: coord_x, y: coord_y });
                    assert forall|l1: int, l2: int|
                        0 <= l1 < l2 < cells@.len() implies scan_order_less(
                        cells@[l1],
                        cells@[l2],
                    ) by {
                        if l2 == cells@.len() - 1 {
                            assert(x <= before[l1].x <= x + i);
                            if before[l1].x == x + i {
                                assert(before[l1].y < y + j);
                            }
                        }
                    };
                    assert forall|l1: int, l2: int|
                        0 <= l1 < l2 < cells@.len() implies cells@[l1] != cells@[l2] by {
                        assert(scan_order_less(cells@[l1], cells@[l2]));
                    };
                }
            }
            j = j + 1;
        }
        i = i + 1;
    }
    cells
}

} // verus!
