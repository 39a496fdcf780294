use rand::Rng;
use vstd::prelude::*;

use crate::grid::in_grid;

verus! {

/// Relies on rand's `thread_rng().gen_range(0..bound)`: a number in
/// `0..bound`; it panics only on an empty range.
#[verifier::external_body]
fn random_below(bound: usize) -> (r: usize)
    requires
        bound > 0,
    ensures
        r < bound,
{
    rand::thread_rng().gen_range(0..bound)
}

/// The cells are distinct, on an `n` by `n` grid, and none is `excluded`.
pub open spec fn distinct_cells(n: int, cells: Seq<(usize, usize)>, excluded: Option<(usize, usize)>) -> bool {
    &&& forall|k: int| 0 <= k < cells.len() ==> in_grid(n, #[trigger] cells[k].0 as int, cells[k].1 as int)
    &&& forall|j: int, k: int| 0 <= j < k < cells.len() ==> #[trigger] cells[j] != #[trigger] cells[k]
    &&& forall|k: int| 0 <= k < cells.len() ==> excluded != Some(#[trigger] cells[k])
}

/// Every cell of the grid but `excluded`, row by row.
fn all_cells(n: usize, excluded: Option<(usize, usize)>) -> (r: Vec<(usize, usize)>)
    requires
        n * n <= usize::MAX,
        excluded matches Some(e) ==> in_grid(n as int, e.0 as int, e.1 as int),
    ensures
        distinct_cells(n as int, r@, excluded),
        r@.len() == n * n - if excluded is Some {
            1int
        } else {
            0
        },
{
    let mut r: Vec<(usize, usize)> = Vec::new();
    let mut x: usize = 0;
    while x < n
        invariant
            x <= n,
            n * n <= usize::MAX,
            excluded matches Some(e) ==> in_grid(n as int, e.0 as int, e.1 as int),
            distinct_cells(n as int, r@, excluded),
            forall|k: int| 0 <= k < r@.len() ==> (#[trigger] r@[k]).0 < x,
            r@.len() == x * n - if excluded matches Some(e) && e.0 < x {
                1int
            } else {
                0
            },
        decreases n - x,
    {
        let mut y: usize = 0;
        let ghost before = r@.len();
        while y < n
            invariant
                x < n,
                y <= n,
                n * n <= usize::MAX,
                excluded matches Some(e) ==> in_grid(n as int, e.0 as int, e.1 as int),
                distinct_cells(n as int, r@, excluded),
                forall|k: int| 0 <= k < r@.len() ==> (#[trigger] r@[k]).0 < x || (r@[k].0 == x && r@[k].1 < y),
                r@.len() == before + y - if excluded matches Some(e) && e.0 == x && e.1 < y {
                    1int
                } else {
                    0
                },
                before == x * n - if excluded matches Some(e) && e.0 < x {
                    1int
                } else {
                    0
                },
            decreases n - y,
        {
            if excluded != Some((x, y)) {
                r.push((x, y));
            }
            y = y + 1;
        }
        assert(x * n + n == (x + 1) * n) by (nonlinear_arith);
        x = x + 1;
    }
    r
}

/// `count` distinct cells drawn at random from the grid, never `excluded`.
pub(crate) fn pick_cells(n: usize, count: usize, excluded: Option<(usize, usize)>) -> (r: Vec<(usize, usize)>)
    requires
        n * n <= usize::MAX,
        excluded matches Some(e) ==> in_grid(n as int, e.0 as int, e.1 as int),
        count + (if excluded is Some {
            1int
        } else {
            0
        }) <= n * n,
    ensures
        r@.len() == count,
        distinct_cells(n as int, r@, excluded),
{
    let mut cells = all_cells(n, excluded);
    let mut i: usize = 0;
    while i < count
        invariant
            i <= count,
            count <= cells@.len(),
            distinct_cells(n as int, cells@, excluded),
        decreases count - i,
    {
        let j = i + random_below(cells.len() - i);
        let a = cells[i];
        let b = cells[j];
        cells.set(i, b);
        cells.set(j, a);
        i = i + 1;
    }
    let mut r: Vec<(usize, usize)> = Vec::new();
    let mut k: usize = 0;
    while k < count
        invariant
            k <= count,
            count <= cells@.len(),
            distinct_cells(n as int, cells@, excluded),
            r@ == cells@.take(k as int),
        decreases count - k,
    {
        r.push(cells[k]);
        k = k + 1;
        assert(r@ =~= cells@.take(k as int));
    }
    r
}

} // verus!
