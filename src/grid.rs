use vstd::prelude::*;

verus! {

/// One cell of the grid.
#[derive(Clone, Copy, Debug, PartialEq, Eq, Structural)]
pub struct Tile {
    pub is_mine: bool,
    pub adjacent: u8,
    pub exposed: bool,
    pub flagged: bool,
}

pub open spec fn in_grid(n: int, x: int, y: int) -> bool {
    0 <= x < n && 0 <= y < n
}

pub open spec fn cell(n: int, x: int, y: int) -> int {
    x * n + y
}

pub open spec fn at(tiles: Seq<Tile>, n: int, x: int, y: int) -> Tile {
    tiles[cell(n, x, y)]
}

/// `(c, d)` is one of the up to eight cells around `(a, b)`.
pub open spec fn is_neighbor(a: int, b: int, c: int, d: int) -> bool {
    -1 <= a - c <= 1 && -1 <= b - d <= 1 && !(a == c && b == d)
}

pub open spec fn mine_at(tiles: Seq<Tile>, n: int, x: int, y: int) -> nat {
    if in_grid(n, x, y) && at(tiles, n, x, y).is_mine {
        1
    } else {
        0
    }
}

/// The number of mines among the neighbors of `(x, y)` that lie on the grid.
pub open spec fn mines_around(tiles: Seq<Tile>, n: int, x: int, y: int) -> nat {
    mine_at(tiles, n, x - 1, y - 1) + mine_at(tiles, n, x - 1, y) + mine_at(tiles, n, x - 1, y + 1)
        + mine_at(tiles, n, x, y - 1) + mine_at(tiles, n, x, y + 1) + mine_at(
        tiles,
        n,
        x + 1,
        y - 1,
    ) + mine_at(tiles, n, x + 1, y) + mine_at(tiles, n, x + 1, y + 1)
}

/// Every tile's count is the true number of mines around it.
pub open spec fn counts_correct(tiles: Seq<Tile>, n: int) -> bool {
    forall|x: int, y: int|
        in_grid(n, x, y) ==> #[trigger] at(tiles, n, x, y).adjacent == mines_around(tiles, n, x, y)
}

pub open spec fn count_mines(s: Seq<Tile>) -> nat
    decreases s.len(),
{
    if s.len() == 0 {
        0
    } else {
        count_mines(s.drop_last()) + if s.last().is_mine {
            1nat
        } else {
            0nat
        }
    }
}

pub open spec fn count_hidden(s: Seq<Tile>) -> nat
    decreases s.len(),
{
    if s.len() == 0 {
        0
    } else {
        count_hidden(s.drop_last()) + if s.last().exposed {
            0nat
        } else {
            1nat
        }
    }
}

/// Every tile without a mine is exposed.
pub open spec fn all_safe_exposed(s: Seq<Tile>) -> bool {
    forall|i: int| 0 <= i < s.len() && !(#[trigger] s[i]).is_mine ==> s[i].exposed
}

/// The two grids have the same mines and counts.
pub open spec fn same_layout(a: Seq<Tile>, b: Seq<Tile>) -> bool {
    &&& a.len() == b.len()
    &&& forall|i: int|
        0 <= i < a.len() ==> (#[trigger] a[i]).is_mine == b[i].is_mine && a[i].adjacent
            == b[i].adjacent
}

pub proof fn lemma_cell_bounds(n: int, x: int, y: int)
    requires
        in_grid(n, x, y),
    ensures
        0 <= cell(n, x, y) < n * n,
{
    assert(0 <= x * n + y < n * n) by (nonlinear_arith)
        requires
            0 <= x < n,
            0 <= y < n,
    ;
}

pub proof fn lemma_cells(n: int)
    ensures
        forall|x: int, y: int| in_grid(n, x, y) ==> 0 <= #[trigger] cell(n, x, y) < n * n,
        forall|x: int, y: int, u: int, v: int|
            in_grid(n, x, y) && in_grid(n, u, v) && #[trigger] cell(n, x, y) == #[trigger] cell(
                n,
                u,
                v,
            ) ==> x == u && y == v,
{
    assert forall|x: int, y: int| in_grid(n, x, y) implies 0 <= #[trigger] cell(n, x, y) < n
        * n by {
        lemma_cell_bounds(n, x, y);
    }
    assert forall|x: int, y: int, u: int, v: int|
        in_grid(n, x, y) && in_grid(n, u, v) && #[trigger] cell(n, x, y) == #[trigger] cell(
            n,
            u,
            v,
        ) implies x == u && y == v by {
        lemma_cell_injective(n, x, y, u, v);
    }
}

pub(crate) proof fn lemma_cell_injective(n: int, x: int, y: int, u: int, v: int)
    requires
        in_grid(n, x, y),
        in_grid(n, u, v),
        x * n + y == u * n + v,
    ensures
        x == u && y == v,
{
    if x < u {
        assert(x * n + y < u * n + v) by (nonlinear_arith)
            requires
                x < u,
                0 <= y < n,
                0 <= v,
        ;
    } else if u < x {
        assert(u * n + v < x * n + y) by (nonlinear_arith)
            requires
                u < x,
                0 <= v < n,
                0 <= y,
        ;
    }
}

/// Replacing one tile changes the mine count by what that tile changed.
pub proof fn lemma_count_update(s: Seq<Tile>, i: int, t: Tile)
    requires
        0 <= i < s.len(),
    ensures
        count_mines(s.update(i, t)) as int == count_mines(s) as int - (if s[i].is_mine {
            1int
        } else {
            0
        }) + (if t.is_mine {
            1int
        } else {
            0
        }),
        count_hidden(s.update(i, t)) as int == count_hidden(s) as int - (if s[i].exposed {
            0int
        } else {
            1
        }) + (if t.exposed {
            0int
        } else {
            1
        }),
    decreases s.len(),
{
    let u = s.update(i, t);
    if i == s.len() - 1 {
        assert(u.drop_last() =~= s.drop_last());
    } else {
        assert(u.drop_last() =~= s.drop_last().update(i, t));
        lemma_count_update(s.drop_last(), i, t);
    }
}

/// A grid with no mine in it.
pub proof fn lemma_count_empty(s: Seq<Tile>)
    requires
        forall|i: int| 0 <= i < s.len() ==> !(#[trigger] s[i]).is_mine,
    ensures
        count_mines(s) == 0,
    decreases s.len(),
{
    if s.len() > 0 {
        lemma_count_empty(s.drop_last());
    }
}

/// Grids with the same mines have the same counts around every cell.
pub proof fn lemma_same_mines(a: Seq<Tile>, b: Seq<Tile>, n: int)
    requires
        a.len() == n * n,
        b.len() == n * n,
        forall|i: int| 0 <= i < a.len() ==> (#[trigger] a[i]).is_mine == b[i].is_mine,
    ensures
        forall|x: int, y: int| #[trigger] mines_around(a, n, x, y) == mines_around(b, n, x, y),
{
    lemma_cells(n);
}

/// A grid whose tiles keep their mines and counts keeps correct counts.
pub proof fn lemma_same_layout(a: Seq<Tile>, b: Seq<Tile>, n: int)
    requires
        a.len() == n * n,
        same_layout(a, b),
        counts_correct(a, n),
    ensures
        counts_correct(b, n),
{
    lemma_cells(n);
    lemma_same_mines(a, b, n);
    assert forall|x: int, y: int| in_grid(n, x, y) implies #[trigger] at(b, n, x, y).adjacent
        == mines_around(b, n, x, y) by {
        assert(at(a, n, x, y).adjacent == mines_around(a, n, x, y));
    }
}

pub(crate) proof fn lemma_small_side(n: int, x: int)
    requires
        0 <= x < n,
        n * n <= usize::MAX,
    ensures
        x + 2 <= usize::MAX,
{
    if n >= 2 {
        assert(n * n >= 2 * n) by (nonlinear_arith)
            requires
                n >= 2,
        ;
    }
}

/// 1 where the cell at offset `(dx - 1, dy - 1)` from `(x, y)` holds a mine.
pub(crate) fn mine_value(tiles: &Vec<Tile>, n: usize, x: usize, y: usize, dx: usize, dy: usize) -> (r: u8)
    requires
        tiles@.len() == n * n,
        n * n <= usize::MAX,
        x < n,
        y < n,
        dx <= 2,
        dy <= 2,
    ensures
        r as int == mine_at(tiles@, n as int, x + dx - 1, y + dy - 1),
{
    if (x == 0 && dx == 0) || (y == 0 && dy == 0) {
        return 0;
    }
    proof {
        lemma_small_side(n as int, x as int);
        lemma_small_side(n as int, y as int);
    }
    let a = x + dx - 1;
    let b = y + dy - 1;
    if a >= n || b >= n {
        return 0;
    }
    proof {
        lemma_cell_bounds(n as int, a as int, b as int);
    }
    if tiles[a * n + b].is_mine {
        1
    } else {
        0
    }
}

/// The number of mines around `(x, y)`.
pub(crate) fn mines_near(tiles: &Vec<Tile>, n: usize, x: usize, y: usize) -> (r: u8)
    requires
        tiles@.len() == n * n,
        n * n <= usize::MAX,
        x < n,
        y < n,
    ensures
        r as int == mines_around(tiles@, n as int, x as int, y as int),
{
    mine_value(tiles, n, x, y, 0, 0) + mine_value(tiles, n, x, y, 0, 1) + mine_value(tiles, n, x, y, 0, 2)
        + mine_value(tiles, n, x, y, 1, 0) + mine_value(tiles, n, x, y, 1, 2) + mine_value(
        tiles,
        n,
        x,
        y,
        2,
        0,
    ) + mine_value(tiles, n, x, y, 2, 1) + mine_value(tiles, n, x, y, 2, 2)
}

/// Sets every tile's count from the mines on the grid.
pub(crate) fn fill_counts(tiles: &mut Vec<Tile>, n: usize)
    requires
        old(tiles)@.len() == n * n,
        n * n <= usize::MAX,
    ensures
        final(tiles)@.len() == n * n,
        counts_correct(final(tiles)@, n as int),
        count_mines(final(tiles)@) == count_mines(old(tiles)@),
        forall|i: int|
            0 <= i < n * n ==> (#[trigger] final(tiles)@[i]).is_mine == old(tiles)@[i].is_mine
                && final(tiles)@[i].exposed == old(tiles)@[i].exposed && final(tiles)@[i].flagged
                == old(tiles)@[i].flagged,
{
    let ghost mined = tiles@;
    proof {
        lemma_cells(n as int);
    }
    let mut x: usize = 0;
    while x < n
        invariant
            x <= n,
            n * n <= usize::MAX,
            mined.len() == n * n,
            tiles@.len() == n * n,
            count_mines(tiles@) == count_mines(mined),
            forall|i: int|
                0 <= i < n * n ==> (#[trigger] tiles@[i]).is_mine == mined[i].is_mine
                    && tiles@[i].exposed == mined[i].exposed && tiles@[i].flagged
                    == mined[i].flagged,
            forall|a: int, b: int|
                in_grid(n as int, a, b) && a < x ==> #[trigger] at(tiles@, n as int, a, b).adjacent
                    == mines_around(mined, n as int, a, b),
            forall|x: int, y: int| in_grid(n as int, x, y) ==> 0 <= #[trigger] cell(n as int, x, y) < n * n,
            forall|x: int, y: int, u: int, v: int|
                in_grid(n as int, x, y) && in_grid(n as int, u, v) && #[trigger] cell(n as int, x, y)
                    == #[trigger] cell(n as int, u, v) ==> x == u && y == v,
        decreases n - x,
    {
        let mut y: usize = 0;
        while y < n
            invariant
                x < n,
                y <= n,
                n * n <= usize::MAX,
                mined.len() == n * n,
                tiles@.len() == n * n,
                count_mines(tiles@) == count_mines(mined),
                forall|i: int|
                    0 <= i < n * n ==> (#[trigger] tiles@[i]).is_mine == mined[i].is_mine
                        && tiles@[i].exposed == mined[i].exposed && tiles@[i].flagged
                        == mined[i].flagged,
                forall|a: int, b: int|
                    in_grid(n as int, a, b) && (a < x || (a == x && b < y)) ==> #[trigger] at(
                        tiles@,
                        n as int,
                        a,
                        b,
                    ).adjacent == mines_around(mined, n as int, a, b),
                forall|x: int, y: int| in_grid(n as int, x, y) ==> 0 <= #[trigger] cell(n as int, x, y) < n * n,
                forall|x: int, y: int, u: int, v: int|
                    in_grid(n as int, x, y) && in_grid(n as int, u, v) && #[trigger] cell(n as int, x, y)
                        == #[trigger] cell(n as int, u, v) ==> x == u && y == v,
            decreases n - y,
        {
            proof {
                lemma_cell_bounds(n as int, x as int, y as int);
                lemma_same_mines(tiles@, mined, n as int);
            }
            let c = mines_near(tiles, n, x, y);
            let i = x * n + y;
            let t = tiles[i];
            let ghost prev = tiles@;
            proof {
                lemma_count_update(tiles@, i as int, Tile { adjacent: c, ..t });
            }
            tiles.set(i, Tile { adjacent: c, ..t });
            proof {
                assert(cell(n as int, x as int, y as int) == i);
                assert forall|a: int, b: int|
                    in_grid(n as int, a, b) && (a < x || (a == x && b <= y)) implies #[trigger] at(
                        tiles@,
                        n as int,
                        a,
                        b,
                    ).adjacent == mines_around(mined, n as int, a, b) by {
                    if a != x || b != y {
                        assert(cell(n as int, a, b) != cell(n as int, x as int, y as int));
                        assert(at(prev, n as int, a, b) == at(tiles@, n as int, a, b));
                    }
                }
            }
            y = y + 1;
        }
        x = x + 1;
    }
    proof {
        lemma_same_mines(tiles@, mined, n as int);
        assert forall|a: int, b: int| in_grid(n as int, a, b) implies #[trigger] at(
            tiles@,
            n as int,
            a,
            b,
        ).adjacent == mines_around(tiles@, n as int, a, b) by {}
    }
}

} // verus!
