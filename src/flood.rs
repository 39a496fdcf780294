use vstd::prelude::*;

use crate::grid::{
    at, cell, count_hidden, count_mines, counts_correct, in_grid, is_neighbor, lemma_cell_bounds,
    lemma_cell_injective, lemma_count_update, lemma_same_layout, lemma_small_side, mines_around,
    all_safe_exposed,
    mine_at, same_layout, Tile,
};

verus! {

/// `(a, b)` was hidden in `before` and is exposed in `after`.
pub open spec fn newly(before: Seq<Tile>, after: Seq<Tile>, n: int, a: int, b: int) -> bool {
    at(after, n, a, b).exposed && !at(before, n, a, b).exposed
}

/// Every neighbor of `(a, b)` on the grid is exposed unless it is flagged.
pub open spec fn closed(tiles: Seq<Tile>, n: int, a: int, b: int) -> bool {
    forall|c: int, d: int|
        in_grid(n, c, d) && is_neighbor(a, b, c, d) && !(#[trigger] at(tiles, n, c, d)).flagged
            ==> at(tiles, n, c, d).exposed
}

/// `after` keeps the layout and flags of `before`, keeps its exposed tiles,
/// and exposes no mine and no flagged tile that `before` hid.
pub open spec fn exposes_safely(before: Seq<Tile>, after: Seq<Tile>) -> bool {
    &&& same_layout(before, after)
    &&& forall|i: int|
        0 <= i < before.len() ==> (#[trigger] after[i]).flagged == before[i].flagged && (
        before[i].exposed ==> after[i].exposed) && (after[i].exposed && !before[i].exposed
            ==> !after[i].is_mine && !after[i].flagged)
}

/// With each tile in `s` that has no mine around it, `s` holds every
/// neighbor that was hidden and unflagged in `before`.
pub open spec fn spreads(before: Seq<Tile>, n: int, s: Set<(int, int)>) -> bool {
    forall|a: int, b: int, c: int, d: int|
        #[trigger] s.contains((a, b)) && in_grid(n, a, b) && at(before, n, a, b).adjacent == 0 && in_grid(n, c, d)
            && is_neighbor(a, b, c, d) && !at(before, n, c, d).exposed && !at(before, n, c, d).flagged
            ==> #[trigger] s.contains((c, d))
}

/// Every tile that `after` newly exposed lies in each set that holds
/// `(x, y)` and spreads: the flood reaches no further than it must.
#[verifier::opaque]
pub open spec fn within_reach(before: Seq<Tile>, after: Seq<Tile>, n: int, x: int, y: int) -> bool {
    forall|s: Set<(int, int)>|
        s.contains((x, y)) && #[trigger] spreads(before, n, s) ==> forall|a: int, b: int|
            in_grid(n, a, b) && #[trigger] newly(before, after, n, a, b) ==> s.contains((a, b))
}

/// What revealing the hidden safe tile `(x, y)` leaves: that tile is exposed,
/// nothing else changes but tiles going from hidden to exposed, and every
/// newly exposed tile with no mine around it has all its unflagged neighbors
/// exposed, and no tile is exposed that the flood did not have to reach.
pub open spec fn flood_result(before: Seq<Tile>, after: Seq<Tile>, n: int, x: int, y: int) -> bool {
    &&& exposes_safely(before, after)
    &&& at(after, n, x, y).exposed
    &&& within_reach(before, after, n, x, y)
    &&& forall|a: int, b: int|
        in_grid(n, a, b) && newly(before, after, n, a, b) && (#[trigger] at(after, n, a, b)).adjacent
            == 0 ==> closed(after, n, a, b)
}

/// What revealing a mine leaves: every mine is exposed and unflagged, and
/// every other tile is as it was.
pub open spec fn loss_result(before: Seq<Tile>, after: Seq<Tile>) -> bool {
    &&& before.len() == after.len()
    &&& forall|i: int|
        0 <= i < before.len() ==> #[trigger] after[i] == if before[i].is_mine {
            Tile { exposed: true, flagged: false, ..before[i] }
        } else {
            before[i]
        }
}

pub open spec fn in_stack(st: Seq<(usize, usize)>, a: int, b: int) -> bool {
    exists|k: int| 0 <= k < st.len() && #[trigger] st[k].0 as int == a && st[k].1 as int == b
}

/// The state of a flood fill from `(x, y)` while `(ha, hb)` is being
/// processed: tiles on the work-list are newly exposed with no mine around
/// them, and every other such tile has its neighbors exposed.
pub open spec fn flood_inv(
    orig: Seq<Tile>,
    tiles: Seq<Tile>,
    st: Seq<(usize, usize)>,
    n: int,
    x: int,
    y: int,
    ha: int,
    hb: int,
) -> bool {
    &&& orig.len() == n * n
    &&& tiles.len() == n * n
    &&& counts_correct(orig, n)
    &&& count_mines(tiles) == count_mines(orig)
    &&& exposes_safely(orig, tiles)
    &&& in_grid(n, x, y)
    &&& at(tiles, n, x, y).exposed
    &&& within_reach(orig, tiles, n, x, y)
    &&& forall|k: int|
        0 <= k < st.len() ==> in_grid(n, #[trigger] st[k].0 as int, st[k].1 as int) && newly(
            orig,
            tiles,
            n,
            st[k].0 as int,
            st[k].1 as int,
        ) && at(tiles, n, st[k].0 as int, st[k].1 as int).adjacent == 0
    &&& forall|a: int, b: int|
        in_grid(n, a, b) && newly(orig, tiles, n, a, b) && (#[trigger] at(tiles, n, a, b)).adjacent
            == 0 && !in_stack(st, a, b) && !(a == ha && b == hb) ==> closed(tiles, n, a, b)
}

/// Exposes `(c, d)`, a neighbor of the tile `(ha, hb)` being processed,
/// unless it is exposed or flagged; a newly exposed tile with no mine around
/// it goes on the work-list.
fn expose_at(
    tiles: &mut Vec<Tile>,
    st: &mut Vec<(usize, usize)>,
    n: usize,
    c: usize,
    d: usize,
    Ghost(orig): Ghost<Seq<Tile>>,
    Ghost(x): Ghost<int>,
    Ghost(y): Ghost<int>,
    Ghost(ha): Ghost<int>,
    Ghost(hb): Ghost<int>,
)
    requires
        n * n <= usize::MAX,
        flood_inv(orig, old(tiles)@, old(st)@, n as int, x, y, ha, hb),
        in_grid(n as int, ha, hb),
        newly(orig, old(tiles)@, n as int, ha, hb),
        at(old(tiles)@, n as int, ha, hb).adjacent == 0,
        in_grid(n as int, c as int, d as int),
        is_neighbor(ha, hb, c as int, d as int),
    ensures
        flood_inv(orig, final(tiles)@, final(st)@, n as int, x, y, ha, hb),
        at(final(tiles)@, n as int, c as int, d as int).exposed || at(final(tiles)@, n as int, c as int, d as int).flagged,
        forall|i: int| 0 <= i < n * n && (#[trigger] old(tiles)@[i]).exposed ==> final(tiles)@[i].exposed,
        9 * count_hidden(final(tiles)@) + final(st)@.len() <= 9 * count_hidden(old(tiles)@) + old(st)@.len(),
        forall|e: int, f: int|
            in_grid(n as int, e, f) && (at(old(tiles)@, n as int, e, f).exposed || at(old(tiles)@, n as int, e, f).flagged)
                ==> (#[trigger] at(final(tiles)@, n as int, e, f)).exposed || at(final(tiles)@, n as int, e, f).flagged,
{
    proof {
        lemma_cell_bounds(n as int, c as int, d as int);
    }
    let i = c * n + d;
    let t = tiles[i];
    if t.exposed || t.flagged {
        return;
    }
    let ghost prev = tiles@;
    let ghost pst = st@;
    proof {
        assert(cell(n as int, c as int, d as int) == i);
    }
    tiles.set(i, Tile { exposed: true, ..t });
    if t.adjacent == 0 {
        st.push((c, d));
    }
    proof {
        lemma_expose_step(orig, prev, tiles@, pst, st@, n as int, x, y, ha, hb, c as int, d as int);
        assert forall|e: int, f: int|
            in_grid(n as int, e, f) && (at(prev, n as int, e, f).exposed || at(prev, n as int, e, f).flagged)
                implies (#[trigger] at(tiles@, n as int, e, f)).exposed || at(tiles@, n as int, e, f).flagged by {
            lemma_cell_bounds(n as int, e, f);
            let j = cell(n as int, e, f);
            assert(prev[j].flagged == orig[j].flagged && tiles@[j].flagged == orig[j].flagged);
        }
    }
}

/// Runs `expose_at` on the cell at offset `(dx - 1, dy - 1)` from `(a, b)`,
/// if that cell is on the grid.
fn expose_neighbor(
    tiles: &mut Vec<Tile>,
    st: &mut Vec<(usize, usize)>,
    n: usize,
    a: usize,
    b: usize,
    dx: usize,
    dy: usize,
    Ghost(orig): Ghost<Seq<Tile>>,
    Ghost(x): Ghost<int>,
    Ghost(y): Ghost<int>,
)
    requires
        n * n <= usize::MAX,
        flood_inv(orig, old(tiles)@, old(st)@, n as int, x, y, a as int, b as int),
        in_grid(n as int, a as int, b as int),
        newly(orig, old(tiles)@, n as int, a as int, b as int),
        at(old(tiles)@, n as int, a as int, b as int).adjacent == 0,
        dx <= 2,
        dy <= 2,
        !(dx == 1 && dy == 1),
    ensures
        flood_inv(orig, final(tiles)@, final(st)@, n as int, x, y, a as int, b as int),
        in_grid(n as int, a + dx - 1, b + dy - 1) ==> at(final(tiles)@, n as int, a + dx - 1, b + dy - 1).exposed
            || at(final(tiles)@, n as int, a + dx - 1, b + dy - 1).flagged,
        9 * count_hidden(final(tiles)@) + final(st)@.len() <= 9 * count_hidden(old(tiles)@) + old(st)@.len(),
        newly(orig, final(tiles)@, n as int, a as int, b as int),
        at(final(tiles)@, n as int, a as int, b as int).adjacent == 0,
        forall|e: int, f: int|
            in_grid(n as int, e, f) && (at(old(tiles)@, n as int, e, f).exposed || at(old(tiles)@, n as int, e, f).flagged)
                ==> (#[trigger] at(final(tiles)@, n as int, e, f)).exposed || at(final(tiles)@, n as int, e, f).flagged,
{
    if (a == 0 && dx == 0) || (b == 0 && dy == 0) {
        return;
    }
    proof {
        lemma_small_side(n as int, a as int);
        lemma_small_side(n as int, b as int);
    }
    let c = a + dx - 1;
    let d = b + dy - 1;
    if c >= n || d >= n {
        return;
    }
    proof {
        lemma_cell_bounds(n as int, a as int, b as int);
    }
    let ghost prev = tiles@;
    expose_at(tiles, st, n, c, d, Ghost(orig), Ghost(x), Ghost(y), Ghost(a as int), Ghost(b as int));
    proof {
        assert(at(prev, n as int, a as int, b as int).exposed);
        let j = cell(n as int, a as int, b as int);
        assert(prev[j].exposed);
        assert(tiles@[j].exposed);
        assert(tiles@[j].adjacent == orig[j].adjacent && prev[j].adjacent == orig[j].adjacent);
        assert(tiles@[j].exposed == at(tiles@, n as int, a as int, b as int).exposed);
    }
}

/// Exposes the hidden safe tile `(x, y)` and, from every newly exposed tile
/// with no mine around it, its unflagged neighbors, using a work-list.
pub(crate) fn flood(tiles: &mut Vec<Tile>, n: usize, x: usize, y: usize)
    requires
        n * n <= usize::MAX,
        old(tiles)@.len() == n * n,
        counts_correct(old(tiles)@, n as int),
        in_grid(n as int, x as int, y as int),
        !at(old(tiles)@, n as int, x as int, y as int).is_mine,
        !at(old(tiles)@, n as int, x as int, y as int).exposed,
        !at(old(tiles)@, n as int, x as int, y as int).flagged,
    ensures
        flood_result(old(tiles)@, final(tiles)@, n as int, x as int, y as int),
        count_mines(final(tiles)@) == count_mines(old(tiles)@),
{
    let ghost orig = tiles@;
    proof {
        lemma_cell_bounds(n as int, x as int, y as int);
    }
    let i = x * n + y;
    let t = tiles[i];
    proof {
        lemma_count_update(tiles@, i as int, Tile { exposed: true, ..t });
    }
    tiles.set(i, Tile { exposed: true, ..t });
    let mut st: Vec<(usize, usize)> = Vec::new();
    if t.adjacent == 0 {
        st.push((x, y));
    }
    proof {
        lemma_start_inv(orig, tiles@, st@, n as int, x as int, y as int);
    }
    while st.len() > 0
        invariant
            n * n <= usize::MAX,
            flood_inv(orig, tiles@, st@, n as int, x as int, y as int, -1, -1),
        decreases 9 * count_hidden(tiles@) + st@.len(),
    {
        let ghost st0 = st@;
        let (a, b) = st.pop().unwrap();
        proof {
            lemma_pop_inv(orig, tiles@, st0, st@, n as int, x as int, y as int);
        }
        expose_neighbor(tiles, &mut st, n, a, b, 0, 0, Ghost(orig), Ghost(x as int), Ghost(y as int));
        expose_neighbor(tiles, &mut st, n, a, b, 0, 1, Ghost(orig), Ghost(x as int), Ghost(y as int));
        expose_neighbor(tiles, &mut st, n, a, b, 0, 2, Ghost(orig), Ghost(x as int), Ghost(y as int));
        expose_neighbor(tiles, &mut st, n, a, b, 1, 0, Ghost(orig), Ghost(x as int), Ghost(y as int));
        expose_neighbor(tiles, &mut st, n, a, b, 1, 2, Ghost(orig), Ghost(x as int), Ghost(y as int));
        expose_neighbor(tiles, &mut st, n, a, b, 2, 0, Ghost(orig), Ghost(x as int), Ghost(y as int));
        expose_neighbor(tiles, &mut st, n, a, b, 2, 1, Ghost(orig), Ghost(x as int), Ghost(y as int));
        expose_neighbor(tiles, &mut st, n, a, b, 2, 2, Ghost(orig), Ghost(x as int), Ghost(y as int));
        proof {
            assert(closed(tiles@, n as int, a as int, b as int));
            lemma_fill_hole(orig, tiles@, st@, n as int, x as int, y as int, a as int, b as int);
        }
    }
    proof {
        assert forall|a: int, b: int|
            in_grid(n as int, a, b) && newly(orig, tiles@, n as int, a, b) && (#[trigger] at(tiles@, n as int, a, b)).adjacent
                == 0 implies closed(tiles@, n as int, a, b) by {
            assert(!in_stack(st@, a, b));
        }
    }
}

/// The work-list state right after the first tile is exposed.
proof fn lemma_start_inv(orig: Seq<Tile>, tiles: Seq<Tile>, st: Seq<(usize, usize)>, n: int, x: int, y: int)
    requires
        n <= usize::MAX,
        orig.len() == n * n,
        counts_correct(orig, n),
        in_grid(n, x, y),
        !at(orig, n, x, y).is_mine,
        !at(orig, n, x, y).exposed,
        !at(orig, n, x, y).flagged,
        tiles == orig.update(cell(n, x, y), Tile { exposed: true, ..at(orig, n, x, y) }),
        count_mines(tiles) == count_mines(orig),
        st == if at(orig, n, x, y).adjacent == 0 {
            seq![(x as usize, y as usize)]
        } else {
            Seq::<(usize, usize)>::empty()
        },
    ensures
        flood_inv(orig, tiles, st, n, x, y, -1, -1),
{
    let i = cell(n, x, y);
    lemma_cell_bounds(n, x, y);
    assert forall|j: int| 0 <= j < orig.len() implies (#[trigger] tiles[j]).flagged == orig[j].flagged && (
        orig[j].exposed ==> tiles[j].exposed) && (tiles[j].exposed && !orig[j].exposed
            ==> !tiles[j].is_mine && !tiles[j].flagged) by {}
    assert forall|j: int| 0 <= j < orig.len() implies (#[trigger] orig[j]).is_mine == tiles[j].is_mine && orig[j].adjacent
        == tiles[j].adjacent by {}
    assert forall|a: int, b: int|
        in_grid(n, a, b) && newly(orig, tiles, n, a, b) && (#[trigger] at(tiles, n, a, b)).adjacent
            == 0 && !in_stack(st, a, b) && !(a == -1 && b == -1) implies closed(tiles, n, a, b) by {
        lemma_cell_bounds(n, a, b);
        if cell(n, a, b) == i {
            lemma_cell_injective(n, a, b, x, y);
            assert(st[0].0 as int == x && st[0].1 as int == y);
        }
    }
    if st.len() > 0 {
        assert(st[0].0 as int == x && st[0].1 as int == y);
    }
    reveal(within_reach);
    assert forall|s: Set<(int, int)>| s.contains((x, y)) && #[trigger] spreads(orig, n, s) implies forall|a: int, b: int|
        in_grid(n, a, b) && #[trigger] newly(orig, tiles, n, a, b) ==> s.contains((a, b)) by {
        assert forall|a: int, b: int| in_grid(n, a, b) && #[trigger] newly(orig, tiles, n, a, b) implies s.contains((a, b)) by {
            lemma_cell_bounds(n, a, b);
            if cell(n, a, b) == i {
                lemma_cell_injective(n, a, b, x, y);
            }
        }
    }
}

/// Taking the last tile off the work-list makes it the one being processed.
proof fn lemma_pop_inv(
    orig: Seq<Tile>,
    tiles: Seq<Tile>,
    st0: Seq<(usize, usize)>,
    st: Seq<(usize, usize)>,
    n: int,
    x: int,
    y: int,
)
    requires
        flood_inv(orig, tiles, st0, n, x, y, -1, -1),
        st0.len() > 0,
        st == st0.drop_last(),
    ensures
        flood_inv(orig, tiles, st, n, x, y, st0.last().0 as int, st0.last().1 as int),
        in_grid(n, st0.last().0 as int, st0.last().1 as int),
        newly(orig, tiles, n, st0.last().0 as int, st0.last().1 as int),
        at(tiles, n, st0.last().0 as int, st0.last().1 as int).adjacent == 0,
{
    let (a, b) = (st0.last().0 as int, st0.last().1 as int);
    assert(in_grid(n, st0[st0.len() - 1].0 as int, st0[st0.len() - 1].1 as int));
    assert forall|p: int, q: int| in_stack(st0, p, q) && !(p == a && q == b) implies in_stack(st, p, q) by {
        let k = choose|k: int| 0 <= k < st0.len() && #[trigger] st0[k].0 as int == p && st0[k].1 as int == q;
        assert(st[k] == st0[k]);
    }
    assert forall|k: int| 0 <= k < st.len() implies in_grid(n, #[trigger] st[k].0 as int, st[k].1 as int) && newly(
        orig,
        tiles,
        n,
        st[k].0 as int,
        st[k].1 as int,
    ) && at(tiles, n, st[k].0 as int, st[k].1 as int).adjacent == 0 by {
        assert(st[k] == st0[k]);
    }
}

/// Once the tile being processed has its neighbors exposed, no tile is held
/// aside.
proof fn lemma_fill_hole(
    orig: Seq<Tile>,
    tiles: Seq<Tile>,
    st: Seq<(usize, usize)>,
    n: int,
    x: int,
    y: int,
    a: int,
    b: int,
)
    requires
        flood_inv(orig, tiles, st, n, x, y, a, b),
        closed(tiles, n, a, b),
    ensures
        flood_inv(orig, tiles, st, n, x, y, -1, -1),
{
}

/// A neighbor of a tile with no mine around it holds no mine.
pub proof fn lemma_zero_neighbor_safe(tiles: Seq<Tile>, n: int, a: int, b: int, c: int, d: int)
    requires
        counts_correct(tiles, n),
        in_grid(n, a, b),
        in_grid(n, c, d),
        is_neighbor(a, b, c, d),
        at(tiles, n, a, b).adjacent == 0,
    ensures
        !at(tiles, n, c, d).is_mine,
{
    assert(at(tiles, n, a, b).adjacent == mines_around(tiles, n, a, b));
    assert(mine_at(tiles, n, c, d) == 0);
}

proof fn lemma_expose_step(
    orig: Seq<Tile>,
    prev: Seq<Tile>,
    nt: Seq<Tile>,
    pst: Seq<(usize, usize)>,
    nst: Seq<(usize, usize)>,
    n: int,
    x: int,
    y: int,
    ha: int,
    hb: int,
    c: int,
    d: int,
)
    requires
        n <= usize::MAX,
        flood_inv(orig, prev, pst, n, x, y, ha, hb),
        in_grid(n, ha, hb),
        newly(orig, prev, n, ha, hb),
        at(prev, n, ha, hb).adjacent == 0,
        in_grid(n, c, d),
        is_neighbor(ha, hb, c, d),
        !at(prev, n, c, d).exposed,
        !at(prev, n, c, d).flagged,
        nt == prev.update(cell(n, c, d), Tile { exposed: true, ..at(prev, n, c, d) }),
        nst == if at(prev, n, c, d).adjacent == 0 {
            pst.push((c as usize, d as usize))
        } else {
            pst
        },
    ensures
        flood_inv(orig, nt, nst, n, x, y, ha, hb),
        at(nt, n, c, d).exposed,
        forall|i: int| 0 <= i < n * n && (#[trigger] prev[i]).exposed ==> nt[i].exposed,
        9 * count_hidden(nt) + nst.len() <= 9 * count_hidden(prev) + pst.len(),
{
    let i = cell(n, c, d);
    let t = at(prev, n, c, d);
    lemma_cell_bounds(n, c, d);
    lemma_count_update(prev, i, nt[i]);
    assert(!t.is_mine) by {
        lemma_same_layout(orig, prev, n);
        lemma_zero_neighbor_safe(prev, n, ha, hb, c, d);
    }
    assert(exposes_safely(orig, nt)) by {
        assert forall|j: int| 0 <= j < orig.len() implies (#[trigger] nt[j]).flagged == orig[j].flagged && (
            orig[j].exposed ==> nt[j].exposed) && (nt[j].exposed && !orig[j].exposed
                ==> !nt[j].is_mine && !nt[j].flagged) by {
            if j != i {
                assert(nt[j] == prev[j]);
            }
        }
        assert forall|j: int| 0 <= j < orig.len() implies (#[trigger] orig[j]).is_mine == nt[j].is_mine && orig[j].adjacent
            == nt[j].adjacent by {
            if j != i {
                assert(nt[j] == prev[j]);
            }
        }
    }
    lemma_expose_closed(orig, prev, nt, pst, nst, n, ha, hb, c, d);
    lemma_expose_within_reach(orig, prev, nt, n, x, y, ha, hb, c, d);
    assert forall|k: int| 0 <= k < nst.len() implies in_grid(n, #[trigger] nst[k].0 as int, nst[k].1 as int) && newly(
        orig,
        nt,
        n,
        nst[k].0 as int,
        nst[k].1 as int,
    ) && at(nt, n, nst[k].0 as int, nst[k].1 as int).adjacent == 0 by {
        if k < pst.len() {
            assert(nst[k] == pst[k]);
            assert(in_grid(n, pst[k].0 as int, pst[k].1 as int));
            let (a, b) = (pst[k].0 as int, pst[k].1 as int);
            lemma_cell_bounds(n, a, b);
            if cell(n, a, b) != i {
                assert(at(nt, n, a, b) == at(prev, n, a, b));
            }
        }
    }
    assert(at(nt, n, x, y).exposed) by {
        lemma_cell_bounds(n, x, y);
        if cell(n, x, y) != i {
            assert(at(nt, n, x, y) == at(prev, n, x, y));
        }
    }
}

proof fn lemma_expose_closed(
    orig: Seq<Tile>,
    prev: Seq<Tile>,
    nt: Seq<Tile>,
    pst: Seq<(usize, usize)>,
    nst: Seq<(usize, usize)>,
    n: int,
    ha: int,
    hb: int,
    c: int,
    d: int,
)
    requires
        n <= usize::MAX,
        prev.len() == n * n,
        exposes_safely(orig, prev),
        forall|a: int, b: int|
            in_grid(n, a, b) && newly(orig, prev, n, a, b) && (#[trigger] at(prev, n, a, b)).adjacent
                == 0 && !in_stack(pst, a, b) && !(a == ha && b == hb) ==> closed(prev, n, a, b),
        in_grid(n, c, d),
        !at(prev, n, c, d).exposed,
        !at(prev, n, c, d).flagged,
        nt == prev.update(cell(n, c, d), Tile { exposed: true, ..at(prev, n, c, d) }),
        nst == if at(prev, n, c, d).adjacent == 0 {
            pst.push((c as usize, d as usize))
        } else {
            pst
        },
    ensures
        forall|a: int, b: int|
            in_grid(n, a, b) && newly(orig, nt, n, a, b) && (#[trigger] at(nt, n, a, b)).adjacent
                == 0 && !in_stack(nst, a, b) && !(a == ha && b == hb) ==> closed(nt, n, a, b),
{
    let i = cell(n, c, d);
    lemma_cell_bounds(n, c, d);
    assert forall|a: int, b: int| in_stack(pst, a, b) implies in_stack(nst, a, b) by {
        let k = choose|k: int| 0 <= k < pst.len() && #[trigger] pst[k].0 as int == a && pst[k].1 as int == b;
        assert(nst[k] == pst[k]);
    }
    assert forall|a: int, b: int|
        in_grid(n, a, b) && newly(orig, nt, n, a, b) && (#[trigger] at(nt, n, a, b)).adjacent
            == 0 && !in_stack(nst, a, b) && !(a == ha && b == hb) implies closed(nt, n, a, b) by {
        if a == c && b == d {
            assert(nst[nst.len() - 1] == (c as usize, d as usize));
            assert(nst[nst.len() - 1].0 as int == c && nst[nst.len() - 1].1 as int == d);
            assert(in_stack(nst, c, d));
        } else {
            lemma_cell_bounds(n, a, b);
            if cell(n, a, b) == i {
                lemma_cell_injective(n, a, b, c, d);
            }
            assert(at(nt, n, a, b) == at(prev, n, a, b));
            assert(closed(prev, n, a, b));
            assert forall|e: int, f: int|
                in_grid(n, e, f) && is_neighbor(a, b, e, f) && !(#[trigger] at(nt, n, e, f)).flagged
                    implies at(nt, n, e, f).exposed by {
                lemma_cell_bounds(n, e, f);
                if cell(n, e, f) != i {
                    assert(at(nt, n, e, f) == at(prev, n, e, f));
                }
            }
        }
    }
}

/// Exposes every mine and clears its flag.
pub(crate) fn expose_mines(tiles: &mut Vec<Tile>)
    ensures
        loss_result(old(tiles)@, final(tiles)@),
        count_mines(final(tiles)@) == count_mines(old(tiles)@),
        same_layout(old(tiles)@, final(tiles)@),
{
    let ghost orig = tiles@;
    let mut i: usize = 0;
    while i < tiles.len()
        invariant
            i <= tiles@.len(),
            tiles@.len() == orig.len(),
            count_mines(tiles@) == count_mines(orig),
            forall|j: int|
                0 <= j < orig.len() ==> #[trigger] tiles@[j] == if j < i && orig[j].is_mine {
                    Tile { exposed: true, flagged: false, ..orig[j] }
                } else {
                    orig[j]
                },
        decreases tiles@.len() - i,
    {
        let t = tiles[i];
        if t.is_mine {
            proof {
                lemma_count_update(tiles@, i as int, Tile { exposed: true, flagged: false, ..t });
            }
            tiles.set(i, Tile { exposed: true, flagged: false, ..t });
        }
        i = i + 1;
    }
}

proof fn lemma_expose_within_reach(
    orig: Seq<Tile>,
    prev: Seq<Tile>,
    nt: Seq<Tile>,
    n: int,
    x: int,
    y: int,
    ha: int,
    hb: int,
    c: int,
    d: int,
)
    requires
        prev.len() == n * n,
        orig.len() == n * n,
        exposes_safely(orig, prev),
        within_reach(orig, prev, n, x, y),
        in_grid(n, ha, hb),
        newly(orig, prev, n, ha, hb),
        at(prev, n, ha, hb).adjacent == 0,
        in_grid(n, c, d),
        is_neighbor(ha, hb, c, d),
        !at(prev, n, c, d).exposed,
        !at(prev, n, c, d).flagged,
        nt == prev.update(cell(n, c, d), Tile { exposed: true, ..at(prev, n, c, d) }),
    ensures
        within_reach(orig, nt, n, x, y),
{
    reveal(within_reach);
    let i = cell(n, c, d);
    let h = cell(n, ha, hb);
    lemma_cell_bounds(n, c, d);
    lemma_cell_bounds(n, ha, hb);
    assert(orig[h].adjacent == prev[h].adjacent);
    assert(orig[i].flagged == prev[i].flagged);
    assert(!orig[i].exposed);
    assert forall|s: Set<(int, int)>| s.contains((x, y)) && #[trigger] spreads(orig, n, s) implies forall|a: int, b: int|
        in_grid(n, a, b) && #[trigger] newly(orig, nt, n, a, b) ==> s.contains((a, b)) by {
        assert(s.contains((ha, hb)));
        assert forall|a: int, b: int| in_grid(n, a, b) && #[trigger] newly(orig, nt, n, a, b) implies s.contains((a, b)) by {
            lemma_cell_bounds(n, a, b);
            if cell(n, a, b) == i {
                lemma_cell_injective(n, a, b, c, d);
                assert(s.contains((ha, hb)) && in_grid(n, ha, hb) && at(orig, n, ha, hb).adjacent == 0);
            } else {
                assert(at(nt, n, a, b) == at(prev, n, a, b));
                assert(newly(orig, prev, n, a, b));
            }
        }
    }
}

/// Checks that every tile without a mine is exposed.
pub(crate) fn every_safe_exposed(tiles: &Vec<Tile>) -> (r: bool)
    ensures
        r == all_safe_exposed(tiles@),
{
    let mut i: usize = 0;
    while i < tiles.len()
        invariant
            i <= tiles@.len(),
            forall|j: int| 0 <= j < i && !(#[trigger] tiles@[j]).is_mine ==> tiles@[j].exposed,
        decreases tiles@.len() - i,
    {
        if !tiles[i].is_mine && !tiles[i].exposed {
            return false;
        }
        i = i + 1;
    }
    true
}

/// `path` steps from neighbor to neighbor on the grid, starting at `(x, y)`;
/// every tile on it but the last was hidden with no mine around it, and no
/// tile on it is flagged.
pub open spec fn zero_path(tiles: Seq<Tile>, n: int, x: int, y: int, path: Seq<(int, int)>) -> bool {
    &&& path.len() > 0
    &&& path[0] == (x, y)
    &&& forall|k: int| 0 <= k < path.len() ==> in_grid(n, (#[trigger] path[k]).0, path[k].1) && !at(tiles, n, path[k].0, path[k].1).flagged
    &&& forall|k: int|
        0 <= k < path.len() - 1 ==> is_neighbor((#[trigger] path[k]).0, path[k].1, path[k + 1].0, path[k + 1].1)
            && !at(tiles, n, path[k].0, path[k].1).exposed && at(tiles, n, path[k].0, path[k].1).adjacent == 0
}

/// Clicking a hidden safe tile exposes its whole connected region of tiles
/// with no mine around them, and the numbered tiles that border it: the end
/// of every such path from the clicked tile is exposed.
pub proof fn lemma_flood_reaches(before: Seq<Tile>, after: Seq<Tile>, n: int, x: int, y: int, path: Seq<(int, int)>)
    requires
        before.len() == n * n,
        flood_result(before, after, n, x, y),
        zero_path(before, n, x, y, path),
    ensures
        at(after, n, path.last().0, path.last().1).exposed,
    decreases path.len(),
{
    if path.len() == 1 {
        assert(path.last() == (x, y));
    } else {
        let prefix = path.drop_last();
        assert(zero_path(before, n, x, y, prefix)) by {
            assert forall|k: int| 0 <= k < prefix.len() implies in_grid(n, (#[trigger] prefix[k]).0, prefix[k].1)
                && !at(before, n, prefix[k].0, prefix[k].1).flagged by {
                assert(prefix[k] == path[k]);
            }
            assert forall|k: int| 0 <= k < prefix.len() - 1 implies is_neighbor((#[trigger] prefix[k]).0, prefix[k].1, prefix[k + 1].0, prefix[k + 1].1)
                && !at(before, n, prefix[k].0, prefix[k].1).exposed && at(before, n, prefix[k].0, prefix[k].1).adjacent == 0 by {
                assert(prefix[k] == path[k]);
                assert(prefix[k + 1] == path[k + 1]);
            }
        }
        lemma_flood_reaches(before, after, n, x, y, prefix);
        let m = path.len() - 2;
        let (a, b) = path[m];
        let (c, d) = path[m + 1];
        assert(prefix.last() == path[m]);
        assert(in_grid(n, path[m].0, path[m].1));
        assert(in_grid(n, path[m + 1].0, path[m + 1].1));
        lemma_cell_bounds(n, a, b);
        lemma_cell_bounds(n, c, d);
        let i = cell(n, a, b);
        let j = cell(n, c, d);
        assert(before[i].adjacent == after[i].adjacent);
        assert(newly(before, after, n, a, b));
        assert(closed(after, n, a, b));
        assert(after[j].flagged == before[j].flagged);
        assert(path.last() == path[m + 1]);
    }
}

} // verus!
