use vstd::prelude::*;

use crate::flood::{every_safe_exposed, expose_mines, flood, flood_result, loss_result};
use crate::grid::{
    all_safe_exposed, at, cell, count_mines, counts_correct, fill_counts, in_grid, lemma_cell_bounds,
    lemma_cell_injective, lemma_cells, lemma_count_empty, lemma_count_update, lemma_same_layout,
    mines_around, same_layout, Tile,
};
use crate::placement::pick_cells;

verus! {

/// Where a game stands.
#[derive(Clone, Copy, Debug, PartialEq, Eq, Structural)]
pub enum GameState {
    InProgress,
    Won,
    Lost,
}

/// Why an action on a board or a session was refused.
#[derive(Clone, Copy, Debug, PartialEq, Eq, Structural)]
pub enum BoardError {
    InvalidConfig,
    OutOfBounds,
    TileFlagged,
    TileExposed,
    GameOver,
    GameNotStarted,
    NotFound,
    /// Every session identifier is already in use.
    IdUnavailable,
}

/// A square grid of `size * size` tiles, stored row by row: the tile at
/// `(x, y)` sits at index `x * size + y`.
pub struct Board {
    size: usize,
    mine_count: usize,
    tiles: Vec<Tile>,
    state: GameState,
}

/// The mine list names distinct cells, all on an `n` by `n` grid, and leaves
/// at least one cell free.
pub open spec fn valid_layout(n: int, mines: Seq<(usize, usize)>) -> bool {
    &&& mines.len() < n * n
    &&& forall|k: int| 0 <= k < mines.len() ==> in_grid(n, #[trigger] mines[k].0 as int, mines[k].1 as int)
    &&& forall|j: int, k: int| 0 <= j < k < mines.len() ==> #[trigger] mines[j] != #[trigger] mines[k]
}

/// The cell `(x, y)` is named in the mine list.
pub open spec fn listed(mines: Seq<(usize, usize)>, x: int, y: int) -> bool {
    exists|k: int| 0 <= k < mines.len() && #[trigger] mines[k].0 as int == x && mines[k].1 as int == y
}


/// The same tiles with nothing exposed and nothing flagged.
pub open spec fn hidden(s: Seq<Tile>) -> Seq<Tile> {
    s.map_values(|t: Tile| Tile { exposed: false, flagged: false, ..t })
}


/// `b` is what a first click at `(x, y)` leaves on its layout with nothing
/// exposed: the flood from `(x, y)`, and the game won exactly when every
/// safe tile is exposed.
pub open spec fn first_click_result(b: Board, x: int, y: int) -> bool {
    &&& flood_result(hidden(b.tiles_spec()), b.tiles_spec(), b.size_spec(), x, y)
    &&& b.state_spec() == if all_safe_exposed(b.tiles_spec()) {
        GameState::Won
    } else {
        GameState::InProgress
    }
}

/// What clicking `(x, y)` on `before` leaves.
pub open spec fn click_post(before: Board, after: Board, x: int, y: int, r: Result<(), BoardError>) -> bool {
    let n = before.size_spec();
    let t = before.tile_spec(x, y);
    &&& after.wf()
    &&& after.size_spec() == before.size_spec()
    &&& after.mine_count_spec() == before.mine_count_spec()
    &&& if !in_grid(n, x, y) {
        r == Err::<(), BoardError>(BoardError::OutOfBounds) && after == before
    } else if before.state_spec() != GameState::InProgress {
        r == Err::<(), BoardError>(BoardError::GameOver) && after == before
    } else if t.flagged {
        r == Err::<(), BoardError>(BoardError::TileFlagged) && after == before
    } else if t.exposed {
        r == Ok::<(), BoardError>(()) && after == before
    } else if t.is_mine {
        &&& r == Ok::<(), BoardError>(())
        &&& after.state_spec() == GameState::Lost
        &&& loss_result(before.tiles_spec(), after.tiles_spec())
    } else {
        &&& r == Ok::<(), BoardError>(())
        &&& flood_result(before.tiles_spec(), after.tiles_spec(), n, x, y)
        &&& after.state_spec() == if all_safe_exposed(after.tiles_spec()) {
            GameState::Won
        } else {
            GameState::InProgress
        }
    }
}

/// What toggling the flag at `(x, y)` on `before` leaves.
pub open spec fn toggle_post(before: Board, after: Board, x: int, y: int, r: Result<(), BoardError>) -> bool {
    let n = before.size_spec();
    let t = before.tile_spec(x, y);
    &&& after.wf()
    &&& after.size_spec() == before.size_spec()
    &&& after.mine_count_spec() == before.mine_count_spec()
    &&& after.state_spec() == before.state_spec()
    &&& if !in_grid(n, x, y) {
        r == Err::<(), BoardError>(BoardError::OutOfBounds) && after == before
    } else if before.state_spec() != GameState::InProgress {
        r == Err::<(), BoardError>(BoardError::GameOver) && after == before
    } else if t.exposed {
        r == Err::<(), BoardError>(BoardError::TileExposed) && after == before
    } else {
        &&& r == Ok::<(), BoardError>(())
        &&& after.tiles_spec() == before.tiles_spec().update(
            cell(n, x, y),
            Tile { flagged: !t.flagged, ..t },
        )
        &&& forall|p: int, q: int|
            in_grid(n, p, q) ==> #[trigger] after.tile_spec(p, q) == if p == x && q == y {
                Tile { flagged: !t.flagged, ..t }
            } else {
                before.tile_spec(p, q)
            }
    }
}

impl Board {
    /// The board is internally consistent.
    pub closed spec fn wf(&self) -> bool {
        &&& self.size * self.size <= usize::MAX
        &&& self.tiles@.len() == self.size * self.size
        &&& self.mine_count < self.size * self.size
        &&& count_mines(self.tiles@) == self.mine_count
        &&& counts_correct(self.tiles@, self.size as int)
        &&& forall|i: int|
            0 <= i < self.tiles@.len() ==> !((#[trigger] self.tiles@[i]).exposed
                && self.tiles@[i].flagged)
        &&& self.state == GameState::Lost ==> forall|i: int|
            0 <= i < self.tiles@.len() && (#[trigger] self.tiles@[i]).is_mine ==> self.tiles@[i].exposed
        &&& self.state == GameState::Won ==> all_safe_exposed(self.tiles@)
        &&& self.state != GameState::Lost ==> forall|i: int|
            0 <= i < self.tiles@.len() && (#[trigger] self.tiles@[i]).is_mine ==> !self.tiles@[i].exposed
    }

    pub closed spec fn size_spec(&self) -> int {
        self.size as int
    }

    pub closed spec fn mine_count_spec(&self) -> int {
        self.mine_count as int
    }

    pub closed spec fn state_spec(&self) -> GameState {
        self.state
    }

    /// The tiles, row by row.
    pub closed spec fn tiles_spec(&self) -> Seq<Tile> {
        self.tiles@
    }

    /// The tile at `(x, y)`.
    pub closed spec fn tile_spec(&self, x: int, y: int) -> Tile {
        at(self.tiles@, self.size as int, x, y)
    }

    /// A board with mines at the listed cells, nothing exposed or flagged,
    /// and the game in progress.
    pub fn new_with_mines(size: usize, mines: &Vec<(usize, usize)>) -> (r: Result<Board, BoardError>)
        requires
            size * size <= usize::MAX,
        ensures
            r is Err <==> !valid_layout(size as int, mines@),
            r is Err ==> r == Err::<Board, BoardError>(BoardError::InvalidConfig),
            r is Ok ==> {
                let b = r->Ok_0;
                &&& b.wf()
                &&& b.size_spec() == size
                &&& b.mine_count_spec() == mines@.len()
                &&& b.state_spec() == GameState::InProgress
                &&& forall|x: int, y: int|
                    in_grid(size as int, x, y) ==> (#[trigger] b.tile_spec(x, y)).is_mine == listed(
                        mines@,
                        x,
                        y,
                    ) && !b.tile_spec(x, y).exposed && !b.tile_spec(x, y).flagged
                &&& b.tiles_spec() == hidden(b.tiles_spec())
            },
    {
        let n = size;
        if mines.len() >= n * n {
            return Err(BoardError::InvalidConfig);
        }
        let mut tiles: Vec<Tile> = Vec::new();
        let total = n * n;
        let mut i: usize = 0;
        while i < total
            invariant
                i <= total,
                total == n * n,
                tiles@.len() == i,
                forall|j: int|
                    0 <= j < i ==> #[trigger] tiles@[j] == (Tile {
                        is_mine: false,
                        adjacent: 0,
                        exposed: false,
                        flagged: false,
                    }),
            decreases total - i,
        {
            tiles.push(Tile { is_mine: false, adjacent: 0, exposed: false, flagged: false });
            i = i + 1;
        }
        proof {
            lemma_count_empty(tiles@);
            lemma_cells(n as int);
        }
        let mut k: usize = 0;
        while k < mines.len()
            invariant
                n == size,
                k <= mines@.len(),
                mines@.len() < n * n,
                n * n <= usize::MAX,
                tiles@.len() == n * n,
                count_mines(tiles@) == k,
                forall|j: int|
                    0 <= j < n * n ==> !(#[trigger] tiles@[j]).exposed && !tiles@[j].flagged,
                forall|x: int, y: int|
                    in_grid(n as int, x, y) ==> (#[trigger] at(tiles@, n as int, x, y)).is_mine
                        == listed(mines@.take(k as int), x, y),
                forall|j: int|
                    0 <= j < k ==> in_grid(n as int, #[trigger] mines@[j].0 as int, mines@[j].1 as int),
                forall|j: int, l: int| 0 <= j < l < k ==> #[trigger] mines@[j] != #[trigger] mines@[l],
                forall|x: int, y: int| in_grid(n as int, x, y) ==> 0 <= #[trigger] cell(n as int, x, y) < n * n,
                forall|x: int, y: int, u: int, v: int|
                    in_grid(n as int, x, y) && in_grid(n as int, u, v) && #[trigger] cell(n as int, x, y)
                        == #[trigger] cell(n as int, u, v) ==> x == u && y == v,
            decreases mines@.len() - k,
        {
            let (x, y) = mines[k];
            assert(mines@[k as int] == (x, y));
            if x >= n || y >= n {
                assert(!in_grid(n as int, mines@[k as int].0 as int, mines@[k as int].1 as int));
                assert(!valid_layout(n as int, mines@));
                return Err(BoardError::InvalidConfig);
            }
            proof {
                lemma_cell_bounds(n as int, x as int, y as int);
            }
            let idx = x * n + y;
            assert(cell(n as int, x as int, y as int) == idx);
            if tiles[idx].is_mine {
                proof {
                    let pre = mines@.take(k as int);
                    assert(at(tiles@, n as int, x as int, y as int).is_mine);
                    assert(listed(pre, x as int, y as int));
                    let w = choose|j: int| 0 <= j < pre.len() && #[trigger] pre[j].0 as int == x && pre[j].1 as int == y;
                    assert(pre[w] == mines@[w]);
                    assert(mines@[w] == mines@[k as int]);
                    assert(!valid_layout(n as int, mines@));
                }
                return Err(BoardError::InvalidConfig);
            }
            let t = tiles[idx];
            let ghost prev = tiles@;
            proof {
                lemma_count_update(tiles@, idx as int, Tile { is_mine: true, ..t });
            }
            tiles.set(idx, Tile { is_mine: true, ..t });
            proof {
                let pre = mines@.take(k as int);
                let post = mines@.take(k + 1);
                assert forall|a: int, b: int| in_grid(n as int, a, b) implies (#[trigger] at(tiles@, n as int, a, b)).is_mine
                    == listed(post, a, b) by {
                    if a == x && b == y {
                        assert(post[k as int] == mines@[k as int]);
                        assert(listed(post, a, b));
                    } else {
                        assert(cell(n as int, a, b) != cell(n as int, x as int, y as int));
                        assert(at(prev, n as int, a, b) == at(tiles@, n as int, a, b));
                        assert(at(prev, n as int, a, b).is_mine == listed(pre, a, b));
                        if listed(post, a, b) {
                            let w = choose|j: int| 0 <= j < post.len() && #[trigger] post[j].0 as int == a && post[j].1 as int == b;
                            assert(pre[w] == post[w]);
                        }
                        if listed(pre, a, b) {
                            let w = choose|j: int| 0 <= j < pre.len() && #[trigger] pre[j].0 as int == a && pre[j].1 as int == b;
                            assert(pre[w] == post[w]);
                        }
                    }
                }
                assert forall|j: int| 0 <= j < k implies mines@[j] != mines@[k as int] by {
                    if mines@[j] == mines@[k as int] {
                        assert(pre[j] == mines@[j]);
                        assert(pre[j].0 as int == x && pre[j].1 as int == y);
                        assert(listed(pre, x as int, y as int));
                        assert(at(prev, n as int, x as int, y as int).is_mine);
                    }
                }
            }
            k = k + 1;
        }
        proof {
            assert(mines@.take(mines@.len() as int) =~= mines@);
        }
        let ghost placed = tiles@;
        fill_counts(&mut tiles, n);
        let b = Board { size: n, mine_count: mines.len(), tiles, state: GameState::InProgress };
        proof {
            assert forall|j: int| 0 <= j < b.tiles@.len() implies !((#[trigger] b.tiles@[j]).exposed && b.tiles@[j].flagged) by {}
            assert(b.wf());
            assert forall|x: int, y: int|
                in_grid(size as int, x, y) implies (#[trigger] b.tile_spec(x, y)).is_mine == listed(
                    mines@,
                    x,
                    y,
                ) && !b.tile_spec(x, y).exposed && !b.tile_spec(x, y).flagged by {
                assert(0 <= cell(n as int, x, y) < n * n);
                assert(b.tile_spec(x, y) == at(b.tiles@, n as int, x, y));
                assert(at(placed, n as int, x, y).is_mine == listed(mines@.take(mines@.len() as int), x, y));
                assert(placed[cell(n as int, x, y)].is_mine == b.tiles@[cell(n as int, x, y)].is_mine);
            }
            assert(b.tiles@ =~= hidden(b.tiles@));
        }
        Ok(b)
    }

    /// Reveals (clicks) the tile at `(x, y)`.
    pub fn click_tile(&mut self, x: usize, y: usize) -> (r: Result<(), BoardError>)
        requires
            old(self).wf(),
        ensures
            click_post(*old(self), *final(self), x as int, y as int, r),
    {
        let n = self.size;
        if x >= n || y >= n {
            return Err(BoardError::OutOfBounds);
        }
        if self.state != GameState::InProgress {
            return Err(BoardError::GameOver);
        }
        proof {
            lemma_cell_bounds(n as int, x as int, y as int);
        }
        let t = self.tiles[x * n + y];
        if t.flagged {
            return Err(BoardError::TileFlagged);
        }
        if t.exposed {
            return Ok(());
        }
        let ghost before = self.tiles@;
        if t.is_mine {
            expose_mines(&mut self.tiles);
            self.state = GameState::Lost;
            proof {
                lemma_same_layout(before, self.tiles@, n as int);
            }
            return Ok(());
        }
        flood(&mut self.tiles, n, x, y);
        proof {
            lemma_same_layout(before, self.tiles@, n as int);
        }
        if every_safe_exposed(&self.tiles) {
            self.state = GameState::Won;
        }
        Ok(())
    }

    /// Puts a flag on the tile at `(x, y)`, or takes it off.
    pub fn toggle_flag(&mut self, x: usize, y: usize) -> (r: Result<(), BoardError>)
        requires
            old(self).wf(),
        ensures
            toggle_post(*old(self), *final(self), x as int, y as int, r),
    {
        let n = self.size;
        if x >= n || y >= n {
            return Err(BoardError::OutOfBounds);
        }
        if self.state != GameState::InProgress {
            return Err(BoardError::GameOver);
        }
        proof {
            lemma_cell_bounds(n as int, x as int, y as int);
        }
        let i = x * n + y;
        let t = self.tiles[i];
        if t.exposed {
            return Err(BoardError::TileExposed);
        }
        let ghost before = self.tiles@;
        proof {
            lemma_count_update(self.tiles@, i as int, Tile { flagged: !t.flagged, ..t });
        }
        self.tiles.set(i, Tile { flagged: !t.flagged, ..t });
        proof {
            assert(same_layout(before, self.tiles@));
            lemma_same_layout(before, self.tiles@, n as int);
            lemma_cells(n as int);
            assert forall|p: int, q: int| in_grid(n as int, p, q) implies #[trigger] self.tile_spec(p, q) == if p == x && q == y {
                Tile { flagged: !t.flagged, ..t }
            } else {
                at(before, n as int, p, q)
            } by {
                assert(cell(n as int, x as int, y as int) == i);
            }
            assert forall|j: int| 0 <= j < self.tiles@.len() implies !((#[trigger] self.tiles@[j]).exposed
                && self.tiles@[j].flagged) by {
                if j != i {
                    assert(self.tiles@[j] == before[j]);
                }
            }
        }
        Ok(())
    }

    pub fn size(&self) -> (r: usize)
        ensures
            r == self.size_spec(),
    {
        self.size
    }

    pub fn mine_count(&self) -> (r: usize)
        ensures
            r == self.mine_count_spec(),
    {
        self.mine_count
    }

    pub fn state(&self) -> (r: GameState)
        ensures
            r == self.state_spec(),
    {
        self.state
    }

    /// The tile at `(x, y)`, or `None` off the grid.
    pub fn tile_at(&self, x: usize, y: usize) -> (r: Option<Tile>)
        requires
            self.wf(),
        ensures
            in_grid(self.size_spec(), x as int, y as int) ==> r == Some(self.tile_spec(x as int, y as int)),
            !in_grid(self.size_spec(), x as int, y as int) ==> r.is_none(),
    {
        if x < self.size && y < self.size {
            proof {
                lemma_cell_bounds(self.size as int, x as int, y as int);
            }
            Some(self.tiles[x * self.size + y])
        } else {
            None
        }
    }
}

impl Board {
    /// A board of `mine_count` mines placed at random anywhere, with nothing
    /// exposed or flagged.
    pub fn new_random(size: usize, mine_count: usize) -> (r: Result<Board, BoardError>)
        requires
            size * size <= usize::MAX,
        ensures
            r is Err <==> mine_count >= size * size,
            r is Err ==> r == Err::<Board, BoardError>(BoardError::InvalidConfig),
            r is Ok ==> {
                let b = r->Ok_0;
                &&& b.wf()
                &&& b.size_spec() == size
                &&& b.mine_count_spec() == mine_count
                &&& b.state_spec() == GameState::InProgress
                &&& forall|x: int, y: int|
                    in_grid(size as int, x, y) ==> !(#[trigger] b.tile_spec(x, y)).exposed
                        && !b.tile_spec(x, y).flagged
            },
    {
        if mine_count >= size * size {
            return Err(BoardError::InvalidConfig);
        }
        let mines = pick_cells(size, mine_count, None);
        Board::new_with_mines(size, &mines)
    }

    /// A board whose mines avoid `first`, with `first` already clicked: the
    /// game is never lost by it.
    pub fn new_with_first_click(size: usize, mine_count: usize, first: (usize, usize)) -> (r: Result<
        Board,
        BoardError,
    >)
        requires
            size * size <= usize::MAX,
        ensures
            (size == 0 || mine_count > size * size - 1) ==> r == Err::<Board, BoardError>(
                BoardError::InvalidConfig,
            ),
            !(size == 0 || mine_count > size * size - 1) && !in_grid(size as int, first.0 as int, first.1 as int)
                ==> r == Err::<Board, BoardError>(BoardError::OutOfBounds),
            !(size == 0 || mine_count > size * size - 1) && in_grid(size as int, first.0 as int, first.1 as int)
                ==> r is Ok,
            r is Ok ==> {
                let b = r->Ok_0;
                &&& b.wf()
                &&& b.size_spec() == size
                &&& b.mine_count_spec() == mine_count
                &&& b.state_spec() != GameState::Lost
                &&& !b.tile_spec(first.0 as int, first.1 as int).is_mine
                &&& b.tile_spec(first.0 as int, first.1 as int).exposed
                &&& forall|x: int, y: int| in_grid(size as int, x, y) ==> !(#[trigger] b.tile_spec(x, y)).flagged
                &&& first_click_result(b, first.0 as int, first.1 as int)
            },
    {
        if size == 0 {
            return Err(BoardError::InvalidConfig);
        }
        assert(size * size >= 1) by (nonlinear_arith)
            requires
                size >= 1,
        ;
        if mine_count > size * size - 1 {
            return Err(BoardError::InvalidConfig);
        }
        if first.0 >= size || first.1 >= size {
            return Err(BoardError::OutOfBounds);
        }
        let mines = pick_cells(size, mine_count, Some(first));
        let made = Board::new_with_mines(size, &mines);
        match made {
            Ok(mut b) => {
                proof {
                    if listed(mines@, first.0 as int, first.1 as int) {
                        let k = choose|k: int| 0 <= k < mines@.len() && #[trigger] mines@[k].0 as int == first.0 as int && mines@[k].1 as int == first.1 as int;
                        assert(mines@[k] == first);
                    }
                }
                let ghost b0 = b;
                proof {
                    assert(!b0.tile_spec(first.0 as int, first.1 as int).is_mine);
                    assert(!b0.tile_spec(first.0 as int, first.1 as int).flagged);
                    assert(!b0.tile_spec(first.0 as int, first.1 as int).exposed);
                }
                let _ = b.click_tile(first.0, first.1);
                proof {
                    assert forall|x: int, y: int| in_grid(size as int, x, y) implies !(#[trigger] b.tile_spec(x, y)).flagged by {
                        lemma_cell_bounds(size as int, x, y);
                        assert(!b0.tile_spec(x, y).flagged);
                        let j = cell(size as int, x, y);
                        assert(b.tiles@[j].flagged == b0.tiles@[j].flagged);
                    }
                    lemma_cell_bounds(size as int, first.0 as int, first.1 as int);
                    let j = cell(size as int, first.0 as int, first.1 as int);
                    assert(b.tiles@[j].is_mine == b0.tiles@[j].is_mine);
                    assert(b.tile_spec(first.0 as int, first.1 as int).exposed);
                    assert(b.state_spec() != GameState::Lost);
                    assert(hidden(b.tiles@) =~= b0.tiles@) by {
                        assert forall|k: int| 0 <= k < b0.tiles@.len() implies hidden(b.tiles@)[k] == b0.tiles@[k] by {
                            assert(b0.tiles@[k] == hidden(b0.tiles@)[k]);
                        }
                    }
                }
                Ok(b)
            },
            Err(e) => Err(e),
        }
    }
}

/// A well-formed board holds exactly its mine count of mines, and every
/// tile's count is the number of mines around it; every constructor returns a
/// well-formed board.
pub proof fn lemma_board_counts(b: Board)
    requires
        b.wf(),
    ensures
        b.tiles_spec().len() == b.size_spec() * b.size_spec(),
        count_mines(b.tiles_spec()) == b.mine_count_spec(),
        counts_correct(b.tiles_spec(), b.size_spec()),
{
}

/// Clicking a mine while the game is in progress loses it and exposes every
/// mine.
pub proof fn lemma_mine_click_loses(before: Board, after: Board, x: int, y: int, r: Result<(), BoardError>)
    requires
        before.wf(),
        click_post(before, after, x, y, r),
        in_grid(before.size_spec(), x, y),
        before.state_spec() == GameState::InProgress,
        !before.tile_spec(x, y).flagged,
        before.tile_spec(x, y).is_mine,
    ensures
        after.state_spec() == GameState::Lost,
        forall|i: int|
            0 <= i < after.tiles_spec().len() && (#[trigger] after.tiles_spec()[i]).is_mine
                ==> after.tiles_spec()[i].exposed,
{
    lemma_cell_bounds(before.size_spec(), x, y);
    assert forall|i: int|
        0 <= i < after.tiles_spec().len() && (#[trigger] after.tiles_spec()[i]).is_mine
            implies after.tiles_spec()[i].exposed by {
        assert(before.tiles_spec()[i].is_mine);
    }
}

/// The click that exposes the last hidden safe tile wins the game.
pub proof fn lemma_last_safe_click_wins(before: Board, after: Board, x: int, y: int, r: Result<(), BoardError>)
    requires
        before.wf(),
        click_post(before, after, x, y, r),
        in_grid(before.size_spec(), x, y),
        before.state_spec() == GameState::InProgress,
        !before.tile_spec(x, y).flagged,
        !before.tile_spec(x, y).exposed,
        !before.tile_spec(x, y).is_mine,
        all_safe_exposed(after.tiles_spec()),
    ensures
        r is Ok,
        after.state_spec() == GameState::Won,
{
}

/// Flagging an exposed tile fails with `TileExposed`, and toggling the flag of
/// a hidden tile twice gives back the tiles as they were.
pub proof fn lemma_toggle_twice(
    b0: Board,
    b1: Board,
    b2: Board,
    x: int,
    y: int,
    r1: Result<(), BoardError>,
    r2: Result<(), BoardError>,
)
    requires
        b0.wf(),
        toggle_post(b0, b1, x, y, r1),
        toggle_post(b1, b2, x, y, r2),
    ensures
        in_grid(b0.size_spec(), x, y) && b0.state_spec() == GameState::InProgress && b0.tile_spec(
            x,
            y,
        ).exposed ==> r1 == Err::<(), BoardError>(BoardError::TileExposed),
        r1 is Ok ==> r2 is Ok && b2.tiles_spec() == b0.tiles_spec() && b2.state_spec() == b0.state_spec(),
        r1 is Ok ==> forall|p: int, q: int| #[trigger] b2.tile_spec(p, q) == b0.tile_spec(p, q),
{
    if r1 is Ok {
        let n = b0.size_spec();
        lemma_cell_bounds(n, x, y);
        let i = cell(n, x, y);
        assert(b1.tile_spec(x, y) == b1.tiles_spec()[i]);
        assert(b2.tiles_spec() =~= b0.tiles_spec());
    }
}

/// Once a game is won or lost, clicks and flag toggles are refused and leave
/// the board as it was.
pub proof fn lemma_game_over_frozen(
    before: Board,
    clicked: Board,
    flagged: Board,
    x: int,
    y: int,
    rc: Result<(), BoardError>,
    rf: Result<(), BoardError>,
)
    requires
        before.wf(),
        before.state_spec() != GameState::InProgress,
        click_post(before, clicked, x, y, rc),
        toggle_post(before, flagged, x, y, rf),
    ensures
        rc is Err,
        clicked == before,
        rf is Err,
        flagged == before,
{
}


/// The tile at `(x, y)` is the one at index `x * size + y` of the tiles.
pub proof fn lemma_tile_spec(b: Board)
    ensures
        forall|x: int, y: int| #[trigger] b.tile_spec(x, y) == at(b.tiles_spec(), b.size_spec(), x, y),
        b.wf() ==> b.tiles_spec().len() == b.size_spec() * b.size_spec(),
        forall|x: int, y: int|
            in_grid(b.size_spec(), x, y) ==> 0 <= #[trigger] cell(b.size_spec(), x, y) < b.size_spec()
                * b.size_spec(),
{
    lemma_cells(b.size_spec());
}

/// On a well-formed board every tile's count is at most 8, no tile is both
/// exposed and flagged, a lost game shows every mine and a won game every
/// safe tile.
pub proof fn lemma_board_tiles(b: Board)
    requires
        b.wf(),
    ensures
        forall|x: int, y: int|
            in_grid(b.size_spec(), x, y) ==> (#[trigger] b.tile_spec(x, y)).adjacent <= 8 && !(
            b.tile_spec(x, y).exposed && b.tile_spec(x, y).flagged),
        b.state_spec() == GameState::Lost ==> forall|x: int, y: int|
            in_grid(b.size_spec(), x, y) && (#[trigger] b.tile_spec(x, y)).is_mine ==> b.tile_spec(x, y).exposed,
        b.state_spec() == GameState::Won ==> all_safe_exposed(b.tiles_spec()),
{
    assert forall|x: int, y: int| in_grid(b.size_spec(), x, y) implies (#[trigger] b.tile_spec(x, y)).adjacent <= 8 && !(
        b.tile_spec(x, y).exposed && b.tile_spec(x, y).flagged) by {
        lemma_cell_bounds(b.size_spec(), x, y);
        assert(at(b.tiles@, b.size as int, x, y).adjacent == mines_around(b.tiles@, b.size as int, x, y));
    }
    if b.state_spec() == GameState::Lost {
        assert forall|x: int, y: int|
            in_grid(b.size_spec(), x, y) && (#[trigger] b.tile_spec(x, y)).is_mine implies b.tile_spec(x, y).exposed by {
            lemma_cell_bounds(b.size_spec(), x, y);
        }
    }
}

} // verus!
