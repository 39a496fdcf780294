use vstd::prelude::*;

use crate::board::Board;
use crate::grid::Tile;

verus! {

/// What an exposed tile shows.
#[derive(Clone, Copy, Debug, PartialEq, Eq, Structural)]
pub enum TileValue {
    Bomb,
    Number(u8),
}

/// What a client may see of one tile: its value only once it is exposed.
#[derive(Clone, Copy, Debug, PartialEq, Eq, Structural)]
pub struct TileView {
    pub exposed: bool,
    pub flagged: bool,
    pub value: Option<TileValue>,
}

pub open spec fn view_of(t: Tile) -> TileView {
    TileView {
        exposed: t.exposed,
        flagged: t.flagged,
        value: if t.exposed {
            Some(
                if t.is_mine {
                    TileValue::Bomb
                } else {
                    TileValue::Number(t.adjacent)
                },
            )
        } else {
            None
        },
    }
}

pub open spec fn hidden_view() -> TileView {
    TileView { exposed: false, flagged: false, value: None }
}

/// `rows` shows every tile of `b`, row `x` holding the tiles `(x, 0..size)`.
pub open spec fn shows(rows: Seq<Vec<TileView>>, b: Board) -> bool {
    &&& rows.len() == b.size_spec()
    &&& forall|x: int|
        0 <= x < rows.len() ==> (#[trigger] rows[x])@.len() == b.size_spec() && forall|y: int|
            0 <= y < b.size_spec() ==> #[trigger] rows[x]@[y] == view_of(b.tile_spec(x, y))
}

/// `rows` is a `size` by `size` grid of hidden, unflagged tiles.
pub open spec fn all_hidden(rows: Seq<Vec<TileView>>, size: int) -> bool {
    &&& rows.len() == size
    &&& forall|x: int|
        0 <= x < rows.len() ==> (#[trigger] rows[x])@.len() == size && forall|y: int|
            0 <= y < size ==> #[trigger] rows[x]@[y] == hidden_view()
}

/// The view of one tile.
pub fn tile_view(t: Tile) -> (r: TileView)
    ensures
        r == view_of(t),
{
    let value = if t.exposed {
        if t.is_mine {
            Some(TileValue::Bomb)
        } else {
            Some(TileValue::Number(t.adjacent))
        }
    } else {
        None
    };
    TileView { exposed: t.exposed, flagged: t.flagged, value }
}

/// The client's view of every tile of the board.
pub fn serialize_board(b: &Board) -> (r: Vec<Vec<TileView>>)
    requires
        b.wf(),
    ensures
        shows(r@, *b),
{
    let n = b.size();
    let mut rows: Vec<Vec<TileView>> = Vec::new();
    let mut x: usize = 0;
    while x < n
        invariant
            b.wf(),
            n == b.size_spec(),
            x <= n,
            rows@.len() == x,
            forall|i: int|
                0 <= i < x ==> (#[trigger] rows@[i])@.len() == n && forall|y: int|
                    0 <= y < n ==> #[trigger] rows@[i]@[y] == view_of(b.tile_spec(i, y)),
        decreases n - x,
    {
        let mut row: Vec<TileView> = Vec::new();
        let mut y: usize = 0;
        while y < n
            invariant
                b.wf(),
                n == b.size_spec(),
                x < n,
                y <= n,
                row@.len() == y,
                forall|j: int| 0 <= j < y ==> #[trigger] row@[j] == view_of(b.tile_spec(x as int, j)),
            decreases n - y,
        {
            let t = b.tile_at(x, y);
            match t {
                Some(t) => row.push(tile_view(t)),
                None => {},
            }
            y = y + 1;
        }
        rows.push(row);
        x = x + 1;
    }
    rows
}

/// A `size` by `size` grid of hidden tiles, shown before any mine is placed.
pub fn create_empty_board_response(size: usize) -> (r: Vec<Vec<TileView>>)
    ensures
        all_hidden(r@, size as int),
{
    let mut rows: Vec<Vec<TileView>> = Vec::new();
    let mut x: usize = 0;
    while x < size
        invariant
            x <= size,
            rows@.len() == x,
            forall|i: int|
                0 <= i < x ==> (#[trigger] rows@[i])@.len() == size && forall|y: int|
                    0 <= y < size ==> #[trigger] rows@[i]@[y] == hidden_view(),
        decreases size - x,
    {
        let mut row: Vec<TileView> = Vec::new();
        let mut y: usize = 0;
        while y < size
            invariant
                y <= size,
                row@.len() == y,
                forall|j: int| 0 <= j < y ==> #[trigger] row@[j] == hidden_view(),
            decreases size - y,
        {
            row.push(TileView { exposed: false, flagged: false, value: None });
            y = y + 1;
        }
        rows.push(row);
        x = x + 1;
    }
    rows
}

} // verus!
