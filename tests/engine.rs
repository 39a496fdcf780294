use sweeper::board::{Board, BoardError, GameState};
use sweeper::grid::Tile;
use sweeper::view::{create_empty_board_response, serialize_board, TileValue};

fn tile(b: &Board, x: usize, y: usize) -> Tile {
    b.tile_at(x, y).unwrap()
}

fn true_count(b: &Board, x: usize, y: usize) -> u8 {
    let n = b.size() as i64;
    let mut c = 0;
    for dx in -1i64..=1 {
        for dy in -1i64..=1 {
            if dx == 0 && dy == 0 {
                continue;
            }
            let (a, c2) = (x as i64 + dx, y as i64 + dy);
            if a >= 0 && a < n && c2 >= 0 && c2 < n && tile(b, a as usize, c2 as usize).is_mine {
                c += 1;
            }
        }
    }
    c
}

fn mines_on(b: &Board) -> usize {
    let mut m = 0;
    for x in 0..b.size() {
        for y in 0..b.size() {
            if tile(b, x, y).is_mine {
                m += 1;
            }
        }
    }
    m
}

fn counts_are_true(b: &Board) -> bool {
    (0..b.size()).all(|x| (0..b.size()).all(|y| tile(b, x, y).adjacent == true_count(b, x, y)))
}

#[test]
fn fixed_layout_counts() {
    let b = Board::new_with_mines(3, &vec![(0, 0)]).unwrap();
    assert_eq!(b.size(), 3);
    assert_eq!(b.mine_count(), 1);
    assert_eq!(b.state(), GameState::InProgress);
    assert_eq!(mines_on(&b), 1);
    assert_eq!(tile(&b, 0, 1).adjacent, 1);
    assert_eq!(tile(&b, 1, 1).adjacent, 1);
    assert_eq!(tile(&b, 1, 0).adjacent, 1);
    assert_eq!(tile(&b, 2, 2).adjacent, 0);
    assert!(counts_are_true(&b));
}

#[test]
fn random_boards_have_exact_mine_count() {
    for (size, mines) in [(1usize, 0usize), (2, 3), (5, 0), (10, 15), (8, 63)] {
        let b = Board::new_random(size, mines).unwrap();
        assert_eq!(mines_on(&b), mines);
        assert_eq!(b.mine_count(), mines);
        assert!(counts_are_true(&b));
    }
}

#[test]
fn invalid_configurations_are_refused() {
    assert_eq!(Board::new_random(3, 9).err(), Some(BoardError::InvalidConfig));
    assert_eq!(Board::new_random(0, 0).err(), Some(BoardError::InvalidConfig));
    assert_eq!(Board::new_with_mines(3, &vec![(0, 0), (0, 0)]).err(), Some(BoardError::InvalidConfig));
    assert_eq!(Board::new_with_mines(3, &vec![(3, 0)]).err(), Some(BoardError::InvalidConfig));
    assert_eq!(Board::new_with_mines(1, &vec![(0, 0)]).err(), Some(BoardError::InvalidConfig));
    assert_eq!(Board::new_with_first_click(3, 9, (0, 0)).err(), Some(BoardError::InvalidConfig));
    assert_eq!(Board::new_with_first_click(3, 2, (3, 0)).err(), Some(BoardError::OutOfBounds));
}

#[test]
fn first_click_is_never_a_mine() {
    for _ in 0..50 {
        let b = Board::new_with_first_click(4, 15, (2, 1)).unwrap();
        assert!(!tile(&b, 2, 1).is_mine);
        assert!(tile(&b, 2, 1).exposed);
        assert_ne!(b.state(), GameState::Lost);
        assert_eq!(mines_on(&b), 15);
        assert!(counts_are_true(&b));
        // fifteen mines and one safe tile: the first click wins
        assert_eq!(b.state(), GameState::Won);
    }
    let b = Board::new_with_first_click(10, 15, (0, 0)).unwrap();
    assert!(!tile(&b, 0, 0).is_mine);
    assert_ne!(b.state(), GameState::Lost);
}

#[test]
fn zero_board_of_fifty_floods_entirely() {
    let mut b = Board::new_with_mines(50, &vec![]).unwrap();
    assert_eq!(b.click_tile(25, 25), Ok(()));
    for x in 0..50 {
        for y in 0..50 {
            assert!(tile(&b, x, y).exposed);
        }
    }
    assert_eq!(b.state(), GameState::Won);
}

#[test]
fn flood_stops_at_numbers_and_flags() {
    // mines down column 2 split the grid; the flood from (0,0) exposes
    // columns 0 and 1 only
    let mut b = Board::new_with_mines(5, &vec![(0, 2), (1, 2), (2, 2), (3, 2), (4, 2)]).unwrap();
    assert_eq!(b.toggle_flag(4, 0), Ok(()));
    assert_eq!(b.click_tile(0, 0), Ok(()));
    for x in 0..5 {
        assert_eq!(tile(&b, x, 0).exposed, x != 4);
        assert!(tile(&b, x, 1).exposed);
        assert!(!tile(&b, x, 2).exposed);
        assert!(!tile(&b, x, 3).exposed);
    }
    assert!(tile(&b, 4, 0).flagged);
    assert_eq!(b.state(), GameState::InProgress);
}

#[test]
fn scenario_small_board_flood_and_loss() {
    let mut b = Board::new_with_mines(3, &vec![(0, 0)]).unwrap();
    assert_eq!(b.click_tile(2, 2), Ok(()));
    for x in 0..3 {
        for y in 0..3 {
            assert_eq!(tile(&b, x, y).exposed, (x, y) != (0, 0));
        }
    }
    assert_eq!(tile(&b, 0, 1).adjacent, 1);
    assert_eq!(tile(&b, 1, 1).adjacent, 1);
    assert_eq!(tile(&b, 1, 2).adjacent, 0);
    // every safe tile is now exposed
    assert_eq!(b.state(), GameState::Won);

    let mut fresh = Board::new_with_mines(3, &vec![(0, 0)]).unwrap();
    assert_eq!(fresh.click_tile(0, 0), Ok(()));
    assert_eq!(fresh.state(), GameState::Lost);
    let view = serialize_board(&fresh);
    assert!(view[0][0].exposed);
    assert_eq!(view[0][0].value, Some(TileValue::Bomb));
    assert_eq!(view[2][2].value, None);
}

#[test]
fn scenario_number_click_keeps_game_going() {
    let mut b = Board::new_with_mines(3, &vec![(0, 0)]).unwrap();
    assert_eq!(b.click_tile(1, 1), Ok(()));
    assert!(tile(&b, 1, 1).exposed);
    assert!(!tile(&b, 2, 2).exposed);
    assert_eq!(b.state(), GameState::InProgress);
}

#[test]
fn scenario_two_by_two_win() {
    let mut b = Board::new_with_mines(2, &vec![(0, 0), (0, 1)]).unwrap();
    assert_eq!(b.click_tile(1, 0), Ok(()));
    assert_eq!(b.state(), GameState::InProgress);
    assert_eq!(b.click_tile(1, 1), Ok(()));
    assert!(tile(&b, 1, 0).exposed && tile(&b, 1, 1).exposed);
    assert_eq!(b.state(), GameState::Won);
}

#[test]
fn any_order_of_safe_clicks_wins() {
    let mines = vec![(0, 0), (2, 3), (3, 1)];
    let mut cells: Vec<(usize, usize)> = Vec::new();
    for x in 0..4 {
        for y in 0..4 {
            if !mines.contains(&(x, y)) {
                cells.push((x, y));
            }
        }
    }
    for order in [cells.clone(), cells.iter().rev().cloned().collect::<Vec<_>>()] {
        let mut b = Board::new_with_mines(4, &mines).unwrap();
        for (x, y) in order {
            let _ = b.click_tile(x, y);
        }
        assert_eq!(b.state(), GameState::Won);
    }
}

#[test]
fn mine_click_exposes_every_mine() {
    let mut b = Board::new_with_mines(4, &vec![(0, 0), (3, 3), (1, 2)]).unwrap();
    assert_eq!(b.toggle_flag(3, 3), Ok(()));
    assert_eq!(b.click_tile(1, 2), Ok(()));
    assert_eq!(b.state(), GameState::Lost);
    for (x, y) in [(0, 0), (3, 3), (1, 2)] {
        assert!(tile(&b, x, y).exposed);
        assert!(!tile(&b, x, y).flagged);
    }
    assert!(!tile(&b, 2, 2).exposed);
}

#[test]
fn flag_rules() {
    let mut b = Board::new_with_mines(3, &vec![(0, 0)]).unwrap();
    assert_eq!(b.click_tile(1, 1), Ok(()));
    assert_eq!(b.toggle_flag(1, 1), Err(BoardError::TileExposed));
    assert_eq!(b.toggle_flag(0, 0), Ok(()));
    assert!(tile(&b, 0, 0).flagged);
    assert_eq!(b.click_tile(0, 0), Err(BoardError::TileFlagged));
    assert_eq!(b.toggle_flag(0, 0), Ok(()));
    assert!(!tile(&b, 0, 0).flagged);
    assert_eq!(b.toggle_flag(3, 0), Err(BoardError::OutOfBounds));
    assert_eq!(b.click_tile(0, 3), Err(BoardError::OutOfBounds));
    assert_eq!(b.click_tile(1, 1), Ok(()));
    assert!(b.tile_at(3, 3).is_none());
}

#[test]
fn finished_games_refuse_actions() {
    let mut b = Board::new_with_mines(2, &vec![(0, 0)]).unwrap();
    assert_eq!(b.click_tile(0, 0), Ok(()));
    assert_eq!(b.state(), GameState::Lost);
    let before = serialize_board(&b);
    assert_eq!(b.click_tile(1, 1), Err(BoardError::GameOver));
    assert_eq!(b.toggle_flag(1, 1), Err(BoardError::GameOver));
    assert_eq!(serialize_board(&b), before);
    assert_eq!(b.state(), GameState::Lost);

    let mut w = Board::new_with_mines(2, &vec![(0, 0), (0, 1), (1, 0)]).unwrap();
    assert_eq!(w.click_tile(1, 1), Ok(()));
    assert_eq!(w.state(), GameState::Won);
    assert_eq!(w.click_tile(0, 0), Err(BoardError::GameOver));
    assert_eq!(w.toggle_flag(0, 0), Err(BoardError::GameOver));
    assert!(!tile(&w, 0, 0).exposed);
    assert_eq!(w.state(), GameState::Won);
}

#[test]
fn views_hide_unexposed_tiles() {
    let mut b = Board::new_with_mines(3, &vec![(2, 2)]).unwrap();
    assert_eq!(b.click_tile(1, 1), Ok(()));
    assert_eq!(b.toggle_flag(2, 2), Ok(()));
    let v = serialize_board(&b);
    assert_eq!(v.len(), 3);
    assert_eq!(v[1][1].value, Some(TileValue::Number(1)));
    assert_eq!(v[2][2].value, None);
    assert!(v[2][2].flagged);
    assert_eq!(v[0][0].value, None);

    let e = create_empty_board_response(4);
    assert_eq!(e.len(), 4);
    assert!(e.iter().all(|r| r.len() == 4 && r.iter().all(|t| !t.exposed && !t.flagged && t.value.is_none())));
}
