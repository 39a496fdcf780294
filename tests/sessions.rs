use sweeper::board::{BoardError, GameState};
use sweeper::registry::{Registry, ID_LEN};
use sweeper::view::TileValue;

#[test]
fn deferred_session_lifecycle() {
    let mut r = Registry::new();
    let id = r.create_deferred(5, 3).unwrap();
    assert_eq!(id.len(), ID_LEN);
    assert!(id.chars().all(|c| c.is_ascii_alphanumeric()));
    let v = r.game_view(&id).unwrap();
    assert_eq!((v.size, v.mine_count, v.state), (5, 3, GameState::InProgress));
    assert!(v.board.iter().all(|row| row.len() == 5 && row.iter().all(|t| !t.exposed && t.value.is_none())));

    let f = r.toggle_flag(&id, 0, 0).unwrap();
    assert_eq!(f.result, Err(BoardError::GameNotStarted));

    let bad = r.click_tile(&id, 9, 9).unwrap();
    assert_eq!(bad.result, Err(BoardError::OutOfBounds));

    let c = r.click_tile(&id, 2, 2).unwrap();
    assert_eq!(c.result, Ok(()));
    assert_ne!(c.state, GameState::Lost);
    assert!(c.board[2][2].exposed);
    assert_ne!(c.board[2][2].value, Some(TileValue::Bomb));

    let v2 = r.game_view(&id).unwrap();
    assert_eq!(v2.board, c.board);
}

#[test]
fn configurations_and_unknown_ids() {
    let mut r = Registry::new();
    assert_eq!(r.create_deferred(3, 9), Err(BoardError::InvalidConfig));
    assert_eq!(r.create_deferred(0, 0), Err(BoardError::InvalidConfig));
    assert!(r.create_immediate(2, 4).is_err());
    let missing = String::from("nothere1");
    assert!(r.game_view(&missing).is_err());
    assert_eq!(r.click_tile(&missing, 0, 0).err(), Some(BoardError::NotFound));
    assert_eq!(r.toggle_flag(&missing, 0, 0).err(), Some(BoardError::NotFound));
    assert!(Registry::valid_config(3, 8));
    assert!(!Registry::valid_config(3, 9));
    assert!(!Registry::valid_config(usize::MAX, 1));
}

#[test]
fn immediate_session_and_distinct_ids() {
    let mut r = Registry::new();
    let (id, v) = r.create_immediate(6, 5).unwrap();
    assert_eq!((v.size, v.mine_count, v.state), (6, 5, GameState::InProgress));
    assert!(v.board.iter().all(|row| row.iter().all(|t| !t.exposed)));
    let f = r.toggle_flag(&id, 1, 1).unwrap();
    assert_eq!(f.result, Ok(()));
    assert!(f.board[1][1].flagged);
    let f2 = r.toggle_flag(&id, 1, 1).unwrap();
    assert!(!f2.board[1][1].flagged);

    let mut ids = vec![id];
    for _ in 0..20 {
        ids.push(r.create_deferred(4, 2).unwrap());
    }
    let mut sorted = ids.clone();
    sorted.sort();
    sorted.dedup();
    assert_eq!(sorted.len(), ids.len());
}

#[test]
fn sessions_with_identical_layouts_are_independent() {
    let mut r = Registry::new();
    let a = r.create_deferred(2, 0).unwrap();
    let b = r.create_deferred(2, 0).unwrap();
    assert_eq!(r.click_tile(&a, 0, 0).unwrap().state, GameState::Won);
    let vb = r.game_view(&b).unwrap();
    assert!(vb.board.iter().all(|row| row.iter().all(|t| !t.exposed)));
    assert_eq!(r.click_tile(&b, 1, 1).unwrap().state, GameState::Won);
}

#[test]
fn pending_until_first_click() {
    let mut r = Registry::new();
    let id = r.create_deferred(50, 0).unwrap();
    assert!(r.is_pending(&id));
    assert!(!r.is_pending(&String::from("unknown1")));
    let c = r.click_tile(&id, 0, 0).unwrap();
    assert!(!r.is_pending(&id));
    assert_eq!(c.state, GameState::Won);
    assert_eq!(c.board.len(), 50);
    assert!(c.board.iter().all(|row| row.len() == 50
        && row.iter().all(|t| t.exposed && !t.flagged && t.value == Some(TileValue::Number(0)))));
}

#[test]
fn first_session_in_empty_registry_is_created() {
    let mut r = Registry::new();
    let (id, v) = r.create_immediate(3, 8).unwrap();
    assert_eq!(id.len(), ID_LEN);
    assert_eq!(v.board.len(), 3);
    let c = r.click_tile(&id, 1, 1).unwrap();
    assert!(c.board[1][1].exposed);
    match c.board[1][1].value {
        Some(TileValue::Number(n)) => assert!(n <= 8),
        Some(TileValue::Bomb) => assert_eq!(c.state, GameState::Lost),
        None => panic!("clicked tile must show a value"),
    }
}
