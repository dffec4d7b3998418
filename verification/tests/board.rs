use go_engine::go_board::new_board;
use go_engine::go_board::GoBoard;
use go_engine::go_board::IllegalMove;
use go_engine::go_board::Player;
use go_engine::go_board::Position;

fn pos(row: u8, col: u8) -> Position {
    Position { row, col }
}

#[test]
fn next_player_alternates() {
    assert_eq!(Player::Black.next(), Player::White);
    assert_eq!(Player::White.next(), Player::Black);
    assert_eq!(Player::Black.next().next(), Player::Black);
}

#[test]
fn new_board_is_empty_nine_by_nine() {
    let b = GoBoard::new();
    assert_eq!(b.size, (9, 9));
    assert_eq!(b.state.len(), 0);
    assert_eq!(b.groups.len(), 0);
}

#[test]
fn new_board_takes_custom_size() {
    let b = new_board(19, 19);
    assert_eq!(b.size, (19, 19));
    assert_eq!(b.state.len(), 0);
    let c = new_board(5, 4);
    assert!(c.move_is_legal(pos(5, 4)));
    assert!(!c.move_is_legal(pos(6, 4)));
    assert!(!c.move_is_legal(pos(5, 5)));
}

#[test]
fn occupied_move_is_rejected_and_changes_nothing() {
    let mut b = GoBoard::new();
    b.play(pos(3, 3), Player::Black).unwrap();
    let snapshot = format!("{:?}", b);
    let r = b.play(pos(3, 3), Player::White);
    assert_eq!(r, Err(IllegalMove::Occupied));
    assert_eq!(format!("{:?}", b), snapshot);
    let r2 = b.play(pos(3, 3), Player::Black);
    assert_eq!(r2, Err(IllegalMove::Occupied));
    assert_eq!(format!("{:?}", b), snapshot);
}

#[test]
fn out_of_bounds_move_is_rejected_and_changes_nothing() {
    let mut b = GoBoard::new();
    b.play(pos(1, 1), Player::Black).unwrap();
    let snapshot = format!("{:?}", b);
    for p in [pos(0, 3), pos(3, 0), pos(10, 3), pos(3, 10), pos(0, 0), pos(255, 255)] {
        let r = b.play(p, Player::White);
        assert_eq!(r, Err(IllegalMove::OutOfBounds));
        assert_eq!(format!("{:?}", b), snapshot);
    }
}

#[test]
fn merge_of_two_groups_through_a_bridge_stone() {
    let mut b = GoBoard::new();
    b.play(pos(2, 2), Player::Black).unwrap();
    b.play(pos(4, 2), Player::Black).unwrap();
    assert_eq!(b.groups.len(), 2);
    assert!(b.groups.iter().all(|g| g.chain.len() == 1));
    let before = b.groups.len();
    b.play(pos(3, 2), Player::Black).unwrap();
    assert_eq!(b.groups.len(), before - 1);
    assert_eq!(b.groups.len(), 1);
    assert_eq!(b.groups[0].chain.len(), 3);
    for p in [pos(2, 2), pos(3, 2), pos(4, 2)] {
        assert!(b.groups[0].chain.contains(&p));
    }
}

#[test]
fn merge_of_three_groups_through_a_bridge_stone() {
    let mut b = GoBoard::new();
    // three isolated stones around (2,2)
    b.play(pos(1, 2), Player::Black).unwrap();
    b.play(pos(3, 2), Player::Black).unwrap();
    b.play(pos(2, 1), Player::Black).unwrap();
    assert_eq!(b.groups.len(), 3);
    assert!(b.groups.iter().all(|g| g.chain.len() == 1));
    // the bridge is adjacent to all three at once
    b.play(pos(2, 2), Player::Black).unwrap();
    assert_eq!(b.groups.len(), 1);
    assert_eq!(b.groups[0].chain.len(), 4);
    for p in [pos(1, 2), pos(3, 2), pos(2, 1), pos(2, 2)] {
        assert!(b.groups[0].chain.contains(&p));
    }
    assert!(b.groups.iter().all(|g| !g.chain.is_empty()));
}

#[test]
fn opposite_colors_stay_in_separate_groups() {
    let mut b = GoBoard::new();
    b.play(pos(5, 5), Player::Black).unwrap();
    b.play(pos(5, 6), Player::White).unwrap();
    assert_eq!(b.groups.len(), 2);
    assert!(b.groups.iter().all(|g| g.chain.len() == 1));
    let black = b.groups.iter().find(|g| g.color == Player::Black).unwrap();
    let white = b.groups.iter().find(|g| g.color == Player::White).unwrap();
    assert!(black.chain.contains(&pos(5, 5)));
    assert!(white.chain.contains(&pos(5, 6)));
}

#[test]
fn stone_surrounded_by_other_color_starts_singleton_group() {
    let mut b = GoBoard::new();
    // white stone whose occupied neighbors are all black
    b.play(pos(4, 5), Player::Black).unwrap();
    b.play(pos(6, 5), Player::Black).unwrap();
    b.play(pos(5, 4), Player::Black).unwrap();
    b.play(pos(5, 6), Player::Black).unwrap();
    let groups_before = b.groups.len();
    b.play(pos(5, 5), Player::White).unwrap();
    assert_eq!(b.groups.len(), groups_before + 1);
    let white = b.groups.iter().find(|g| g.color == Player::White).unwrap();
    assert_eq!(white.chain.len(), 1);
    assert!(white.chain.contains(&pos(5, 5)));
}

#[test]
fn neighbor_counts_follow_the_grid() {
    let b = GoBoard::new();
    for corner in [pos(1, 1), pos(1, 9), pos(9, 1), pos(9, 9)] {
        assert_eq!(b.get_neighbors(corner).len(), 2);
    }
    for edge in [pos(1, 5), pos(5, 1), pos(9, 5), pos(5, 9)] {
        assert_eq!(b.get_neighbors(edge).len(), 3);
    }
    for inner in [pos(5, 5), pos(2, 2), pos(8, 8)] {
        assert_eq!(b.get_neighbors(inner).len(), 4);
    }
    let tiny = new_board(2, 2);
    for corner in [pos(1, 1), pos(1, 2), pos(2, 1), pos(2, 2)] {
        assert_eq!(tiny.get_neighbors(corner).len(), 2);
    }
}

#[test]
fn neighbors_of_a_corner_are_exact() {
    let b = GoBoard::new();
    let n = b.get_neighbors(pos(1, 1));
    assert_eq!(n.len(), 2);
    assert!(n.contains(&pos(2, 1)));
    assert!(n.contains(&pos(1, 2)));
    let m = b.get_neighbors(pos(5, 5));
    for q in [pos(4, 5), pos(6, 5), pos(5, 4), pos(5, 6)] {
        assert!(m.contains(&q));
    }
}

#[test]
fn legality_queries_are_idempotent() {
    let mut b = GoBoard::new();
    let p = pos(3, 3);
    let first = b.move_is_legal(p);
    for _ in 0..10 {
        assert_eq!(b.move_is_legal(p), first);
    }
    assert!(first);
    b.play(p, Player::Black).unwrap();
    let second = b.move_is_legal(p);
    assert!(!second);
    for _ in 0..10 {
        assert_eq!(b.move_is_legal(p), second);
    }
}

#[test]
fn occupant_reports_the_stone() {
    let mut b = GoBoard::new();
    assert_eq!(b.occupant(pos(2, 2)), None);
    assert!(b.is_empty(pos(2, 2)));
    b.play(pos(2, 2), Player::White).unwrap();
    assert_eq!(b.occupant(pos(2, 2)), Some(Player::White));
    assert!(!b.is_empty(pos(2, 2)));
    assert_eq!(b.occupant(pos(2, 3)), None);
}

#[test]
fn every_stone_lies_in_exactly_one_group() {
    let mut b = GoBoard::new();
    let moves = [
        (pos(1, 1), Player::Black),
        (pos(1, 2), Player::White),
        (pos(2, 1), Player::Black),
        (pos(2, 2), Player::White),
        (pos(3, 3), Player::Black),
        (pos(3, 4), Player::Black),
        (pos(9, 9), Player::White),
    ];
    for (p, c) in moves {
        b.play(p, c).unwrap();
    }
    for (p, c) in &b.state {
        let holders: Vec<_> = b.groups.iter().filter(|g| g.chain.contains(p)).collect();
        assert_eq!(holders.len(), 1);
        assert_eq!(holders[0].color, *c);
    }
    let total: usize = b.groups.iter().map(|g| g.chain.len()).sum();
    assert_eq!(total, b.state.len());
}
