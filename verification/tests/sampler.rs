use go_engine::gen_move::MoveTree;
use go_engine::go_board::new_board;
use go_engine::go_board::GoBoard;
use go_engine::go_board::Player;
use go_engine::go_board::Position;

fn pos(row: u8, col: u8) -> Position {
    Position { row, col }
}

#[test]
fn fresh_move_tree_is_empty() {
    let t = MoveTree::new();
    assert_eq!(t.step, 0);
    assert_eq!(t.current_pos, None);
    assert_eq!(t.current_color, None);
    assert_eq!(t.board.size, (9, 9));
    assert_eq!(t.board.state.len(), 0);
}

#[test]
fn single_stone_group_holds_one_stone() {
    let g = go_engine::stone_group::StoneGroup::new_single_move_group(pos(4, 7), Player::White);
    assert_eq!(g.chain, vec![pos(4, 7)]);
    assert_eq!(g.color, Player::White);
    assert_eq!(g.liberty, 4);
}

#[test]
fn legal_moves_lists_every_free_cell() {
    let mut b = new_board(2, 3);
    assert_eq!(b.legal_moves().len(), 6);
    b.play(pos(2, 2), Player::Black).unwrap();
    let moves = b.legal_moves();
    assert_eq!(moves.len(), 5);
    assert!(!moves.contains(&pos(2, 2)));
    assert!(moves.contains(&pos(1, 3)));
}

#[test]
fn has_legal_move_sees_a_full_board() {
    let mut b = new_board(1, 1);
    assert!(b.has_legal_move());
    b.play(pos(1, 1), Player::Black).unwrap();
    assert!(!b.has_legal_move());
    let big = GoBoard::new();
    assert!(big.has_legal_move());
}

#[test]
fn sampled_move_is_the_only_free_cell() {
    // with one vacant cell left, the sampler has no choice
    let mut t = MoveTree::new();
    t.board = new_board(1, 2);
    t.board.play(pos(1, 1), Player::Black).unwrap();
    let p = t.gen_move_randomly();
    assert_eq!(p, pos(1, 2));
}

#[test]
fn sampled_moves_are_always_legal() {
    let mut t = MoveTree::new();
    for _ in 0..20 {
        let p = t.gen_move_randomly();
        assert!(t.board.move_is_legal(p));
        t.board.play(p, Player::Black).unwrap();
    }
    assert_eq!(t.board.state.len(), 20);
}

#[test]
fn place_a_move_records_what_it_played() {
    let mut t = MoveTree::new();
    t.place_a_move(Player::Black);
    assert_eq!(t.step, 1);
    assert_eq!(t.current_color, Some(Player::Black));
    let first = t.current_pos.expect("a move was placed");
    assert_eq!(t.board.occupant(first), Some(Player::Black));
    t.place_a_move(Player::White);
    assert_eq!(t.step, 2);
    assert_eq!(t.current_color, Some(Player::White));
    assert_eq!(t.board.state.len(), 2);
    assert_eq!(t.board.groups.iter().map(|g| g.chain.len()).sum::<usize>(), 2);
}

#[test]
fn driver_fills_a_small_board_completely() {
    let mut t = MoveTree::new();
    t.board = new_board(2, 2);
    let mut color = Player::Black;
    while t.board.has_legal_move() {
        t.place_a_move(color);
        color = color.next();
    }
    assert_eq!(t.board.state.len(), 4);
    assert_eq!(t.step, 4);
}
