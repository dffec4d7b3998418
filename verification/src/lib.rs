pub mod gen_move;
pub mod go_board;
pub mod registry;
pub mod stone_group;
