pub mod fen;
pub mod game;
pub mod geometry;
pub mod movegen;
pub mod piece;

pub use fen::{load_position_from_fen, FenError};
pub use game::{algebraic_notation_to_memory_location, init_game, move_piece_from_to, GAME, NO_SQUARE, STARTING_FEN};
pub use movegen::{
    available_moves_for_piece, bishop_movement_from_tile, king_movement_from_tile, knight_movement_from_tile,
    pawn_movement_from_tile, queen_movement_from_tile, rook_movement_from_tile,
};
pub use piece::{
    is_black_bishop, is_black_king, is_black_knight, is_black_pawn, is_black_queen, is_black_rook, is_white_bishop,
    is_white_king, is_white_knight, is_white_pawn, is_white_queen, is_white_rook, BISHOP, BLACK, EMPTY, KING, KNIGHT,
    PAWN, QUEEN, ROOK, WHITE,
};
