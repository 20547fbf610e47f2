use chess_logic::{
    algebraic_notation_to_memory_location, init_game, is_black_bishop, is_black_king, is_black_knight, is_black_pawn,
    is_black_queen, is_black_rook, is_white_bishop, is_white_king, is_white_knight, is_white_pawn, is_white_queen,
    is_white_rook, load_position_from_fen, FenError, GAME, BLACK, KING, NO_SQUARE, PAWN, QUEEN, STARTING_FEN, WHITE,
};

const START_BOARD: [u8; 64] = [
    136, 130, 132, 144, 160, 132, 130, 136, 129, 129, 129, 129, 129, 129, 129, 129, 0, 0, 0, 0, 0, 0, 0, 0, 0, 0, 0,
    0, 0, 0, 0, 0, 0, 0, 0, 0, 0, 0, 0, 0, 0, 0, 0, 0, 0, 0, 0, 0, 65, 65, 65, 65, 65, 65, 65, 65, 72, 66, 68, 80, 96,
    68, 66, 72,
];

#[test]
fn starting_position_round_trip() {
    let game = init_game();
    assert_eq!(game.get_board(), START_BOARD);
    assert!(game.is_whites_turn());
    assert_eq!(game.get_game_status(), (true, false, false, false));
    assert!(game.get_played_moves().is_empty());
}

#[test]
fn starting_position_squares_by_type_and_color() {
    let board = init_game().get_board();
    assert!(is_black_rook(board[0]) && is_black_rook(board[7]));
    assert!(is_black_knight(board[1]) && is_black_knight(board[6]));
    assert!(is_black_bishop(board[2]) && is_black_bishop(board[5]));
    assert!(is_black_queen(board[3]));
    assert!(is_black_king(board[4]));
    assert!(is_white_rook(board[56]) && is_white_rook(board[63]));
    assert!(is_white_knight(board[57]) && is_white_knight(board[62]));
    assert!(is_white_bishop(board[58]) && is_white_bishop(board[61]));
    assert!(is_white_queen(board[59]));
    assert!(is_white_king(board[60]));
    for i in 8..16 {
        assert!(is_black_pawn(board[i]));
        assert!(is_white_pawn(board[i + 40]));
    }
    for i in 16..48 {
        assert_eq!(board[i], 0);
    }
}

#[test]
fn load_standard_record() {
    let mut game = init_game();
    let r = load_position_from_fen(STARTING_FEN, &mut game);
    assert_eq!(r, Ok((START_BOARD, NO_SQUARE)));
    assert!(game.is_whites_turn());
}

#[test]
fn load_sets_black_to_move_and_numeric_en_passant() {
    let mut game = init_game();
    let r = load_position_from_fen("4k3/8/8/8/8/8/8/4K3 b - 44 3 20", &mut game);
    let mut board = [0u8; 64];
    board[4] = KING + BLACK;
    board[60] = KING + WHITE;
    assert_eq!(r, Ok((board, 44)));
    assert!(!game.is_whites_turn());
}

#[test]
fn load_accepts_extra_whitespace_and_plus_sign() {
    let mut game = init_game();
    let r = load_position_from_fen("  8/8/8/8/8/8/8/7p \t w  -  +7 0 1 ", &mut game);
    let mut board = [0u8; 64];
    board[63] = PAWN + BLACK;
    assert_eq!(r, Ok((board, 7)));
}

#[test]
fn load_errors() {
    let mut game = init_game();
    assert_eq!(load_position_from_fen("8/8/8/8/8/8/8/8 w KQkq -", &mut game), Err(FenError::FieldCount));
    assert_eq!(load_position_from_fen("8/8/8/8/8/8/8/8 w - - 0 1 x", &mut game), Err(FenError::FieldCount));
    assert_eq!(load_position_from_fen("", &mut game), Err(FenError::FieldCount));
    assert_eq!(load_position_from_fen("8/8/8/3x4/8/8/8/8 w - - 0 1", &mut game), Err(FenError::PieceSymbol));
    assert_eq!(load_position_from_fen("9/8/8/8/8/8/8/8 w - - 0 1", &mut game), Err(FenError::SquareOutOfRange));
    assert_eq!(load_position_from_fen("ppppppppp/8/8/8/8/8/8/8 w - - 0 1", &mut game), Err(FenError::SquareOutOfRange));
    assert_eq!(load_position_from_fen("8/8/8/8/8/8/8/8/8 w - - 0 1", &mut game), Err(FenError::SquareOutOfRange));
    assert_eq!(load_position_from_fen("8/8/8/8/8/8/8/8 x - - 0 1", &mut game), Err(FenError::SideToMove));
    assert_eq!(load_position_from_fen("8/8/8/8/8/8/8/8 w - e3 0 1", &mut game), Err(FenError::EnPassantSquare));
    assert_eq!(load_position_from_fen("8/8/8/8/8/8/8/8 w - 256 0 1", &mut game), Err(FenError::EnPassantSquare));
    assert_eq!(load_position_from_fen("8/8/8/8/8/8/8/8 w - + 0 1", &mut game), Err(FenError::EnPassantSquare));
}

#[test]
fn failed_load_leaves_game_unchanged() {
    let mut game = init_game();
    let before = game.get_game_status();
    assert!(load_position_from_fen("8/8/8/8/8/8/8/8 b - x 0 1", &mut game).is_err());
    assert_eq!(game.get_game_status(), before);
    assert_eq!(game.get_board(), START_BOARD);
}

#[test]
fn square_names() {
    assert_eq!(algebraic_notation_to_memory_location("a8"), 0);
    assert_eq!(algebraic_notation_to_memory_location("h8"), 7);
    assert_eq!(algebraic_notation_to_memory_location("d5"), 27);
    assert_eq!(algebraic_notation_to_memory_location("e4"), 36);
    assert_eq!(algebraic_notation_to_memory_location("a1"), 56);
    assert_eq!(algebraic_notation_to_memory_location("h1"), 63);
}

#[test]
fn piece_predicates() {
    assert!(is_white_king(KING + WHITE));
    assert!(!is_black_king(KING + WHITE));
    assert!(is_black_queen(QUEEN + BLACK));
    assert!(!is_white_queen(QUEEN + BLACK));
    assert!(!is_white_pawn(0));
    assert!(!is_black_pawn(PAWN));
    assert!(is_black_pawn(129));
}

#[test]
fn distance_table_is_consistent() {
    let table = GAME::tiles_to_the_edge();
    for sq in 0..64usize {
        let rank = (sq / 8) as u8;
        let file = (sq % 8) as u8;
        let d = table[sq];
        assert_eq!(d[0], rank);
        assert_eq!(d[1], 7 - rank);
        assert_eq!(d[2], file);
        assert_eq!(d[3], 7 - file);
        assert_eq!(d[4], d[0].min(d[2]));
        assert_eq!(d[5], d[1].min(d[3]));
        assert_eq!(d[6], d[0].min(d[3]));
        assert_eq!(d[7], d[1].min(d[2]));
    }
    assert_eq!(table[0], [0, 7, 0, 7, 0, 7, 0, 0]);
    assert_eq!(table[27], [3, 4, 3, 4, 3, 4, 3, 3]);
    assert_eq!(table[63], [7, 0, 7, 0, 7, 0, 0, 0]);
}
