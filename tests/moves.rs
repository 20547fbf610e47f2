use chess_logic::{
    available_moves_for_piece, bishop_movement_from_tile, init_game, king_movement_from_tile,
    knight_movement_from_tile, load_position_from_fen, move_piece_from_to, pawn_movement_from_tile,
    queen_movement_from_tile, rook_movement_from_tile, BISHOP, BLACK, KING, KNIGHT, NO_SQUARE, PAWN, QUEEN, ROOK,
    WHITE, GAME,
};

fn count(mask: &[bool; 64]) -> usize {
    mask.iter().filter(|m| **m).count()
}

fn marked(mask: &[bool; 64]) -> Vec<usize> {
    (0..64).filter(|i| mask[*i]).collect()
}

#[test]
fn lone_rook_on_d5_has_fourteen_moves() {
    let mut board = [0u8; 64];
    board[27] = ROOK + WHITE;
    let mask = rook_movement_from_tile(board, ROOK + WHITE, 27, GAME::tiles_to_the_edge());
    assert_eq!(count(&mask), 14);
    assert_eq!(marked(&mask), vec![3, 11, 19, 24, 25, 26, 28, 29, 30, 31, 35, 43, 51, 59]);
}

#[test]
fn lone_knight_in_corner_has_two_moves() {
    let mut board = [0u8; 64];
    board[0] = KNIGHT + BLACK;
    let mask = knight_movement_from_tile(board, KNIGHT + BLACK, 0, GAME::tiles_to_the_edge());
    assert_eq!(marked(&mask), vec![10, 17]);
}

#[test]
fn knight_in_centre_and_on_edge() {
    let board = [0u8; 64];
    let table = GAME::tiles_to_the_edge();
    assert_eq!(count(&knight_movement_from_tile(board, KNIGHT + WHITE, 27, table)), 8);
    assert_eq!(marked(&knight_movement_from_tile(board, KNIGHT + WHITE, 7, table)), vec![13, 22]);
}

#[test]
fn sliding_pieces_stop_at_blockers() {
    let mut board = [0u8; 64];
    board[27] = QUEEN + WHITE;
    board[11] = PAWN + WHITE;
    board[29] = PAWN + BLACK;
    let table = GAME::tiles_to_the_edge();
    let mask = queen_movement_from_tile(board, QUEEN + WHITE, 27, table);
    assert!(mask[19]);
    assert!(!mask[11] && !mask[3]);
    assert!(mask[28] && mask[29]);
    assert!(!mask[30]);
    assert_eq!(count(&mask), 23);
    let bishop = bishop_movement_from_tile(board, BISHOP + WHITE, 27, table);
    assert_eq!(count(&bishop), 13);
}

#[test]
fn king_moves() {
    let mut board = [0u8; 64];
    board[1] = PAWN + BLACK;
    board[8] = PAWN + WHITE;
    let table = GAME::tiles_to_the_edge();
    assert_eq!(marked(&king_movement_from_tile(board, KING + WHITE, 0, table)), vec![1, 9]);
    assert_eq!(count(&king_movement_from_tile([0u8; 64], KING + WHITE, 27, table)), 8);
}

#[test]
fn pawn_moves() {
    let table = GAME::tiles_to_the_edge();
    let mut board = [0u8; 64];
    board[52] = PAWN + WHITE;
    board[43] = KNIGHT + BLACK;
    let (mask, skip) = pawn_movement_from_tile(board, PAWN + WHITE, 52, table, NO_SQUARE);
    assert_eq!(marked(&mask), vec![36, 43, 44]);
    assert_eq!(skip, Some(44));
    board[36] = PAWN + BLACK;
    let (mask, skip) = pawn_movement_from_tile(board, PAWN + WHITE, 52, table, NO_SQUARE);
    assert_eq!(marked(&mask), vec![43, 44]);
    assert_eq!(skip, None);
    let (mask, _) = pawn_movement_from_tile(board, PAWN + BLACK, 36, table, 45);
    assert_eq!(marked(&mask), vec![44, 45]);
}

#[test]
fn dispatch_records_pending_double_push() {
    let mut game = init_game();
    let board = game.get_board();
    let mask = available_moves_for_piece(board[52], 52, &mut game);
    assert_eq!(marked(&mask), vec![36, 44]);
    let mask = available_moves_for_piece(board[57], 57, &mut game);
    assert_eq!(marked(&mask), vec![40, 42]);
    assert_eq!(game.get_board(), board);
}

#[test]
fn en_passant_right_after_double_push() {
    let mut game = init_game();
    assert!(move_piece_from_to("a2", "a3", &mut game));
    assert!(move_piece_from_to("d7", "d5", &mut game));
    assert!(move_piece_from_to("a3", "a4", &mut game));
    assert!(move_piece_from_to("d5", "d4", &mut game));
    assert!(move_piece_from_to("e2", "e4", &mut game));
    assert!(move_piece_from_to("d4", "e3", &mut game));
    let board = game.get_board();
    assert_eq!(board[44], PAWN + BLACK);
    assert_eq!(board[36], 0);
    assert_eq!(board[35], 0);
}

#[test]
fn en_passant_lapses_after_another_move() {
    let mut game = init_game();
    assert!(move_piece_from_to("a2", "a3", &mut game));
    assert!(move_piece_from_to("d7", "d5", &mut game));
    assert!(move_piece_from_to("a3", "a4", &mut game));
    assert!(move_piece_from_to("d5", "d4", &mut game));
    assert!(move_piece_from_to("e2", "e4", &mut game));
    assert!(move_piece_from_to("h7", "h6", &mut game));
    assert!(move_piece_from_to("h2", "h3", &mut game));
    let before = game.get_board();
    assert!(!move_piece_from_to("d4", "e3", &mut game));
    assert_eq!(game.get_board(), before);
}

#[test]
fn side_to_move_alternates() {
    let mut game = init_game();
    assert!(game.is_whites_turn());
    assert!(move_piece_from_to("g1", "f3", &mut game));
    assert!(!game.is_whites_turn());
    assert!(!move_piece_from_to("g1", "f3", &mut game));
    assert!(!game.is_whites_turn());
    assert!(move_piece_from_to("b8", "c6", &mut game));
    assert!(game.is_whites_turn());
    assert_eq!(game.get_played_moves(), &vec![[62u8, 45u8], [1u8, 18u8]]);
}

#[test]
fn rejected_moves_leave_board_unchanged() {
    let mut game = init_game();
    let before = game.get_board();
    assert!(!move_piece_from_to("e7", "e5", &mut game));
    assert_eq!(game.get_board(), before);
    assert!(!move_piece_from_to("e2", "e5", &mut game));
    assert_eq!(game.get_board(), before);
    assert!(!move_piece_from_to("a1", "a3", &mut game));
    assert!(!move_piece_from_to("e4", "e5", &mut game));
    assert_eq!(game.get_board(), before);
    assert!(game.is_whites_turn());
    assert!(game.get_played_moves().is_empty());
}

#[test]
fn captures_replace_the_enemy_piece() {
    let mut game = init_game();
    assert!(move_piece_from_to("e2", "e4", &mut game));
    assert!(move_piece_from_to("d7", "d5", &mut game));
    assert!(move_piece_from_to("e4", "d5", &mut game));
    let board = game.get_board();
    assert_eq!(board[27], PAWN + WHITE);
    assert_eq!(board[36], 0);
    let mut other = init_game();
    let (placed, ep) = load_position_from_fen("4k3/8/8/3p4/8/8/8/4K3 w - - 0 1", &mut other).unwrap();
    assert_eq!(ep, NO_SQUARE);
    assert_eq!(placed[27], PAWN + BLACK);
}

#[test]
fn byte_without_type_has_no_destinations() {
    let mut game = init_game();
    assert_eq!(count(&available_moves_for_piece(0, 20, &mut game)), 0);
    assert_eq!(count(&available_moves_for_piece(WHITE, 20, &mut game)), 0);
    assert!(!move_piece_from_to("e4", "e5", &mut game));
}

#[test]
fn destinations_never_hold_friendly_pieces() {
    let mut game = init_game();
    let board = game.get_board();
    for from in 48..64usize {
        let mask = available_moves_for_piece(board[from], from, &mut game);
        for t in 0..64usize {
            if mask[t] {
                assert!(t != from);
                assert_eq!(board[t] & WHITE, 0);
            }
        }
    }
}
