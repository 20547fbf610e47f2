use vstd::prelude::*;
use crate::fen::{empty_board, fen_fields, fen_position, load_position_from_fen, place_from, FenError, FenPosition};
use crate::geometry::{edge_distance, file_of, is_distance_table, rank_of};
use crate::movegen::{available_moves_for_piece, legal_destination, lemma_no_friendly_destination, moves_as_pawn};
use crate::piece::{enemy_color, has_bit, is_piece_type, is_square_value, BISHOP, BLACK, EMPTY, KING, KNIGHT, PAWN, QUEEN, ROOK, WHITE};

verus! {

/// The en-passant value meaning "no square".
pub const NO_SQUARE: u8 = 100;

/// A chess position: the board, whose turn it is, en-passant and castling
/// bookkeeping, the moves played, and the (never computed) status flags.
pub struct GAME {
    pub(crate) computed_distances: [[u8; 8]; 64],
    pub(crate) board: [u8; 64],
    pub(crate) turn: u8,
    pub(crate) moves: Vec<[u8; 2]>,
    pub(crate) tile_available_to_un_passant: u8,
    pub(crate) potential_tile_to_un_passant: u8,
    pub(crate) chastling_ability: [bool; 4],
    pub(crate) check: bool,
    pub(crate) draw: bool,
    pub(crate) check_mate: bool,
}

/// Every square is empty or holds one piece, and the en-passant square is
/// empty or off the board.
pub open spec fn sound_position(v: GameView) -> bool {
    &&& v.board.len() == 64
    &&& forall|i: int| 0 <= i < 64 ==> is_square_value(#[trigger] v.board[i])
    &&& (v.en_passant >= 64 || v.board[v.en_passant as int] == 0)
}

/// What a position is, as plain values.
pub struct GameView {
    pub board: Seq<u8>,
    pub white_to_move: bool,
    /// Square a pawn may capture onto en passant, or `NO_SQUARE`.
    pub en_passant: u8,
    /// White king-side, White queen-side, Black king-side, Black queen-side.
    pub castling: Seq<bool>,
    /// Each move played, as (from, to) square indices.
    pub moves: Seq<(u8, u8)>,
    pub check: bool,
    pub draw: bool,
    pub check_mate: bool,
}

impl View for GAME {
    type V = GameView;

    closed spec fn view(&self) -> GameView {
        GameView {
            board: self.board@,
            white_to_move: self.turn == WHITE,
            en_passant: self.tile_available_to_un_passant,
            castling: self.chastling_ability@,
            moves: self.moves@.map_values(|m: [u8; 2]| (m[0], m[1])),
            check: self.check,
            draw: self.draw,
            check_mate: self.check_mate,
        }
    }
}

impl GAME {
    /// The distance table is exact and the side to move is one of the two colors.
    pub closed spec fn wf(&self) -> bool {
        &&& is_distance_table(self.computed_distances)
        &&& (self.turn == WHITE || self.turn == BLACK)
        &&& sound_position(self@)
    }

    /// A well-formed game holds a sound position.
    pub proof fn lemma_wf_sound(&self)
        requires
            self.wf(),
        ensures
            sound_position(self@),
    {
    }

    /// Square recorded by the last pawn whose two-square advance was found open.
    pub closed spec fn pending_en_passant(&self) -> u8 {
        self.potential_tile_to_un_passant
    }

    pub(crate) proof fn lemma_view_parts(&self)
        ensures
            self@.board == self.board@,
            self@.en_passant == self.tile_available_to_un_passant,
            self@.white_to_move == (self.turn == WHITE),
            self.pending_en_passant() == self.potential_tile_to_un_passant,
            self.wf() == (is_distance_table(self.computed_distances) && (self.turn == WHITE || self.turn == BLACK)
                && sound_position(self@)),
            self.same_but_pending(*self),
    {
    }

    /// Equal to `other` in every field but the pending en-passant square.
    pub closed spec fn same_but_pending(&self, other: GAME) -> bool {
        *self == (GAME { potential_tile_to_un_passant: self.potential_tile_to_un_passant, ..other })
    }

    pub(crate) proof fn lemma_same_but_pending(&self, other: GAME)
        requires
            self.same_but_pending(other),
        ensures
            self@ == other@,
            self.wf() == other.wf(),
            self.pending_en_passant() == other.pending_en_passant() ==> *self == other,
    {
    }

    pub(crate) fn set_pending_en_passant(&mut self, square: u8)
        ensures
            final(self)@ == old(self)@,
            final(self).wf() == old(self).wf(),
            final(self).pending_en_passant() == square,
            final(self).same_but_pending(*old(self)),
    {
        self.potential_tile_to_un_passant = square;
    }

    pub(crate) fn set_side_and_castling(&mut self, white: bool, rights: [bool; 4])
        requires
            old(self).wf(),
        ensures
            final(self).wf(),
            final(self)@ == (GameView { white_to_move: white, castling: rights@, ..old(self)@ }),
    {
        self.turn = if white { WHITE } else { BLACK };
        self.chastling_ability = rights;
    }

    /// Distances to the board edge of every square in the eight directions.
    pub fn tiles_to_the_edge() -> (table: [[u8; 8]; 64])
        ensures
            is_distance_table(table),
    {
        let mut table = [[0u8; 8]; 64];
        let mut square: usize = 0;
        while square < 64
            invariant
                square <= 64,
                forall|sq: int, d: int|
                    0 <= sq < square && 0 <= d < 8 ==> #[trigger] table[sq][d] == edge_distance(sq, d),
            decreases 64 - square,
        {
            let rank: u8 = (square / 8) as u8;
            let file: u8 = (square % 8) as u8;
            let north: u8 = rank;
            let south: u8 = 7 - rank;
            let west: u8 = file;
            let east: u8 = 7 - file;
            let north_west: u8 = if north < west { north } else { west };
            let south_east: u8 = if south < east { south } else { east };
            let north_east: u8 = if north < east { north } else { east };
            let south_west: u8 = if south < west { south } else { west };
            let row: [u8; 8] = [north, south, west, east, north_west, south_east, north_east, south_west];
            assert(rank == rank_of(square as int) && file == file_of(square as int));
            assert forall|d: int| 0 <= d < 8 implies #[trigger] row[d] == edge_distance(square as int, d) by {
                if d == 0 {
                } else if d == 1 {
                } else if d == 2 {
                } else if d == 3 {
                } else if d == 4 {
                } else if d == 5 {
                } else if d == 6 {
                } else {
                }
            }
            table[square] = row;
            square += 1;
        }
        table
    }

    fn generate_board_array() -> (r: [u8; 64])
        ensures
            r@ == empty_board(),
    {
        let board = [0u8; 64];
        assert(board@ =~= empty_board());
        board
    }

    pub fn get_board(&self) -> (r: [u8; 64])
        ensures
            r@ == self@.board,
    {
        self.board
    }

    pub fn get_played_moves(&self) -> (r: &Vec<[u8; 2]>)
        ensures
            r@.map_values(|m: [u8; 2]| (m[0], m[1])) == self@.moves,
    {
        &self.moves
    }

    pub fn is_check(&self) -> (r: bool)
        ensures
            r == self@.check,
    {
        self.check
    }

    pub fn is_check_mate(&self) -> (r: bool)
        ensures
            r == self@.check_mate,
    {
        self.check_mate
    }

    pub fn is_draw(&self) -> (r: bool)
        ensures
            r == self@.draw,
    {
        self.draw
    }

    pub fn is_whites_turn(&self) -> (r: bool)
        ensures
            r == self@.white_to_move,
    {
        self.turn == WHITE
    }

    /// Whose turn, in check, drawn, checkmated.
    pub fn get_game_status(&self) -> (r: (bool, bool, bool, bool))
        ensures
            r == (self@.white_to_move, self@.check, self@.draw, self@.check_mate),
    {
        (self.is_whites_turn(), self.is_check(), self.is_draw(), self.is_check_mate())
    }
}

/// Two characters: a file letter 'a'..'h' then a rank digit '1'..'8'.
pub open spec fn is_square_name(s: Seq<char>) -> bool {
    &&& s.len() == 2
    &&& 'a' <= s[0] <= 'h'
    &&& '1' <= s[1] <= '8'
}

/// Board index of a square name: rank 8 is row 0, file 'a' is column 0.
pub open spec fn square_of_name(s: Seq<char>) -> int {
    (8 - (s[1] as int - '0' as int)) * 8 + (s[0] as int - 'a' as int)
}

/// Board index of a square given by name, such as "e4".
pub fn algebraic_notation_to_memory_location(algebraic_notation: &str) -> (r: usize)
    requires
        is_square_name(algebraic_notation@),
    ensures
        r == square_of_name(algebraic_notation@),
        r < 64,
{
    let letter = algebraic_notation.get_char(0);
    let digit = algebraic_notation.get_char(1);
    let file = (letter as u32 - 'a' as u32) as usize;
    let rank = (8 - (digit as u32 - '0' as u32)) as usize;
    rank * 8 + file
}

/// The piece belongs to the side to move.
pub open spec fn belongs_to_mover(white_to_move: bool, piece: u8) -> bool {
    if white_to_move {
        has_bit(piece, WHITE)
    } else {
        has_bit(piece, BLACK)
    }
}

/// Moving the piece on `from` to `to` is accepted.
pub open spec fn move_allowed(v: GameView, from: int, to: int) -> bool {
    &&& belongs_to_mover(v.white_to_move, v.board[from])
    &&& legal_destination(v.board, v.en_passant, v.board[from], from, to)
}

/// A pawn steps diagonally onto the en-passant square.
pub open spec fn is_en_passant_capture(v: GameView, from: int, to: int) -> bool {
    let piece = v.board[from];
    &&& moves_as_pawn(piece)
    &&& to == v.en_passant as int
    &&& if has_bit(piece, WHITE) {
        to == from - 7 || to == from - 9
    } else {
        to == from + 7 || to == from + 9
    }
}

/// The square of the pawn taken en passant: one rank behind the destination.
pub open spec fn en_passant_victim(piece: u8, to: int) -> int {
    if has_bit(piece, WHITE) {
        to + 8
    } else {
        to - 8
    }
}

/// A pawn advances two squares.
pub open spec fn is_double_push(piece: u8, from: int, to: int) -> bool {
    &&& moves_as_pawn(piece)
    &&& if has_bit(piece, WHITE) {
        to == from - 16
    } else {
        to == from + 16
    }
}

/// The square a two-square advance from `from` skips over.
pub open spec fn skipped_square(piece: u8, from: int) -> int {
    if has_bit(piece, WHITE) {
        from - 8
    } else {
        from + 8
    }
}

/// The position after an accepted move from `from` to `to`.
pub open spec fn after_move(v: GameView, from: int, to: int) -> GameView {
    let piece = v.board[from];
    let cleared = if is_en_passant_capture(v, from, to) {
        v.board.update(en_passant_victim(piece, to), 0)
    } else {
        v.board
    };
    GameView {
        board: cleared.update(from, 0).update(to, piece),
        white_to_move: !v.white_to_move,
        en_passant: if is_double_push(piece, from, to) {
            skipped_square(piece, from) as u8
        } else {
            NO_SQUARE
        },
        moves: v.moves.push((from as u8, to as u8)),
        ..v
    }
}

/// Moves the piece on `from_tile` to `to_tile` when it belongs to the side to
/// move and `to_tile` is one of its destinations; otherwise leaves the game as
/// it is and returns false.
pub fn move_piece_from_to(from_tile: &str, to_tile: &str, game: &mut GAME) -> (r: bool)
    requires
        old(game).wf(),
        is_square_name(from_tile@),
        is_square_name(to_tile@),
    ensures
        final(game).wf(),
        r == move_allowed(old(game)@, square_of_name(from_tile@), square_of_name(to_tile@)),
        r ==> final(game)@.white_to_move == !old(game)@.white_to_move,
        !r ==> final(game)@.white_to_move == old(game)@.white_to_move && final(game)@.board == old(game)@.board,
        r ==> final(game)@ == after_move(old(game)@, square_of_name(from_tile@), square_of_name(to_tile@)),
        !r ==> *final(game) == *old(game),
{
    let from = algebraic_notation_to_memory_location(from_tile);
    let to = algebraic_notation_to_memory_location(to_tile);
    let ghost v = game@;
    proof {
        game.lemma_view_parts();
    }
    let piece = game.board[from];
    let mover_owns = if game.turn == WHITE {
        piece & WHITE != 0
    } else {
        piece & BLACK != 0
    };
    if !mover_owns {
        return false;
    }
    let saved = game.potential_tile_to_un_passant;
    let mask = available_moves_for_piece(piece, from, game);
    if !mask[to] {
        let ghost mid = *game;
        game.set_pending_en_passant(saved);
        proof {
            game.lemma_same_but_pending(mid);
            mid.lemma_same_but_pending(*old(game));
            assert(game.same_but_pending(*old(game)));
            game.lemma_same_but_pending(*old(game));
        }
        return false;
    }
    proof {
        game.lemma_view_parts();
        assert(legal_destination(v.board, v.en_passant, piece, from as int, to as int));
    }
    let white = piece & WHITE != 0;
    let pawn = piece & KING == 0 && piece & QUEEN == 0 && piece & ROOK == 0 && piece & BISHOP == 0
        && piece & KNIGHT == 0 && piece & PAWN != 0;
    let ep = game.tile_available_to_un_passant;
    if pawn && to == ep as usize {
        if white && (to + 7 == from || to + 9 == from) {
            game.board[to + 8] = EMPTY;
        } else if !white && (to == from + 7 || to == from + 9) {
            game.board[to - 8] = EMPTY;
        }
    }
    if pawn && ((white && to + 16 == from) || (!white && to == from + 16)) {
        game.tile_available_to_un_passant = game.potential_tile_to_un_passant;
    } else {
        game.tile_available_to_un_passant = NO_SQUARE;
    }
    game.board[from] = EMPTY;
    game.board[to] = piece;
    game.turn = if game.turn == WHITE { BLACK } else { WHITE };
    let ghost old_moves = game.moves@;
    game.moves.push([from as u8, to as u8]);
    proof {
        let f = |m: [u8; 2]| (m[0], m[1]);
        assert(game.moves@.map_values(f) =~= old_moves.map_values(f).push((from as u8, to as u8)));
        assert(game@.board =~= after_move(v, from as int, to as int).board);
    }
    true
}

/// Piece type on a back-rank file at the start of a game.
pub open spec fn back_rank_piece(file: int) -> u8 {
    if file == 0 || file == 7 {
        ROOK
    } else if file == 1 || file == 6 {
        KNIGHT
    } else if file == 2 || file == 5 {
        BISHOP
    } else if file == 3 {
        QUEEN
    } else {
        KING
    }
}

/// The board at the start of a game: Black's pieces on ranks 8 and 7 (rows 0
/// and 1), White's on ranks 2 and 1 (rows 6 and 7), the rest empty.
pub open spec fn starting_layout() -> Seq<u8> {
    Seq::new(
        64,
        |sq: int|
            {
                let row = sq / 8;
                let col = sq % 8;
                if row == 0 {
                    (back_rank_piece(col) + BLACK) as u8
                } else if row == 1 {
                    (PAWN + BLACK) as u8
                } else if row == 6 {
                    (PAWN + WHITE) as u8
                } else if row == 7 {
                    (back_rank_piece(col) + WHITE) as u8
                } else {
                    0u8
                }
            },
    )
}

/// Every square of the starting layout is empty or holds one piece.
proof fn lemma_starting_layout_sound()
    ensures
        forall|i: int| 0 <= i < 64 ==> is_square_value(#[trigger] starting_layout()[i]),
{
    assert forall|i: int| 0 <= i < 64 implies is_square_value(#[trigger] starting_layout()[i]) by {
        let row = i / 8;
        let col = i % 8;
        if row == 0 || row == 7 {
            assert(is_piece_type(back_rank_piece(col) as int));
        } else if row == 1 || row == 6 {
            assert(is_piece_type(PAWN as int));
        }
    }
}

/// The usual starting position.
pub const STARTING_FEN: &'static str = "rnbqkbnr/pppppppp/8/8/8/8/PPPPPPPP/RNBQKBNR w KQkq - 0 1";

/// Placement field of the starting record.
const STARTING_PLACEMENT: &'static str = "rnbqkbnr/pppppppp/8/8/8/8/PPPPPPPP/RNBQKBNR";

/// The starting record splits into the starting placement, "w", "KQkq", "-" and the counters.
#[verifier::rlimit(100)]
proof fn lemma_starting_fields()
    ensures
        fen_fields(STARTING_FEN@).len() == 6,
        fen_fields(STARTING_FEN@)[0] == STARTING_PLACEMENT@,
        fen_fields(STARTING_FEN@)[1] == seq!['w'],
        fen_fields(STARTING_FEN@)[2] == seq!['K', 'Q', 'k', 'q'],
        fen_fields(STARTING_FEN@)[3] == seq!['-'],
{
    reveal_strlit("rnbqkbnr/pppppppp/8/8/8/8/PPPPPPPP/RNBQKBNR w KQkq - 0 1");
    reveal_strlit("rnbqkbnr/pppppppp/8/8/8/8/PPPPPPPP/RNBQKBNR");
    reveal_with_fuel(crate::fen::split_from, 60);
    let f = fen_fields(STARTING_FEN@);
    assert(f.len() == 6);
    assert(f[0] =~= STARTING_PLACEMENT@);
    assert(f[1] =~= seq!['w']);
    assert(f[2] =~= seq!['K', 'Q', 'k', 'q']);
    assert(f[3] =~= seq!['-']);
}

/// The starting placement puts every piece of the starting layout in place.
#[verifier::rlimit(100)]
proof fn lemma_starting_placement()
    ensures
        place_from(STARTING_PLACEMENT@, 0, empty_board(), 0, 0) == Ok::<Seq<u8>, FenError>(starting_layout()),
{
    reveal_strlit("rnbqkbnr/pppppppp/8/8/8/8/PPPPPPPP/RNBQKBNR");
    reveal_with_fuel(crate::fen::place_from, 50);
    let placed = place_from(STARTING_PLACEMENT@, 0, empty_board(), 0, 0);
    assert(placed is Ok);
    assert(placed->Ok_0 =~= starting_layout());
}

/// The starting record reads as the starting layout with White to move, all
/// four castling rights and no en-passant square.
pub proof fn lemma_starting_record()
    ensures
        fen_position(STARTING_FEN@) == Ok::<FenPosition, FenError>(
            FenPosition {
                board: starting_layout(),
                white_to_move: true,
                castling: seq![true, true, true, true],
                en_passant: NO_SQUARE,
            },
        ),
{
    lemma_starting_fields();
    lemma_starting_placement();
    let f = fen_fields(STARTING_FEN@);
    assert(f[2][0] == 'K' && f[2][1] == 'Q' && f[2][2] == 'k' && f[2][3] == 'q');
    assert(f[3][0] == '-');
    let p = fen_position(STARTING_FEN@)->Ok_0;
    assert(p.castling =~= seq![true, true, true, true]);
}

/// A new game: the starting position with no moves played.
pub fn init_game() -> (r: GAME)
    ensures
        r.wf(),
        r@.board == starting_layout(),
        r@.white_to_move,
        r@.castling == seq![true, true, true, true],
        r@.en_passant == NO_SQUARE,
        r@.moves.len() == 0,
        !r@.check && !r@.draw && !r@.check_mate,
{
    let mut game = GAME {
        computed_distances: GAME::tiles_to_the_edge(),
        board: GAME::generate_board_array(),
        turn: WHITE,
        moves: Vec::new(),
        tile_available_to_un_passant: NO_SQUARE,
        potential_tile_to_un_passant: NO_SQUARE,
        chastling_ability: [false, false, false, false],
        check: false,
        draw: false,
        check_mate: false,
    };
    proof {
        assert(game.moves@.map_values(|m: [u8; 2]| (m[0], m[1])) =~= Seq::<(u8, u8)>::empty());
        assert(game.board@ =~= Seq::new(64, |i: int| 0u8));
    }
    proof {
        lemma_starting_record();
        lemma_starting_layout_sound();
    }
    match load_position_from_fen(STARTING_FEN, &mut game) {
        Ok((board, ep)) => {
            game.board = board;
            game.tile_available_to_un_passant = ep;
        },
        Err(_) => {},
    }
    game
}

/// After a White pawn advances two squares, a Black pawn standing diagonally
/// behind the skipped square may capture en passant onto it on Black's move.
pub proof fn lemma_en_passant_after_double_push(v: GameView, from: int, p: int)
    requires
        v.board.len() == 64,
        16 <= from < 64,
        v.white_to_move,
        has_bit(v.board[from], WHITE),
        is_double_push(v.board[from], from, from - 16),
        move_allowed(v, from, from - 16),
        0 <= p < 64,
        moves_as_pawn(v.board[p]),
        has_bit(v.board[p], BLACK),
        !has_bit(v.board[p], WHITE),
        (p + 9 == from - 8 && edge_distance(p, 5) > 0) || (p + 7 == from - 8 && edge_distance(p, 7) > 0),
    ensures
        !after_move(v, from, from - 16).white_to_move,
        after_move(v, from, from - 16).en_passant == from - 8,
        move_allowed(after_move(v, from, from - 16), p, from - 8),
{
    let w = after_move(v, from, from - 16);
    assert(p != from && p != from - 16);
    assert(w.board[p] == v.board[p]);
}

/// A move other than a pawn's two-square advance leaves no en-passant square:
/// afterwards a pawn may step diagonally only onto a square holding an enemy piece.
pub proof fn lemma_en_passant_lapses(v: GameView, from: int, to: int, p: int, t: int)
    requires
        v.board.len() == 64,
        0 <= from < 64,
        0 <= to < 64,
        move_allowed(v, from, to),
        !is_double_push(v.board[from], from, to),
        0 <= p < 64,
        0 <= t < 64,
        moves_as_pawn(after_move(v, from, to).board[p]),
        t == p - 9 || t == p - 7 || t == p + 7 || t == p + 9,
        !has_bit(after_move(v, from, to).board[t], enemy_color(after_move(v, from, to).board[p])),
    ensures
        after_move(v, from, to).en_passant == NO_SQUARE,
        !legal_destination(after_move(v, from, to).board, after_move(v, from, to).en_passant,
            after_move(v, from, to).board[p], p, t),
{
}

/// An accepted move keeps the position sound and touches at most three
/// squares: its origin becomes empty, its destination takes the moving piece,
/// and only an en-passant capture, whose destination was empty, also empties
/// the square behind it. So at most one piece leaves the board.
pub proof fn lemma_move_changes(v: GameView, from: int, to: int)
    requires
        sound_position(v),
        0 <= from < 64,
        0 <= to < 64,
        move_allowed(v, from, to),
    ensures
        sound_position(after_move(v, from, to)),
        after_move(v, from, to).board[from] == 0,
        after_move(v, from, to).board[to] == v.board[from],
        is_en_passant_capture(v, from, to) ==> v.board[to] == 0 && 0 <= en_passant_victim(v.board[from], to) < 64
            && after_move(v, from, to).board[en_passant_victim(v.board[from], to)] == 0,
        forall|i: int|
            0 <= i < 64 && i != from && i != to && !(is_en_passant_capture(v, from, to) && i == en_passant_victim(
                v.board[from],
                to,
            )) ==> #[trigger] after_move(v, from, to).board[i] == v.board[i],
{
    let piece = v.board[from];
    let w = after_move(v, from, to);
    assert(to != from) by {
        lemma_no_friendly_destination(v.board, v.en_passant, piece, from, to);
    }
    if is_en_passant_capture(v, from, to) {
        assert(has_bit(piece, WHITE) ==> (to == from - 7 && edge_distance(from, 6) > 0) || (to == from - 9
            && edge_distance(from, 4) > 0));
        assert(!has_bit(piece, WHITE) ==> (to == from + 7 && edge_distance(from, 7) > 0) || (to == from + 9
            && edge_distance(from, 5) > 0));
    }
    assert forall|i: int| 0 <= i < 64 implies is_square_value(#[trigger] w.board[i]) by {
        assert(is_square_value(0u8));
    }
    if is_double_push(piece, from, to) {
        assert(v.board[skipped_square(piece, from)] == 0);
    }
}

} // verus!
