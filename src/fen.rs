use vstd::prelude::*;
use crate::game::{GameView, GAME, NO_SQUARE};
use crate::piece::{make_piece, BISHOP, BLACK, KING, KNIGHT, PAWN, QUEEN, ROOK, WHITE};

verus! {

/// Why a position record was refused.
#[derive(Debug, Clone, Copy, PartialEq, Eq, Structural)]
pub enum FenError {
    /// The record does not have exactly six whitespace-separated fields.
    FieldCount,
    /// The placement field holds a character that is no piece letter, digit or '/'.
    PieceSymbol,
    /// The placement field runs past the eighth file or the eighth rank.
    SquareOutOfRange,
    /// The active-color field is neither "w" nor "b".
    SideToMove,
    /// The en-passant field is neither '-' nor a number from 0 to 255.
    EnPassantSquare,
}

/// What a well-formed record describes.
pub struct FenPosition {
    pub board: Seq<u8>,
    pub white_to_move: bool,
    pub castling: Seq<bool>,
    pub en_passant: u8,
}

/// Unicode White_Space.
pub open spec fn is_space(c: char) -> bool {
    ||| '\t' <= c <= '\r'
    ||| c == ' '
    ||| c == '\u{85}'
    ||| c == '\u{a0}'
    ||| c == '\u{1680}'
    ||| '\u{2000}' <= c <= '\u{200a}'
    ||| c == '\u{2028}'
    ||| c == '\u{2029}'
    ||| c == '\u{202f}'
    ||| c == '\u{205f}'
    ||| c == '\u{3000}'
}

/// Fields of `s` from index `i` on, appended to `acc`; `in_field` says that
/// `s[i - 1]` belongs to the last field of `acc`.
pub open spec fn split_from(s: Seq<char>, i: int, acc: Seq<Seq<char>>, in_field: bool) -> Seq<Seq<char>>
    decreases s.len() - i,
{
    if i >= s.len() || i < 0 {
        acc
    } else if is_space(s[i]) {
        split_from(s, i + 1, acc, false)
    } else if in_field && acc.len() > 0 {
        split_from(s, i + 1, acc.update(acc.len() - 1, acc.last().push(s[i])), true)
    } else {
        split_from(s, i + 1, acc.push(seq![s[i]]), true)
    }
}

/// The maximal runs of non-whitespace characters of `s`, in order.
pub open spec fn fen_fields(s: Seq<char>) -> Seq<Seq<char>> {
    split_from(s, 0, seq![], false)
}

pub open spec fn is_ascii_digit(c: char) -> bool {
    '0' <= c <= '9'
}

pub open spec fn digit_value(c: char) -> int {
    c as int - '0' as int
}

/// Piece byte of a placement letter: the lowercase letter gives the type, an
/// uppercase letter is white and a lowercase one black.
pub open spec fn piece_of_symbol(c: char) -> Option<u8> {
    if c == 'K' {
        Some(make_piece(KING, WHITE) as u8)
    } else if c == 'Q' {
        Some(make_piece(QUEEN, WHITE) as u8)
    } else if c == 'R' {
        Some(make_piece(ROOK, WHITE) as u8)
    } else if c == 'B' {
        Some(make_piece(BISHOP, WHITE) as u8)
    } else if c == 'N' {
        Some(make_piece(KNIGHT, WHITE) as u8)
    } else if c == 'P' {
        Some(make_piece(PAWN, WHITE) as u8)
    } else if c == 'k' {
        Some(make_piece(KING, BLACK) as u8)
    } else if c == 'q' {
        Some(make_piece(QUEEN, BLACK) as u8)
    } else if c == 'r' {
        Some(make_piece(ROOK, BLACK) as u8)
    } else if c == 'b' {
        Some(make_piece(BISHOP, BLACK) as u8)
    } else if c == 'n' {
        Some(make_piece(KNIGHT, BLACK) as u8)
    } else if c == 'p' {
        Some(make_piece(PAWN, BLACK) as u8)
    } else {
        None
    }
}

pub open spec fn empty_board() -> Seq<u8> {
    Seq::new(64, |i: int| 0u8)
}

/// Reads the placement field from index `i` on, with the cursor at `file`
/// of `rank`: '/' starts the next rank, a digit skips that many squares, a
/// letter puts its piece on the cursor's square and moves on by one.
pub open spec fn place_from(s: Seq<char>, i: int, board: Seq<u8>, file: int, rank: int) -> Result<Seq<u8>, FenError>
    decreases s.len() - i,
{
    if i >= s.len() || i < 0 {
        Ok(board)
    } else if s[i] == '/' {
        if rank >= 7 {
            Err(FenError::SquareOutOfRange)
        } else {
            place_from(s, i + 1, board, 0, rank + 1)
        }
    } else if is_ascii_digit(s[i]) {
        if file + digit_value(s[i]) > 8 {
            Err(FenError::SquareOutOfRange)
        } else {
            place_from(s, i + 1, board, file + digit_value(s[i]), rank)
        }
    } else {
        match piece_of_symbol(s[i]) {
            None => Err(FenError::PieceSymbol),
            Some(p) => if file >= 8 {
                Err(FenError::SquareOutOfRange)
            } else {
                place_from(s, i + 1, board.update(rank * 8 + file, p), file + 1, rank)
            },
        }
    }
}

/// Decimal value of the digits of `s` from index `i` on, following `acc`;
/// None when a non-digit comes or the value passes 255.
pub open spec fn digits_from(s: Seq<char>, i: int, acc: int) -> Option<int>
    decreases s.len() - i,
{
    if acc > 255 {
        None
    } else if i >= s.len() || i < 0 {
        Some(acc)
    } else if is_ascii_digit(s[i]) {
        digits_from(s, i + 1, acc * 10 + digit_value(s[i]))
    } else {
        None
    }
}

/// A byte written in decimal, with an optional leading '+'.
pub open spec fn decimal_u8(s: Seq<char>) -> Option<int> {
    let start: int = if s.len() > 0 && s[0] == '+' { 1 } else { 0 };
    if s.len() <= start {
        None
    } else {
        digits_from(s, start, 0)
    }
}

/// '-' anywhere in the field means no square; otherwise the field is a square index.
pub open spec fn en_passant_value(s: Seq<char>) -> Option<u8> {
    if s.contains('-') {
        Some(NO_SQUARE)
    } else {
        match decimal_u8(s) {
            Some(v) => Some(v as u8),
            None => None,
        }
    }
}

/// What the record `s` describes, or the first reason to refuse it, checking
/// the field count, the placement, the active color and the en-passant field
/// in that order. The castling field grants each right whose letter it holds;
/// the two move counters are not read.
pub open spec fn fen_position(s: Seq<char>) -> Result<FenPosition, FenError> {
    let fields = fen_fields(s);
    if fields.len() != 6 {
        Err(FenError::FieldCount)
    } else {
        match place_from(fields[0], 0, empty_board(), 0, 0) {
            Err(e) => Err(e),
            Ok(board) => if fields[1] != seq!['w'] && fields[1] != seq!['b'] {
                Err(FenError::SideToMove)
            } else {
                match en_passant_value(fields[3]) {
                    None => Err(FenError::EnPassantSquare),
                    Some(ep) => Ok(
                        FenPosition {
                            board,
                            white_to_move: fields[1] == seq!['w'],
                            castling: seq![
                                fields[2].contains('K'),
                                fields[2].contains('Q'),
                                fields[2].contains('k'),
                                fields[2].contains('q'),
                            ],
                            en_passant: ep,
                        },
                    ),
                }
            },
        }
    }
}

fn is_space_char(c: char) -> (r: bool)
    ensures
        r == is_space(c),
{
    ('\t' <= c && c <= '\r') || c == ' ' || c == '\u{85}' || c == '\u{a0}' || c == '\u{1680}' || ('\u{2000}' <= c
        && c <= '\u{200a}') || c == '\u{2028}' || c == '\u{2029}' || c == '\u{202f}' || c == '\u{205f}' || c
        == '\u{3000}'
}

/// Splits the record into its whitespace-separated fields.
fn split_fields(fen: &str) -> (r: Vec<Vec<char>>)
    ensures
        r.len() == fen_fields(fen@).len(),
        forall|j: int| 0 <= j < r.len() ==> #[trigger] r[j]@ == fen_fields(fen@)[j],
{
    let n = fen.unicode_len();
    let mut fields: Vec<Vec<char>> = Vec::new();
    let ghost mut acc: Seq<Seq<char>> = seq![];
    let mut in_field = false;
    let mut i: usize = 0;
    while i < n
        invariant
            n == fen@.len(),
            i <= n,
            fields.len() == acc.len(),
            forall|j: int| 0 <= j < fields.len() ==> #[trigger] fields[j]@ == acc[j],
            in_field ==> acc.len() > 0,
            split_from(fen@, i as int, acc, in_field) == fen_fields(fen@),
        decreases n - i,
    {
        let c = fen.get_char(i);
        if is_space_char(c) {
            in_field = false;
        } else if in_field {
            let mut last = fields.pop().unwrap();
            last.push(c);
            fields.push(last);
            proof {
                acc = acc.update(acc.len() - 1, acc.last().push(c));
            }
        } else {
            let mut field: Vec<char> = Vec::new();
            field.push(c);
            fields.push(field);
            proof {
                assert(field@ =~= seq![c]);
                acc = acc.push(seq![c]);
            }
            in_field = true;
        }
        i += 1;
    }
    fields
}

fn piece_of_symbol_exec(c: char) -> (r: Option<u8>)
    ensures
        r == piece_of_symbol(c),
{
    if c == 'K' {
        Some(KING + WHITE)
    } else if c == 'Q' {
        Some(QUEEN + WHITE)
    } else if c == 'R' {
        Some(ROOK + WHITE)
    } else if c == 'B' {
        Some(BISHOP + WHITE)
    } else if c == 'N' {
        Some(KNIGHT + WHITE)
    } else if c == 'P' {
        Some(PAWN + WHITE)
    } else if c == 'k' {
        Some(KING + BLACK)
    } else if c == 'q' {
        Some(QUEEN + BLACK)
    } else if c == 'r' {
        Some(ROOK + BLACK)
    } else if c == 'b' {
        Some(BISHOP + BLACK)
    } else if c == 'n' {
        Some(KNIGHT + BLACK)
    } else if c == 'p' {
        Some(PAWN + BLACK)
    } else {
        None
    }
}

/// Reads the piece-placement field onto an empty board.
fn place_pieces(field: &Vec<char>) -> (r: Result<[u8; 64], FenError>)
    ensures
        match (r, place_from(field@, 0, empty_board(), 0, 0)) {
            (Ok(b), Ok(spec_board)) => b@ == spec_board,
            (Err(e), Err(spec_e)) => e == spec_e,
            _ => false,
        },
{
    let mut board = [0u8; 64];
    assert(board@ =~= empty_board());
    let mut file: usize = 0;
    let mut rank: usize = 0;
    let mut i: usize = 0;
    while i < field.len()
        invariant
            i <= field.len(),
            file <= 8,
            rank <= 7,
            place_from(field@, i as int, board@, file as int, rank as int) == place_from(field@, 0, empty_board(), 0, 0),
        decreases field.len() - i,
    {
        let c = field[i];
        if c == '/' {
            if rank >= 7 {
                return Err(FenError::SquareOutOfRange);
            }
            file = 0;
            rank += 1;
        } else if '0' <= c && c <= '9' {
            let skip = (c as u32 - '0' as u32) as usize;
            if file + skip > 8 {
                return Err(FenError::SquareOutOfRange);
            }
            file += skip;
        } else {
            match piece_of_symbol_exec(c) {
                None => {
                    return Err(FenError::PieceSymbol);
                },
                Some(p) => {
                    if file >= 8 {
                        return Err(FenError::SquareOutOfRange);
                    }
                    board[rank * 8 + file] = p;
                    file += 1;
                },
            }
        }
        i += 1;
    }
    Ok(board)
}

/// Reads the en-passant field.
fn read_en_passant(field: &Vec<char>) -> (r: Option<u8>)
    ensures
        r == en_passant_value(field@),
{
    let mut i: usize = 0;
    while i < field.len()
        invariant
            i <= field.len(),
            forall|j: int| 0 <= j < i ==> field@[j] != '-',
        decreases field.len() - i,
    {
        if field[i] == '-' {
            assert(field@.contains('-')) by {
                assert(field@[i as int] == '-');
            }
            return Some(NO_SQUARE);
        }
        i += 1;
    }
    assert(!field@.contains('-'));
    let start: usize = if field.len() > 0 && field[0] == '+' { 1 } else { 0 };
    if field.len() <= start {
        return None;
    }
    let mut value: u32 = 0;
    let mut k: usize = start;
    while k < field.len()
        invariant
            start <= k <= field.len(),
            value <= 255,
            !field@.contains('-'),
            digits_from(field@, k as int, value as int) == decimal_u8(field@),
            decimal_u8(field@) == digits_from(field@, start as int, 0),
        decreases field.len() - k,
    {
        let c = field[k];
        if !('0' <= c && c <= '9') {
            assert(digits_from(field@, k as int, value as int) == None::<int>);
            return None;
        }
        let ghost before = value as int;
        value = value * 10 + (c as u32 - '0' as u32);
        assert(digits_from(field@, k as int, before) == digits_from(field@, k + 1, value as int));
        if value > 255 {
            assert(digits_from(field@, k + 1, value as int) == None::<int>);
            return None;
        }
        k += 1;
    }
    Some(value as u8)
}

/// Reads which castling rights the castling field grants.
fn read_castling(field: &Vec<char>) -> (r: [bool; 4])
    ensures
        r@ == seq![field@.contains('K'), field@.contains('Q'), field@.contains('k'), field@.contains('q')],
{
    let mut rights = [false; 4];
    let mut i: usize = 0;
    while i < field.len()
        invariant
            i <= field.len(),
            rights[0] == field@.subrange(0, i as int).contains('K'),
            rights[1] == field@.subrange(0, i as int).contains('Q'),
            rights[2] == field@.subrange(0, i as int).contains('k'),
            rights[3] == field@.subrange(0, i as int).contains('q'),
        decreases field.len() - i,
    {
        let c = field[i];
        let ghost prefix = field@.subrange(0, i as int);
        let ghost next = field@.subrange(0, i + 1);
        assert(next =~= prefix.push(c));
        assert forall|x: char| next.contains(x) == (prefix.contains(x) || x == c) by {
            if next.contains(x) {
                let j = choose|j: int| 0 <= j < next.len() && next[j] == x;
                if j < prefix.len() {
                    assert(prefix[j] == x);
                }
            }
            if prefix.contains(x) {
                let j = choose|j: int| 0 <= j < prefix.len() && prefix[j] == x;
                assert(next[j] == x);
            }
            if x == c {
                assert(next[i as int] == x);
            }
        }
        if c == 'K' {
            rights[0] = true;
        } else if c == 'Q' {
            rights[1] = true;
        } else if c == 'k' {
            rights[2] = true;
        } else if c == 'q' {
            rights[3] = true;
        }
        i += 1;
    }
    assert(field@.subrange(0, field.len() as int) =~= field@);
    assert(rights@ =~= seq![field@.contains('K'), field@.contains('Q'), field@.contains('k'), field@.contains('q')]);
    rights
}

/// Reads a six-field position record. On success the active color and the
/// castling rights are written into `game`, and the board and the en-passant
/// square are returned; on failure `game` is left as it was.
pub fn load_position_from_fen(fen: &str, game: &mut GAME) -> (r: Result<([u8; 64], u8), FenError>)
    requires
        old(game).wf(),
    ensures
        final(game).wf(),
        match (fen_position(fen@), r) {
            (Ok(p), Ok((board, ep))) => {
                &&& board@ == p.board
                &&& ep == p.en_passant
                &&& final(game)@ == (GameView { white_to_move: p.white_to_move, castling: p.castling, ..old(game)@ })
            },
            (Err(e), Err(e2)) => e == e2 && *final(game) == *old(game),
            _ => false,
        },
{
    let fields = split_fields(fen);
    if fields.len() != 6 {
        return Err(FenError::FieldCount);
    }
    let board = match place_pieces(&fields[0]) {
        Ok(b) => b,
        Err(e) => {
            return Err(e);
        },
    };
    let side = &fields[1];
    let white = if side.len() == 1 && side[0] == 'w' {
        assert(side@ =~= seq!['w']);
        true
    } else if side.len() == 1 && side[0] == 'b' {
        assert(side@ =~= seq!['b']);
        false
    } else {
        assert(side@ != seq!['w'] && side@ != seq!['b']) by {
            if side@ == seq!['w'] || side@ == seq!['b'] {
                assert(side@.len() == 1);
            }
        }
        return Err(FenError::SideToMove);
    };
    let rights = read_castling(&fields[2]);
    let ep = match read_en_passant(&fields[3]) {
        Some(v) => v,
        None => {
            return Err(FenError::EnPassantSquare);
        },
    };
    game.set_side_and_castling(white, rights);
    Ok((board, ep))
}

} // verus!
