use vstd::prelude::*;

verus! {

/// Type field value of an empty square.
pub const EMPTY: u8 = 0;

pub const PAWN: u8 = 1;

pub const KNIGHT: u8 = 2;

pub const BISHOP: u8 = 4;

pub const ROOK: u8 = 8;

pub const QUEEN: u8 = 16;

pub const KING: u8 = 32;

/// Color field value of a white piece.
pub const WHITE: u8 = 64;

/// Color field value of a black piece.
pub const BLACK: u8 = 128;

/// The piece byte has the given type (or color) bit set.
pub open spec fn has_bit(piece: u8, bit: u8) -> bool {
    piece & bit != 0
}

/// Neither color bit is set: sliding pieces pass over such a square.
pub open spec fn is_vacant(piece: u8) -> bool {
    !has_bit(piece, WHITE) && !has_bit(piece, BLACK)
}

/// The color a piece moves with: white when its white bit is set, black otherwise.
pub open spec fn own_color(piece: u8) -> u8 {
    if has_bit(piece, WHITE) {
        WHITE
    } else {
        BLACK
    }
}

/// The color of the pieces a piece may capture.
pub open spec fn enemy_color(piece: u8) -> u8 {
    if has_bit(piece, WHITE) {
        BLACK
    } else {
        WHITE
    }
}

/// The piece byte of a given type and color.
pub open spec fn make_piece(kind: u8, color: u8) -> int {
    kind + color
}

/// One of the six type values.
pub open spec fn is_piece_type(kind: int) -> bool {
    kind == PAWN || kind == KNIGHT || kind == BISHOP || kind == ROOK || kind == QUEEN || kind == KING
}

/// A square's byte is 0 (empty) or exactly one type bit plus exactly one color bit.
pub open spec fn is_square_value(v: u8) -> bool {
    ||| v == EMPTY
    ||| exists|kind: int| #[trigger] is_piece_type(kind) && (v == make_piece(kind as u8, WHITE) || v == make_piece(kind as u8, BLACK))
}

/// A well-formed square carries at most one color bit, and an empty one none.
pub proof fn lemma_square_value_bits(v: u8)
    requires
        is_square_value(v),
    ensures
        !(has_bit(v, WHITE) && has_bit(v, BLACK)),
        v == EMPTY ==> !has_bit(v, WHITE) && !has_bit(v, BLACK),
{
    assert((v & 64u8 != 0u8 && v & 128u8 != 0u8) ==> v >= 192u8) by (bit_vector);
    assert(v == 0u8 ==> (v & 64u8 == 0u8 && v & 128u8 == 0u8)) by (bit_vector);
}

pub fn is_black_king(piece: u8) -> (r: bool)
    ensures
        r == (has_bit(piece, KING) && has_bit(piece, BLACK)),
{
    (piece & KING != 0) && (piece & BLACK != 0)
}

pub fn is_black_queen(piece: u8) -> (r: bool)
    ensures
        r == (has_bit(piece, QUEEN) && has_bit(piece, BLACK)),
{
    (piece & QUEEN != 0) && (piece & BLACK != 0)
}

pub fn is_black_rook(piece: u8) -> (r: bool)
    ensures
        r == (has_bit(piece, ROOK) && has_bit(piece, BLACK)),
{
    (piece & ROOK != 0) && (piece & BLACK != 0)
}

pub fn is_black_bishop(piece: u8) -> (r: bool)
    ensures
        r == (has_bit(piece, BISHOP) && has_bit(piece, BLACK)),
{
    (piece & BISHOP != 0) && (piece & BLACK != 0)
}

pub fn is_black_knight(piece: u8) -> (r: bool)
    ensures
        r == (has_bit(piece, KNIGHT) && has_bit(piece, BLACK)),
{
    (piece & KNIGHT != 0) && (piece & BLACK != 0)
}

pub fn is_black_pawn(piece: u8) -> (r: bool)
    ensures
        r == (has_bit(piece, PAWN) && has_bit(piece, BLACK)),
{
    (piece & PAWN != 0) && (piece & BLACK != 0)
}

pub fn is_white_king(piece: u8) -> (r: bool)
    ensures
        r == (has_bit(piece, KING) && has_bit(piece, WHITE)),
{
    (piece & KING != 0) && (piece & WHITE != 0)
}

pub fn is_white_queen(piece: u8) -> (r: bool)
    ensures
        r == (has_bit(piece, QUEEN) && has_bit(piece, WHITE)),
{
    (piece & QUEEN != 0) && (piece & WHITE != 0)
}

pub fn is_white_rook(piece: u8) -> (r: bool)
    ensures
        r == (has_bit(piece, ROOK) && has_bit(piece, WHITE)),
{
    (piece & ROOK != 0) && (piece & WHITE != 0)
}

pub fn is_white_bishop(piece: u8) -> (r: bool)
    ensures
        r == (has_bit(piece, BISHOP) && has_bit(piece, WHITE)),
{
    (piece & BISHOP != 0) && (piece & WHITE != 0)
}

pub fn is_white_knight(piece: u8) -> (r: bool)
    ensures
        r == (has_bit(piece, KNIGHT) && has_bit(piece, WHITE)),
{
    (piece & KNIGHT != 0) && (piece & WHITE != 0)
}

pub fn is_white_pawn(piece: u8) -> (r: bool)
    ensures
        r == (has_bit(piece, PAWN) && has_bit(piece, WHITE)),
{
    (piece & PAWN != 0) && (piece & WHITE != 0)
}

} // verus!
