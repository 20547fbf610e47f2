use vstd::prelude::*;
use crate::geometry::{dir_offset, edge_distance, file_of, is_distance_table, lemma_ray_on_board, rank_of, ray_square};
use crate::game::GAME;
use crate::piece::{enemy_color, has_bit, is_square_value, is_vacant, lemma_square_value_bits, own_color, BISHOP, BLACK, KING, KNIGHT, PAWN, QUEEN, ROOK, WHITE};

verus! {

/// A sliding piece on `from` can stop `k` steps away in direction `d`: the
/// squares before it are vacant and the square itself holds no friendly piece.
pub open spec fn slides_to(board: Seq<u8>, piece: u8, from: int, d: int, k: int) -> bool {
    &&& 1 <= k <= edge_distance(from, d)
    &&& forall|j: int| 1 <= j < k ==> is_vacant(board[#[trigger] ray_square(from, d, j)])
    &&& !has_bit(board[ray_square(from, d, k)], own_color(piece))
}

/// A sliding piece on `from` can reach `t` along direction `d`.
pub open spec fn ray_reaches(board: Seq<u8>, piece: u8, from: int, d: int, t: int) -> bool {
    exists|k: int| #[trigger] slides_to(board, piece, from, d, k) && t == ray_square(from, d, k)
}

/// A sliding piece on `from` can reach `t` along one of the directions `lo..hi`.
pub open spec fn slider_reaches(board: Seq<u8>, piece: u8, from: int, lo: int, hi: int, t: int) -> bool {
    exists|d: int| lo <= d < hi && #[trigger] ray_reaches(board, piece, from, d, t)
}

/// One king step from `from` in direction `d` lands on `t`, a square without a friendly piece.
pub open spec fn king_step(board: Seq<u8>, piece: u8, from: int, d: int, t: int) -> bool {
    &&& edge_distance(from, d) > 0
    &&& t == from + dir_offset(d)
    &&& !has_bit(board[t], own_color(piece))
}

pub open spec fn king_reaches(board: Seq<u8>, piece: u8, from: int, t: int) -> bool {
    exists|d: int| 0 <= d < 8 && #[trigger] king_step(board, piece, from, d, t)
}

/// Index step of knight jump `i`.
pub open spec fn knight_offset(i: int) -> int {
    if i == 0 {
        -15
    } else if i == 1 {
        -6
    } else if i == 2 {
        10
    } else if i == 3 {
        17
    } else if i == 4 {
        15
    } else if i == 5 {
        6
    } else if i == 6 {
        -10
    } else {
        -17
    }
}

/// Knight jump `i` from `from` stays on the board: the distance in its long
/// direction is over 1 and the one in its short direction over 0.
pub open spec fn knight_fits(from: int, i: int) -> bool {
    let n = edge_distance(from, 0);
    let s = edge_distance(from, 1);
    let w = edge_distance(from, 2);
    let e = edge_distance(from, 3);
    if i == 0 {
        n > 1 && e > 0
    } else if i == 1 {
        n > 0 && e > 1
    } else if i == 2 {
        e > 1 && s > 0
    } else if i == 3 {
        e > 0 && s > 1
    } else if i == 4 {
        s > 1 && w > 0
    } else if i == 5 {
        s > 0 && w > 1
    } else if i == 6 {
        w > 1 && n > 0
    } else {
        w > 0 && n > 1
    }
}

pub open spec fn knight_jump(board: Seq<u8>, piece: u8, from: int, i: int, t: int) -> bool {
    &&& knight_fits(from, i)
    &&& t == from + knight_offset(i)
    &&& !has_bit(board[t], own_color(piece))
}

pub open spec fn knight_reaches(board: Seq<u8>, piece: u8, from: int, t: int) -> bool {
    exists|i: int| 0 <= i < 8 && #[trigger] knight_jump(board, piece, from, i, t)
}

/// A pawn may step diagonally onto `t`: an enemy piece stands there or it is
/// the en-passant square.
pub open spec fn pawn_may_capture(board: Seq<u8>, en_passant: u8, enemy: u8, t: int) -> bool {
    has_bit(board[t], enemy) || t == en_passant as int
}

/// White pawns move towards lower indices, all other pawns towards higher ones.
pub open spec fn pawn_reaches(board: Seq<u8>, en_passant: u8, piece: u8, from: int, t: int) -> bool {
    if has_bit(piece, WHITE) {
        ||| edge_distance(from, 4) > 0 && t == from - 9 && pawn_may_capture(board, en_passant, BLACK, t)
        ||| edge_distance(from, 0) > 0 && t == from - 8 && board[t] == 0
        ||| 48 <= from < 56 && t == from - 16 && board[from - 8] == 0 && board[t] == 0
        ||| edge_distance(from, 6) > 0 && t == from - 7 && pawn_may_capture(board, en_passant, BLACK, t)
    } else {
        ||| edge_distance(from, 5) > 0 && t == from + 9 && pawn_may_capture(board, en_passant, WHITE, t)
        ||| edge_distance(from, 1) > 0 && t == from + 8 && board[t] == 0
        ||| 8 <= from < 16 && t == from + 16 && board[from + 8] == 0 && board[t] == 0
        ||| edge_distance(from, 7) > 0 && t == from + 7 && pawn_may_capture(board, en_passant, WHITE, t)
    }
}

/// The square a pawn skips over when its two-square advance is open, if it is.
pub open spec fn double_push_skip(board: Seq<u8>, piece: u8, from: int) -> Option<int> {
    if has_bit(piece, WHITE) {
        if 48 <= from < 56 && board[from - 8] == 0 && board[from - 16] == 0 {
            Some(from - 8)
        } else {
            None
        }
    } else {
        if 8 <= from < 16 && board[from + 8] == 0 && board[from + 16] == 0 {
            Some(from + 8)
        } else {
            None
        }
    }
}

/// Where a piece on `from` may move, dispatching on its type bits in the order
/// king, queen, rook, bishop, knight, pawn. A byte with no type bit goes nowhere.
pub open spec fn legal_destination(board: Seq<u8>, en_passant: u8, piece: u8, from: int, t: int) -> bool {
    if has_bit(piece, KING) {
        king_reaches(board, piece, from, t)
    } else if has_bit(piece, QUEEN) {
        slider_reaches(board, piece, from, 0, 8, t)
    } else if has_bit(piece, ROOK) {
        slider_reaches(board, piece, from, 0, 4, t)
    } else if has_bit(piece, BISHOP) {
        slider_reaches(board, piece, from, 4, 8, t)
    } else if has_bit(piece, KNIGHT) {
        knight_reaches(board, piece, from, t)
    } else if has_bit(piece, PAWN) {
        pawn_reaches(board, en_passant, piece, from, t)
    } else {
        false
    }
}

/// The piece moves as a pawn (its pawn bit is the first type bit found).
pub open spec fn moves_as_pawn(piece: u8) -> bool {
    &&& !has_bit(piece, KING)
    &&& !has_bit(piece, QUEEN)
    &&& !has_bit(piece, ROOK)
    &&& !has_bit(piece, BISHOP)
    &&& !has_bit(piece, KNIGHT)
    &&& has_bit(piece, PAWN)
}

/// A sliding piece never stops on its own square or on a friendly piece.
proof fn lemma_slider_destination(board: Seq<u8>, piece: u8, from: int, lo: int, hi: int, t: int)
    requires
        0 <= lo,
        hi <= 8,
        slider_reaches(board, piece, from, lo, hi, t),
    ensures
        t != from,
        !has_bit(board[t], own_color(piece)),
{
    let d = choose|d: int| lo <= d < hi && #[trigger] ray_reaches(board, piece, from, d, t);
    let k = choose|k: int| #[trigger] slides_to(board, piece, from, d, k) && t == ray_square(from, d, k);
    lemma_slide_leaves_origin(d, k);
}

/// With every square but `from` vacant, a slide of `k` steps within the edge
/// distance reaches its square.
proof fn lemma_open_ray(board: Seq<u8>, piece: u8, from: int, d: int, k: int)
    requires
        board.len() == 64,
        0 <= from < 64,
        0 <= d < 8,
        1 <= k <= edge_distance(from, d),
        forall|i: int| 0 <= i < 64 && i != from ==> is_vacant(#[trigger] board[i]),
    ensures
        ray_reaches(board, piece, from, d, ray_square(from, d, k)),
{
    assert forall|j: int| 1 <= j < k implies is_vacant(board[#[trigger] ray_square(from, d, j)]) by {
        lemma_ray_on_board(from, d, j);
        lemma_slide_leaves_origin(d, j);
    }
    lemma_ray_on_board(from, d, k);
    lemma_slide_leaves_origin(d, k);
    assert(slides_to(board, piece, from, d, k));
}

proof fn lemma_slide_leaves_origin(d: int, k: int)
    requires
        0 <= d < 8,
        k >= 1,
    ensures
        k * dir_offset(d) != 0,
{
    let o = dir_offset(d);
    assert(o != 0);
    assert(k * o != 0) by (nonlinear_arith)
        requires
            k >= 1,
            o != 0,
    {
    }
}

/// A rook alone on the board reaches exactly the other squares of its rank
/// and of its file.
pub proof fn lemma_lone_rook(board: Seq<u8>, piece: u8, from: int, t: int)
    requires
        board.len() == 64,
        0 <= from < 64,
        0 <= t < 64,
        forall|i: int| 0 <= i < 64 && i != from ==> is_vacant(#[trigger] board[i]),
    ensures
        slider_reaches(board, piece, from, 0, 4, t) <==> (t != from && (rank_of(t) == rank_of(from) || file_of(t)
            == file_of(from))),
{
    if slider_reaches(board, piece, from, 0, 4, t) {
        lemma_slider_destination(board, piece, from, 0, 4, t);
        let d = choose|d: int| 0 <= d < 4 && #[trigger] ray_reaches(board, piece, from, d, t);
        let k = choose|k: int| #[trigger] slides_to(board, piece, from, d, k) && t == ray_square(from, d, k);
        lemma_ray_on_board(from, d, k);
    }
    if t != from && (rank_of(t) == rank_of(from) || file_of(t) == file_of(from)) {
        assert(from == 8 * rank_of(from) + file_of(from));
        assert(t == 8 * rank_of(t) + file_of(t));
        let d: int = if file_of(t) == file_of(from) {
            if rank_of(t) < rank_of(from) { 0 } else { 1 }
        } else {
            if file_of(t) < file_of(from) { 2 } else { 3 }
        };
        let k: int = if d == 0 {
            rank_of(from) - rank_of(t)
        } else if d == 1 {
            rank_of(t) - rank_of(from)
        } else if d == 2 {
            file_of(from) - file_of(t)
        } else {
            file_of(t) - file_of(from)
        };
        assert(t == ray_square(from, d, k));
        lemma_open_ray(board, piece, from, d, k);
        assert(0 <= d < 4);
    }
}

/// On a board of well-formed squares whose en-passant square is empty or off
/// the board, no destination of any piece is its own square or holds a piece
/// of its color.
pub proof fn lemma_no_friendly_destination(board: Seq<u8>, en_passant: u8, piece: u8, from: int, t: int)
    requires
        board.len() == 64,
        forall|i: int| 0 <= i < 64 ==> is_square_value(#[trigger] board[i]),
        en_passant >= 64 || board[en_passant as int] == 0,
        0 <= from < 64,
        0 <= t < 64,
        legal_destination(board, en_passant, piece, from, t),
    ensures
        t != from,
        !has_bit(board[t], own_color(piece)),
{
    lemma_square_value_bits(board[t]);
    if en_passant < 64 {
        lemma_square_value_bits(board[en_passant as int]);
    }
    if has_bit(piece, KING) {
        let d = choose|d: int| 0 <= d < 8 && #[trigger] king_step(board, piece, from, d, t);
    } else if has_bit(piece, QUEEN) {
        lemma_slider_destination(board, piece, from, 0, 8, t);
    } else if has_bit(piece, ROOK) {
        lemma_slider_destination(board, piece, from, 0, 4, t);
    } else if has_bit(piece, BISHOP) {
        lemma_slider_destination(board, piece, from, 4, 8, t);
    } else if has_bit(piece, KNIGHT) {
        let i = choose|i: int| 0 <= i < 8 && #[trigger] knight_jump(board, piece, from, i, t);
    }
}

fn direction_offset(d: usize) -> (o: i64)
    requires
        d < 8,
    ensures
        o == dir_offset(d as int),
{
    if d == 0 {
        -8
    } else if d == 1 {
        8
    } else if d == 2 {
        -1
    } else if d == 3 {
        1
    } else if d == 4 {
        -9
    } else if d == 5 {
        9
    } else if d == 6 {
        -7
    } else {
        7
    }
}

fn color_of(piece: u8) -> (c: u8)
    ensures
        c == own_color(piece),
{
    if piece & WHITE != 0 {
        WHITE
    } else {
        BLACK
    }
}

/// Marks in `mask` the squares a sliding piece reaches along direction `d`.
fn slide_along(board: &[u8; 64], piece: u8, tile: usize, d: usize, steps: u8, mask: [bool; 64]) -> (r: [bool; 64])
    requires
        tile < 64,
        d < 8,
        steps == edge_distance(tile as int, d as int),
    ensures
        forall|t: int|
            0 <= t < 64 ==> r[t] == (mask[t] || ray_reaches(board@, piece, tile as int, d as int, t)),
{
    let ghost b = board@;
    let ghost from = tile as int;
    let ghost dd = d as int;
    let own = color_of(piece);
    let enemy = if own == WHITE { BLACK } else { WHITE };
    let step = direction_offset(d);
    let mut out = mask;
    let mut k: u8 = 1;
    let mut target: i64 = tile as i64 + step;
    while k <= steps
        invariant_except_break
            forall|t: int|
                0 <= t < 64 ==> out[t] == (mask[t] || exists|k2: int|
                    1 <= k2 < k && #[trigger] slides_to(b, piece, from, dd, k2) && t == ray_square(from, dd, k2)),
        invariant
            1 <= k <= steps + 1,
            tile < 64,
            d < 8,
            steps == edge_distance(from, dd),
            b == board@,
            from == tile as int,
            dd == d as int,
            own == own_color(piece),
            enemy == enemy_color(piece),
            step == dir_offset(dd),
            target == ray_square(from, dd, k as int),
            forall|j: int| 1 <= j < k ==> is_vacant(b[#[trigger] ray_square(from, dd, j)]),
        ensures
            forall|t: int|
                0 <= t < 64 ==> out[t] == (mask[t] || ray_reaches(b, piece, from, dd, t)),
        decreases steps + 1 - k,
    {
        proof {
            lemma_ray_on_board(from, dd, k as int);
        }
        let sq = target as usize;
        let occupant = board[sq];
        if occupant & own != 0 {
            proof {
                assert forall|t: int| 0 <= t < 64 implies out[t] == (mask[t] || ray_reaches(b, piece, from, dd, t)) by {
                    if ray_reaches(b, piece, from, dd, t) {
                        let k2 = choose|k2: int| #[trigger] slides_to(b, piece, from, dd, k2) && t == ray_square(from, dd, k2);
                        if k2 > k {
                            assert(is_vacant(b[ray_square(from, dd, k as int)]));
                        }
                    }
                }
            }
            break;
        } else if occupant & enemy != 0 {
            out[sq] = true;
            proof {
                assert(slides_to(b, piece, from, dd, k as int));
                assert forall|t: int| 0 <= t < 64 implies out[t] == (mask[t] || ray_reaches(b, piece, from, dd, t)) by {
                    if ray_reaches(b, piece, from, dd, t) {
                        let k2 = choose|k2: int| #[trigger] slides_to(b, piece, from, dd, k2) && t == ray_square(from, dd, k2);
                        if k2 > k {
                            assert(is_vacant(b[ray_square(from, dd, k as int)]));
                        }
                        if k2 < k {
                            assert(out[t]);
                        }
                    }
                    if t != sq && out[t] && !mask[t] {
                        let k2 = choose|k2: int|
                            1 <= k2 < k && #[trigger] slides_to(b, piece, from, dd, k2) && t == ray_square(from, dd, k2);
                        assert(ray_reaches(b, piece, from, dd, t));
                    }
                }
            }
            break;
        } else {
            out[sq] = true;
            proof {
                assert(slides_to(b, piece, from, dd, k as int));
                assert forall|t: int| 0 <= t < 64 implies out[t] == (mask[t] || exists|k2: int|
                    1 <= k2 < k + 1 && #[trigger] slides_to(b, piece, from, dd, k2) && t == ray_square(from, dd, k2)) by {
                    if t == sq {
                        assert(slides_to(b, piece, from, dd, k as int) && t == ray_square(from, dd, k as int));
                    } else if out[t] && !mask[t] {
                        let k2 = choose|k2: int|
                            1 <= k2 < k && #[trigger] slides_to(b, piece, from, dd, k2) && t == ray_square(from, dd, k2);
                        assert(1 <= k2 < k + 1);
                    }
                }
            }
            let ghost kk = k as int;
            k += 1;
            target = target + step;
            proof {
                assert(target == from + kk * dir_offset(dd) + dir_offset(dd));
                assert(from + kk * dir_offset(dd) + dir_offset(dd) == from + (kk + 1) * dir_offset(dd)) by (nonlinear_arith);
            }
        }
    }
    proof {
        if k > steps {
            assert forall|t: int| 0 <= t < 64 implies out[t] == (mask[t] || ray_reaches(b, piece, from, dd, t)) by {
                if ray_reaches(b, piece, from, dd, t) {
                    let k2 = choose|k2: int| #[trigger] slides_to(b, piece, from, dd, k2) && t == ray_square(from, dd, k2);
                    assert(k2 < k);
                }
                if out[t] && !mask[t] {
                    let k2 = choose|k2: int|
                        1 <= k2 < k && #[trigger] slides_to(b, piece, from, dd, k2) && t == ray_square(from, dd, k2);
                    assert(ray_reaches(b, piece, from, dd, t));
                }
            }
        }
    }
    out
}

/// Marks every square a sliding piece reaches along the directions `lo..hi`.
fn slide_directions(board: &[u8; 64], piece: u8, tile: usize, precomputed_distances: &[[u8; 8]; 64], lo: usize, hi: usize) -> (r: [bool; 64])
    requires
        tile < 64,
        lo <= hi <= 8,
        is_distance_table(*precomputed_distances),
    ensures
        forall|t: int| 0 <= t < 64 ==> r[t] == slider_reaches(board@, piece, tile as int, lo as int, hi as int, t),
{
    let mut mask = [false; 64];
    let mut d: usize = lo;
    while d < hi
        invariant
            lo <= d <= hi <= 8,
            tile < 64,
            is_distance_table(*precomputed_distances),
            forall|t: int| 0 <= t < 64 ==> mask[t] == slider_reaches(board@, piece, tile as int, lo as int, d as int, t),
        decreases hi - d,
    {
        let steps = precomputed_distances[tile][d];
        assert(steps == edge_distance(tile as int, d as int)) by {
            assert(precomputed_distances[tile as int][d as int] == edge_distance(tile as int, d as int));
        }
        let next = slide_along(board, piece, tile, d, steps, mask);
        assert forall|t: int| 0 <= t < 64 implies next[t] == slider_reaches(board@, piece, tile as int, lo as int, d + 1, t) by {
            if slider_reaches(board@, piece, tile as int, lo as int, d + 1, t) {
                let d2 = choose|d2: int| lo <= d2 < d + 1 && #[trigger] ray_reaches(board@, piece, tile as int, d2, t);
                if d2 < d {
                    assert(slider_reaches(board@, piece, tile as int, lo as int, d as int, t));
                }
            }
            if slider_reaches(board@, piece, tile as int, lo as int, d as int, t) {
                let d2 = choose|d2: int| lo <= d2 < d && #[trigger] ray_reaches(board@, piece, tile as int, d2, t);
                assert(lo <= d2 < d + 1);
            }
            if ray_reaches(board@, piece, tile as int, d as int, t) {
                assert(lo <= d < d + 1);
            }
        }
        mask = next;
        d += 1;
    }
    mask
}

pub fn queen_movement_from_tile(board: [u8; 64], piece: u8, tile: usize, precomputed_distances: [[u8; 8]; 64]) -> (r: [bool; 64])
    requires
        tile < 64,
        is_distance_table(precomputed_distances),
    ensures
        forall|t: int| 0 <= t < 64 ==> r[t] == slider_reaches(board@, piece, tile as int, 0, 8, t),
{
    slide_directions(&board, piece, tile, &precomputed_distances, 0, 8)
}

pub fn rook_movement_from_tile(board: [u8; 64], piece: u8, tile: usize, precomputed_distances: [[u8; 8]; 64]) -> (r: [bool; 64])
    requires
        tile < 64,
        is_distance_table(precomputed_distances),
    ensures
        forall|t: int| 0 <= t < 64 ==> r[t] == slider_reaches(board@, piece, tile as int, 0, 4, t),
{
    slide_directions(&board, piece, tile, &precomputed_distances, 0, 4)
}

pub fn bishop_movement_from_tile(board: [u8; 64], piece: u8, tile: usize, precomputed_distances: [[u8; 8]; 64]) -> (r: [bool; 64])
    requires
        tile < 64,
        is_distance_table(precomputed_distances),
    ensures
        forall|t: int| 0 <= t < 64 ==> r[t] == slider_reaches(board@, piece, tile as int, 4, 8, t),
{
    slide_directions(&board, piece, tile, &precomputed_distances, 4, 8)
}

pub fn king_movement_from_tile(board: [u8; 64], piece: u8, tile: usize, precomputed_distances: [[u8; 8]; 64]) -> (r: [bool; 64])
    requires
        tile < 64,
        is_distance_table(precomputed_distances),
    ensures
        forall|t: int| 0 <= t < 64 ==> r[t] == king_reaches(board@, piece, tile as int, t),
{
    let own = color_of(piece);
    let mut mask = [false; 64];
    let mut d: usize = 0;
    while d < 8
        invariant
            d <= 8,
            tile < 64,
            own == own_color(piece),
            is_distance_table(precomputed_distances),
            forall|t: int|
                0 <= t < 64 ==> mask[t] == exists|d2: int| 0 <= d2 < d && #[trigger] king_step(board@, piece, tile as int, d2, t),
        decreases 8 - d,
    {
        let ghost before = mask;
        assert(precomputed_distances[tile as int][d as int] == edge_distance(tile as int, d as int));
        if precomputed_distances[tile][d] > 0 {
            proof {
                lemma_ray_on_board(tile as int, d as int, 1);
            }
            let target = (tile as i64 + direction_offset(d)) as usize;
            if board[target] & own == 0 {
                mask[target] = true;
            }
        }
        assert forall|t: int| 0 <= t < 64 implies mask[t] == exists|d2: int|
            0 <= d2 < d + 1 && #[trigger] king_step(board@, piece, tile as int, d2, t) by {
            if king_step(board@, piece, tile as int, d as int, t) {
                assert(0 <= d < d + 1);
            } else if before[t] {
                let d2 = choose|d2: int| 0 <= d2 < d && #[trigger] king_step(board@, piece, tile as int, d2, t);
                assert(0 <= d2 < d + 1);
            }
        }
        d += 1;
    }
    mask
}

/// Ranks moved by knight jump `i` (negative is towards rank 0).
pub open spec fn knight_rank_step(i: int) -> int {
    if i == 0 || i == 7 {
        -2
    } else if i == 1 || i == 6 {
        -1
    } else if i == 2 || i == 5 {
        1
    } else {
        2
    }
}

/// Files moved by knight jump `i` (negative is towards file 0).
pub open spec fn knight_file_step(i: int) -> int {
    if i == 1 || i == 2 {
        2
    } else if i == 0 || i == 3 {
        1
    } else if i == 4 || i == 7 {
        -1
    } else {
        -2
    }
}

/// A knight jump that passes its distance test lands on the board, two ranks
/// and one file or one rank and two files away, without wrapping round an edge.
pub proof fn lemma_knight_on_board(from: int, i: int)
    requires
        0 <= from < 64,
        0 <= i < 8,
        knight_fits(from, i),
    ensures
        0 <= from + knight_offset(i) < 64,
        rank_of(from + knight_offset(i)) == rank_of(from) + knight_rank_step(i),
        file_of(from + knight_offset(i)) == file_of(from) + knight_file_step(i),
{
    assert(from == 8 * (from / 8) + from % 8);
}

fn knight_fits_exec(distances: &[u8; 8], i: usize) -> (r: bool)
    requires
        i < 8,
    ensures
        r == ({
            let n = distances[0] as int;
            let s = distances[1] as int;
            let w = distances[2] as int;
            let e = distances[3] as int;
            if i == 0 {
                n > 1 && e > 0
            } else if i == 1 {
                n > 0 && e > 1
            } else if i == 2 {
                e > 1 && s > 0
            } else if i == 3 {
                e > 0 && s > 1
            } else if i == 4 {
                s > 1 && w > 0
            } else if i == 5 {
                s > 0 && w > 1
            } else if i == 6 {
                w > 1 && n > 0
            } else {
                w > 0 && n > 1
            }
        }),
{
    let n = distances[0];
    let s = distances[1];
    let w = distances[2];
    let e = distances[3];
    if i == 0 {
        n > 1 && e > 0
    } else if i == 1 {
        n > 0 && e > 1
    } else if i == 2 {
        e > 1 && s > 0
    } else if i == 3 {
        e > 0 && s > 1
    } else if i == 4 {
        s > 1 && w > 0
    } else if i == 5 {
        s > 0 && w > 1
    } else if i == 6 {
        w > 1 && n > 0
    } else {
        w > 0 && n > 1
    }
}

fn knight_offset_exec(i: usize) -> (o: i64)
    requires
        i < 8,
    ensures
        o == knight_offset(i as int),
{
    if i == 0 {
        -15
    } else if i == 1 {
        -6
    } else if i == 2 {
        10
    } else if i == 3 {
        17
    } else if i == 4 {
        15
    } else if i == 5 {
        6
    } else if i == 6 {
        -10
    } else {
        -17
    }
}

pub fn knight_movement_from_tile(board: [u8; 64], piece: u8, tile: usize, precomputed_distances: [[u8; 8]; 64]) -> (r: [bool; 64])
    requires
        tile < 64,
        is_distance_table(precomputed_distances),
    ensures
        forall|t: int| 0 <= t < 64 ==> r[t] == knight_reaches(board@, piece, tile as int, t),
{
    let own = color_of(piece);
    let distances = precomputed_distances[tile];
    assert(forall|d: int| 0 <= d < 8 ==> distances[d] == edge_distance(tile as int, d)) by {
        assert(forall|d: int| 0 <= d < 8 ==> precomputed_distances[tile as int][d] == edge_distance(tile as int, d));
    }
    let mut mask = [false; 64];
    let mut i: usize = 0;
    while i < 8
        invariant
            i <= 8,
            tile < 64,
            own == own_color(piece),
            forall|d: int| 0 <= d < 8 ==> distances[d] == edge_distance(tile as int, d),
            forall|t: int|
                0 <= t < 64 ==> mask[t] == exists|i2: int| 0 <= i2 < i && #[trigger] knight_jump(board@, piece, tile as int, i2, t),
        decreases 8 - i,
    {
        let ghost before = mask;
        assert(distances[0] == edge_distance(tile as int, 0) && distances[1] == edge_distance(tile as int, 1)
            && distances[2] == edge_distance(tile as int, 2) && distances[3] == edge_distance(tile as int, 3));
        if knight_fits_exec(&distances, i) {
            proof {
                lemma_knight_on_board(tile as int, i as int);
            }
            let target = (tile as i64 + knight_offset_exec(i)) as usize;
            if board[target] & own == 0 {
                mask[target] = true;
            }
        }
        assert forall|t: int| 0 <= t < 64 implies mask[t] == exists|i2: int|
            0 <= i2 < i + 1 && #[trigger] knight_jump(board@, piece, tile as int, i2, t) by {
            if knight_jump(board@, piece, tile as int, i as int, t) {
                assert(0 <= i < i + 1);
            } else if before[t] {
                let i2 = choose|i2: int| 0 <= i2 < i && #[trigger] knight_jump(board@, piece, tile as int, i2, t);
                assert(0 <= i2 < i + 1);
            }
        }
        i += 1;
    }
    mask
}

/// The pawn's destinations and, when its two-square advance is open, the square it skips.
pub fn pawn_movement_from_tile(board: [u8; 64], piece: u8, tile: usize, precomputed_distances: [[u8; 8]; 64], en_passant: u8) -> (r: ([bool; 64], Option<u8>))
    requires
        tile < 64,
        is_distance_table(precomputed_distances),
    ensures
        forall|t: int| 0 <= t < 64 ==> r.0[t] == pawn_reaches(board@, en_passant, piece, tile as int, t),
        match r.1 {
            Some(s) => double_push_skip(board@, piece, tile as int) == Some(s as int),
            None => double_push_skip(board@, piece, tile as int) is None,
        },
{
    let ghost from = tile as int;
    let distances = precomputed_distances[tile];
    assert(forall|d: int| 0 <= d < 8 ==> distances[d] == edge_distance(from, d)) by {
        assert(forall|d: int| 0 <= d < 8 ==> precomputed_distances[tile as int][d] == edge_distance(from, d));
    }
    let mut mask = [false; 64];
    let mut skip: Option<u8> = None;
    if piece & WHITE != 0 {
        if distances[4] > 0 {
            proof {
                lemma_ray_on_board(from, 4, 1);
            }
            let target = tile - 9;
            if board[target] & BLACK != 0 || target as u8 == en_passant {
                mask[target] = true;
            }
        }
        if distances[0] > 0 {
            proof {
                lemma_ray_on_board(from, 0, 1);
            }
            let target = tile - 8;
            if tile >= 48 && tile < 56 && board[target - 8] == 0 && board[target] == 0 {
                mask[target] = true;
                mask[target - 8] = true;
                skip = Some(target as u8);
            } else if board[target] == 0 {
                mask[target] = true;
            }
        }
        if distances[6] > 0 {
            proof {
                lemma_ray_on_board(from, 6, 1);
            }
            let target = tile - 7;
            if board[target] & BLACK != 0 || target as u8 == en_passant {
                mask[target] = true;
            }
        }
    } else {
        if distances[5] > 0 {
            proof {
                lemma_ray_on_board(from, 5, 1);
            }
            let target = tile + 9;
            if board[target] & WHITE != 0 || target as u8 == en_passant {
                mask[target] = true;
            }
        }
        if distances[1] > 0 {
            proof {
                lemma_ray_on_board(from, 1, 1);
            }
            let target = tile + 8;
            if tile >= 8 && tile < 16 && board[target + 8] == 0 && board[target] == 0 {
                mask[target] = true;
                mask[target + 8] = true;
                skip = Some(target as u8);
            } else if board[target] == 0 {
                mask[target] = true;
            }
        }
        if distances[7] > 0 {
            proof {
                lemma_ray_on_board(from, 7, 1);
            }
            let target = tile + 7;
            if board[target] & WHITE != 0 || target as u8 == en_passant {
                mask[target] = true;
            }
        }
    }
    (mask, skip)
}

/// Where the piece on `from_tile` may move. For a pawn whose two-square
/// advance is open, the skipped square is recorded as the pending en-passant
/// square; nothing else in the position changes.
pub fn available_moves_for_piece(piece_to_move: u8, from_tile: usize, game: &mut GAME) -> (r: [bool; 64])
    requires
        old(game).wf(),
        from_tile < 64,
    ensures
        forall|t: int|
            0 <= t < 64 ==> r[t] == legal_destination(old(game)@.board, old(game)@.en_passant, piece_to_move, from_tile as int, t),
        forall|t: int|
            0 <= t < 64 && #[trigger] r[t] ==> t != from_tile && !has_bit(old(game)@.board[t], own_color(piece_to_move)),
        final(game).wf(),
        final(game)@ == old(game)@,
        final(game).same_but_pending(*old(game)),
        final(game).pending_en_passant() == (match double_push_skip(old(game)@.board, piece_to_move, from_tile as int) {
            Some(s) if moves_as_pawn(piece_to_move) => s,
            _ => old(game).pending_en_passant() as int,
        }),
{
    proof {
        game.lemma_view_parts();
    }
    let ghost v = game@;
    let board = game.board;
    let distances = game.computed_distances;
    let r = if piece_to_move & KING != 0 {
        king_movement_from_tile(board, piece_to_move, from_tile, distances)
    } else if piece_to_move & QUEEN != 0 {
        queen_movement_from_tile(board, piece_to_move, from_tile, distances)
    } else if piece_to_move & ROOK != 0 {
        rook_movement_from_tile(board, piece_to_move, from_tile, distances)
    } else if piece_to_move & BISHOP != 0 {
        bishop_movement_from_tile(board, piece_to_move, from_tile, distances)
    } else if piece_to_move & KNIGHT != 0 {
        knight_movement_from_tile(board, piece_to_move, from_tile, distances)
    } else if piece_to_move & PAWN != 0 {
        let (mask, skip) = pawn_movement_from_tile(board, piece_to_move, from_tile, distances, game.tile_available_to_un_passant);
        if let Some(s) = skip {
            game.set_pending_en_passant(s);
        }
        mask
    } else {
        [false; 64]
    };
    proof {
        assert forall|t: int| 0 <= t < 64 && #[trigger] r[t] implies t != from_tile && !has_bit(v.board[t], own_color(piece_to_move)) by {
            assert(legal_destination(v.board, v.en_passant, piece_to_move, from_tile as int, t));
            lemma_no_friendly_destination(v.board, v.en_passant, piece_to_move, from_tile as int, t);
        }
    }
    r
}

} // verus!
