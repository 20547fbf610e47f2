use vstd::prelude::*;

verus! {

/// Row of a square, 0 being the rank nearest Black's back rank.
pub open spec fn rank_of(square: int) -> int {
    square / 8
}

/// Column of a square, 0 being the 'a' file.
pub open spec fn file_of(square: int) -> int {
    square % 8
}

/// Squares between `square` and the board edge in direction `d`, the directions
/// being ordered North, South, West, East, North-West, South-East, North-East,
/// South-West.
pub open spec fn edge_distance(square: int, d: int) -> int {
    let n = rank_of(square);
    let s = 7 - rank_of(square);
    let w = file_of(square);
    let e = 7 - file_of(square);
    if d == 0 {
        n
    } else if d == 1 {
        s
    } else if d == 2 {
        w
    } else if d == 3 {
        e
    } else if d == 4 {
        if n < w { n } else { w }
    } else if d == 5 {
        if s < e { s } else { e }
    } else if d == 6 {
        if n < e { n } else { e }
    } else {
        if s < w { s } else { w }
    }
}

/// Index step of one square in direction `d`.
pub open spec fn dir_offset(d: int) -> int {
    if d == 0 {
        -8
    } else if d == 1 {
        8
    } else if d == 2 {
        -1
    } else if d == 3 {
        1
    } else if d == 4 {
        -9
    } else if d == 5 {
        9
    } else if d == 6 {
        -7
    } else {
        7
    }
}

/// The square `k` steps away from `from` in direction `d`.
pub open spec fn ray_square(from: int, d: int, k: int) -> int {
    from + k * dir_offset(d)
}

/// The whole table: entry `[square][d]` is `edge_distance(square, d)`.
pub open spec fn is_distance_table(table: [[u8; 8]; 64]) -> bool {
    forall|sq: int, d: int|
        0 <= sq < 64 && 0 <= d < 8 ==> #[trigger] table[sq][d] == edge_distance(sq, d)
}

/// Every distance to the edge is between 0 and 7, and each diagonal distance
/// is the smaller of the two orthogonal distances it lies between.
pub proof fn lemma_distance_table_consistent(square: int)
    requires
        0 <= square < 64,
    ensures
        forall|d: int| 0 <= d < 8 ==> 0 <= #[trigger] edge_distance(square, d) <= 7,
        edge_distance(square, 0) + edge_distance(square, 1) == 7,
        edge_distance(square, 2) + edge_distance(square, 3) == 7,
        edge_distance(square, 4) == vstd::math::min(edge_distance(square, 0), edge_distance(square, 2)),
        edge_distance(square, 5) == vstd::math::min(edge_distance(square, 1), edge_distance(square, 3)),
        edge_distance(square, 6) == vstd::math::min(edge_distance(square, 0), edge_distance(square, 3)),
        edge_distance(square, 7) == vstd::math::min(edge_distance(square, 1), edge_distance(square, 2)),
{
}

/// Walking at most `edge_distance(from, d)` steps in direction `d` stays on
/// the board, moving one rank and/or one file per step without wrapping.
pub proof fn lemma_ray_on_board(from: int, d: int, k: int)
    requires
        0 <= from < 64,
        0 <= d < 8,
        0 <= k <= edge_distance(from, d),
    ensures
        0 <= ray_square(from, d, k) < 64,
        rank_of(ray_square(from, d, k)) == rank_of(from) + k * dir_rank(d),
        file_of(ray_square(from, d, k)) == file_of(from) + k * dir_file(d),
{
    let r = rank_of(from);
    let f = file_of(from);
    assert(from == 8 * r + f);
    assert(ray_square(from, d, k) == 8 * (r + k * dir_rank(d)) + (f + k * dir_file(d))) by (nonlinear_arith)
        requires
            from == 8 * r + f,
            dir_offset(d) == 8 * dir_rank(d) + dir_file(d),
            ray_square(from, d, k) == from + k * dir_offset(d),
    {
    }
    if d == 0 {
    } else if d == 1 {
    } else if d == 2 {
    } else if d == 3 {
    } else if d == 4 {
    } else if d == 5 {
    } else if d == 6 {
    } else {
    }
}

/// Ranks moved per step in direction `d` (North is towards rank 0).
pub open spec fn dir_rank(d: int) -> int {
    if d == 0 || d == 4 || d == 6 {
        -1
    } else if d == 1 || d == 5 || d == 7 {
        1
    } else {
        0
    }
}

/// Files moved per step in direction `d` (West is towards file 0).
pub open spec fn dir_file(d: int) -> int {
    if d == 2 || d == 4 || d == 7 {
        -1
    } else if d == 3 || d == 5 || d == 6 {
        1
    } else {
        0
    }
}

} // verus!
