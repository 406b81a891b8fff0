//! The engine's general laws, stated over the same models the move
//! contracts use.

use vstd::prelude::*;

use crate::grid::down_spec;
use crate::grid::is_square;
use crate::grid::left_spec;
use crate::grid::right_spec;
use crate::grid::rotate_spec;
use crate::grid::slide_grid_spec;
use crate::grid::up_spec;
use crate::rows::compact_spec;
use crate::rows::grid_in_range;
use crate::rows::has_adjacent_pair;
use crate::rows::lemma_compact_id;
use crate::rows::lemma_compact_in_range;
use crate::rows::lemma_compact_len;
use crate::rows::lemma_compact_nonzero;
use crate::rows::lemma_compact_pad;
use crate::rows::lemma_compact_sum;
use crate::rows::lemma_merge_id;
use crate::rows::lemma_merge_len;
use crate::rows::lemma_merge_len_lt;
use crate::rows::lemma_merge_nonzero;
use crate::rows::lemma_merge_sum;
use crate::rows::lemma_pad_sum;
use crate::rows::merge_spec;
use crate::rows::pad_spec;
use crate::rows::row_in_range;
use crate::rows::row_sum;
use crate::rows::slide_row_spec;

verus! {

/// Every cell of the matrix holds a tile.
pub open spec fn is_full(g: Seq<Seq<u32>>) -> bool {
    forall|i: int, j: int| 0 <= i < g.len() && 0 <= j < g[i].len() ==> g[i][j] != 0
}

/// Some row holds two equal neighbouring cells.
pub open spec fn has_horizontal_pair(g: Seq<Seq<u32>>) -> bool {
    exists|i: int| 0 <= i < g.len() && has_adjacent_pair(#[trigger] g[i])
}

/// Some column holds two equal neighbouring cells.
pub open spec fn has_vertical_pair(g: Seq<Seq<u32>>) -> bool {
    exists|i: int, j: int|
        0 <= i < g.len() - 1 && 0 <= j < g[i].len() && j < g[i + 1].len() && #[trigger] g[i][j]
            == g[i + 1][j]
}

/// Rotation round-trip: four quarter turns reproduce any square matrix
/// exactly, so each turn is undone by three more.
pub proof fn lemma_rotate_round_trip(g: Seq<Seq<u32>>)
    requires
        is_square(g),
    ensures
        rotate_spec(rotate_spec(rotate_spec(rotate_spec(g)))) == g,
{
    let n = g.len() as int;
    let r1 = rotate_spec(g);
    let r2 = rotate_spec(r1);
    let r3 = rotate_spec(r2);
    let r4 = rotate_spec(r3);
    assert forall|i: int, j: int| 0 <= i < n && 0 <= j < n implies r2[i][j] == g[n - 1 - i][n - 1
        - j] by {
        assert(r1[j][n - 1 - i] == g[n - 1 - i][n - 1 - j]);
    }
    assert forall|i: int, j: int| 0 <= i < n && 0 <= j < n implies r4[i][j] == g[i][j] by {
        assert(r3[j][n - 1 - i] == r2[n - 1 - i][n - 1 - j]);
        assert(r4[i][j] == r2[n - 1 - i][n - 1 - j]);
    }
    assert(r4 =~~= g);
}

/// A quarter turn keeps the matrix square, full and within range.
pub proof fn lemma_rotate_shape(g: Seq<Seq<u32>>)
    requires
        is_square(g),
    ensures
        rotate_spec(g).len() == g.len(),
        is_square(rotate_spec(g)),
        is_full(g) ==> is_full(rotate_spec(g)),
        grid_in_range(g) ==> grid_in_range(rotate_spec(g)),
{
    let t = rotate_spec(g);
    let n = g.len() as int;
    if is_full(g) {
        assert forall|i: int, j: int| 0 <= i < n && 0 <= j < t[i].len() implies t[i][j] != 0 by {
            assert(t[i][j] == g[j][n - 1 - i]);
        }
    }
    if grid_in_range(g) {
        assert forall|i: int| 0 <= i < t.len() implies row_in_range(t[i]) by {
            assert forall|j: int| 0 <= j < t[i].len() implies t[i][j] < 0x8000_0000u32 by {
                assert(t[i][j] == g[j][n - 1 - i]);
            }
        }
    }
}

/// A slid matrix is square again.
pub proof fn lemma_slide_grid_square(g: Seq<Seq<u32>>)
    requires
        is_square(g),
    ensures
        slide_grid_spec(g, g.len()).len() == g.len(),
        is_square(slide_grid_spec(g, g.len())),
{
    let s = slide_grid_spec(g, g.len());
    assert forall|i: int| 0 <= i < s.len() implies s[i].len() == s.len() by {
        crate::rows::lemma_slide_row_len(g[i], g.len());
    }
}

/// Slide-left conserves the tiles' total: compaction drops only zeros and
/// a merge turns two equal tiles into the one tile holding their sum.
pub proof fn lemma_slide_conserves_sum(r: Seq<u32>, dim: nat)
    requires
        r.len() <= dim,
        row_in_range(r),
    ensures
        row_sum(slide_row_spec(r, dim)) == row_sum(r),
{
    let c = compact_spec(r);
    lemma_compact_sum(r);
    lemma_compact_in_range(r);
    lemma_compact_len(r);
    lemma_merge_sum(c);
    lemma_merge_len(c);
    lemma_pad_sum(merge_spec(c), dim);
}

/// Slide-left idempotence: sliding a row a second time changes nothing,
/// as long as the first slide left no equal neighbours behind. (A row
/// whose merge output still holds a pair, such as four equal tiles, does
/// merge again on a second pass: the law holds exactly of the rest.)
pub proof fn lemma_slide_idempotent(r: Seq<u32>, dim: nat)
    requires
        r.len() <= dim,
        row_in_range(r),
        !has_adjacent_pair(merge_spec(compact_spec(r))),
    ensures
        slide_row_spec(slide_row_spec(r, dim), dim) == slide_row_spec(r, dim),
{
    let c = compact_spec(r);
    let m = merge_spec(c);
    lemma_compact_in_range(r);
    lemma_compact_nonzero(r);
    lemma_compact_len(r);
    lemma_merge_nonzero(c);
    lemma_merge_len(c);
    lemma_compact_pad(m, dim);
    lemma_compact_id(m);
    lemma_merge_id(m);
    assert(compact_spec(slide_row_spec(r, dim)) == m);
    assert(slide_row_spec(slide_row_spec(r, dim), dim) == pad_spec(m, dim));
}

/// A full, pair-free row slides onto itself.
proof fn lemma_full_row_fixed(r: Seq<u32>, dim: nat)
    requires
        r.len() == dim,
        row_in_range(r),
        forall|k: int| 0 <= k < r.len() ==> r[k] != 0,
        !has_adjacent_pair(r),
    ensures
        slide_row_spec(r, dim) == r,
{
    lemma_compact_id(r);
    lemma_merge_id(r);
    assert(pad_spec(r, dim) =~= r);
}

/// A full row with an equal neighbouring pair does not slide onto itself:
/// the merge shortens it and the padding leaves a zero at its right edge.
proof fn lemma_full_row_moves(r: Seq<u32>, dim: nat)
    requires
        r.len() == dim,
        1 <= dim,
        row_in_range(r),
        forall|k: int| 0 <= k < r.len() ==> r[k] != 0,
        has_adjacent_pair(r),
    ensures
        slide_row_spec(r, dim) != r,
{
    lemma_compact_id(r);
    lemma_merge_len_lt(r);
    let m = merge_spec(r);
    let s = slide_row_spec(r, dim);
    assert(s[dim - 1] == 0);
    assert(r[dim - 1] != 0);
}

/// A full, square, pair-free matrix slides onto itself.
proof fn lemma_full_grid_fixed(g: Seq<Seq<u32>>)
    requires
        is_square(g),
        grid_in_range(g),
        is_full(g),
        !has_horizontal_pair(g),
    ensures
        slide_grid_spec(g, g.len()) == g,
{
    let s = slide_grid_spec(g, g.len());
    assert forall|i: int| 0 <= i < g.len() implies s[i] == g[i] by {
        assert(forall|k: int| 0 <= k < g[i].len() ==> g[i][k] != 0);
        lemma_full_row_fixed(g[i], g.len());
    }
    assert(s =~~= g);
}

/// A full, square matrix with an equal pair in some row does not slide
/// onto itself.
proof fn lemma_full_grid_moves(g: Seq<Seq<u32>>)
    requires
        is_square(g),
        1 <= g.len(),
        grid_in_range(g),
        is_full(g),
        has_horizontal_pair(g),
    ensures
        slide_grid_spec(g, g.len()) != g,
{
    let i = choose|i: int| 0 <= i < g.len() && has_adjacent_pair(#[trigger] g[i]);
    assert(forall|k: int| 0 <= k < g[i].len() ==> g[i][k] != 0);
    lemma_full_row_moves(g[i], g.len());
    assert(slide_grid_spec(g, g.len())[i] == slide_row_spec(g[i], g.len()));
}

/// The rows of a turned matrix pair up exactly when the columns of the
/// matrix do, and the columns of a turned matrix pair up exactly when the
/// rows of the matrix do.
proof fn lemma_rotate_pairs(g: Seq<Seq<u32>>)
    requires
        is_square(g),
    ensures
        has_horizontal_pair(rotate_spec(g)) == has_vertical_pair(g),
        has_vertical_pair(rotate_spec(g)) == has_horizontal_pair(g),
{
    let t = rotate_spec(g);
    let n = g.len() as int;
    if has_horizontal_pair(t) {
        let i = choose|i: int| 0 <= i < t.len() && has_adjacent_pair(#[trigger] t[i]);
        let k = choose|k: int| 0 <= k < t[i].len() - 1 && #[trigger] t[i][k] == t[i][k + 1];
        assert(t[i][k] == g[k][n - 1 - i]);
        assert(t[i][k + 1] == g[k + 1][n - 1 - i]);
        assert(has_vertical_pair(g));
    }
    if has_vertical_pair(g) {
        let (a, b) = choose|a: int, b: int|
            0 <= a < g.len() - 1 && 0 <= b < g[a].len() && b < g[a + 1].len() && #[trigger] g[a][b]
                == g[a + 1][b];
        let i = n - 1 - b;
        assert(t[i][a] == g[a][b]);
        assert(t[i][a + 1] == g[a + 1][b]);
        assert(has_adjacent_pair(t[i]));
        assert(has_horizontal_pair(t));
    }
    if has_vertical_pair(t) {
        let (a, b) = choose|a: int, b: int|
            0 <= a < t.len() - 1 && 0 <= b < t[a].len() && b < t[a + 1].len() && #[trigger] t[a][b]
                == t[a + 1][b];
        assert(t[a][b] == g[b][n - 1 - a]);
        assert(t[a + 1][b] == g[b][n - 2 - a]);
        assert(g[b][n - 2 - a] == g[b][n - 2 - a + 1]);
        assert(has_adjacent_pair(g[b]));
        assert(has_horizontal_pair(g));
    }
    if has_horizontal_pair(g) {
        let i = choose|i: int| 0 <= i < g.len() && has_adjacent_pair(#[trigger] g[i]);
        let k = choose|k: int| 0 <= k < g[i].len() - 1 && #[trigger] g[i][k] == g[i][k + 1];
        assert(t[n - 1 - k][i] == g[i][k]);
        assert(t[n - 1 - (k + 1)][i] == g[i][k + 1]);
        assert(t[n - 2 - k][i] == t[n - 2 - k + 1][i]);
        assert(has_vertical_pair(t));
    }
}

/// Game-over detection on a full board: no direction changes the board
/// exactly when no row and no column holds two equal neighbouring tiles.
pub proof fn lemma_game_over_full_board(g: Seq<Seq<u32>>)
    requires
        1 <= g.len(),
        is_square(g),
        grid_in_range(g),
        is_full(g),
    ensures
        (left_spec(g) == g && right_spec(g) == g && up_spec(g) == g && down_spec(g) == g) == (
        !has_horizontal_pair(g) && !has_vertical_pair(g)),
{
    let n = g.len();
    let t1 = rotate_spec(g);
    let t2 = rotate_spec(t1);
    let t3 = rotate_spec(t2);
    lemma_rotate_shape(g);
    lemma_rotate_shape(t1);
    lemma_rotate_shape(t2);
    lemma_rotate_pairs(g);
    lemma_rotate_pairs(t1);
    lemma_rotate_pairs(t2);
    if !has_horizontal_pair(g) && !has_vertical_pair(g) {
        lemma_full_grid_fixed(g);
        lemma_full_grid_fixed(t1);
        lemma_full_grid_fixed(t2);
        lemma_full_grid_fixed(t3);
        lemma_rotate_round_trip(g);
        assert(left_spec(g) == g);
        assert(up_spec(g) == g);
        assert(right_spec(g) == g);
        assert(down_spec(g) == g);
    } else {
        if has_horizontal_pair(g) {
            lemma_full_grid_moves(g);
            assert(left_spec(g) != g);
        } else {
            assert(has_vertical_pair(g));
            assert(has_horizontal_pair(t1));
            lemma_full_grid_moves(t1);
            let s = slide_grid_spec(t1, n);
            if up_spec(g) == g {
                lemma_slide_grid_square(t1);
                lemma_rotate_round_trip(s);
                lemma_rotate_round_trip(t1);
                assert(rotate_spec(up_spec(g)) == rotate_spec(g));
                assert(rotate_spec(rotate_spec(rotate_spec(rotate_spec(s)))) == s);
                assert(s == rotate_spec(g));
            }
            assert(up_spec(g) != g);
        }
    }
}

} // verus!
