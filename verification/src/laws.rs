//! The solver's laws, stated and proved over the grid's mathematical model.

use vstd::prelude::*;
use vstd::seq_lib::seq_to_set_is_finite;
use vstd::set_lib::{lemma_len_subset, lemma_subset_equality};
use crate::bits::{bit_set, count_in_range, popcount9, lemma_bit_counts, lemma_count_all_clear,
    lemma_mask_bits_determine, lemma_zero_mask_bit};
use crate::grid::{
    cells_valid, col_contains, col_of, full, is_completion, lemma_masks_determined, row_contains,
    row_of, stack_slice_contains, Grid,
};

verus! {

/// The cell of row `r` and column `c` in a row-major 81-cell buffer.
pub open spec fn cell_at(cells: Seq<u8>, r: int, c: int) -> u8 {
    cells[r * 9 + c]
}

/// Row-major indexing: the cell of row `r` and column `c` lies at index
/// `r * 9 + c`, and that index decodes back to `(r, c)`.
pub proof fn lemma_index_coords(r: int, c: int)
    requires
        0 <= r < 9,
        0 <= c < 9,
    ensures
        row_of(r * 9 + c) == r,
        col_of(r * 9 + c) == c,
{
    assert((r * 9 + c) / 9 == r && (r * 9 + c) % 9 == c) by (nonlinear_arith)
        requires
            0 <= r < 9 && 0 <= c < 9,
    ;
}

/// Nine pairwise distinct digits 1..9 standing in nine cells include every
/// digit.
proof fn lemma_nine_distinct_digits_cover(s: Seq<u8>)
    requires
        s.len() == 9,
        forall|i: int| 0 <= i < 9 ==> 1 <= #[trigger] s[i] <= 9,
        forall|i: int, j: int| 0 <= i < 9 && 0 <= j < 9 && i != j ==> #[trigger] s[i] != #[trigger] s[j],
    ensures
        forall|v: u8| 1 <= v <= 9 ==> s.contains(v),
{
    broadcast use seq_to_set_is_finite;

    let digits: Seq<u8> = seq![1u8, 2u8, 3u8, 4u8, 5u8, 6u8, 7u8, 8u8, 9u8];
    assert(s.no_duplicates());
    s.unique_seq_to_set();
    assert(digits.no_duplicates());
    digits.unique_seq_to_set();
    assert(s.to_set().subset_of(digits.to_set())) by {
        assert forall|x: u8| s.to_set().contains(x) implies digits.to_set().contains(x) by {
            let i = choose|i: int| 0 <= i < s.len() && s[i] == x;
            assert(digits[x as int - 1] == x);
            assert(digits.contains(x));
        }
    }
    lemma_len_subset(s.to_set(), digits.to_set());
    lemma_subset_equality(s.to_set(), digits.to_set());
    assert forall|v: u8| 1 <= v <= 9 implies s.contains(v) by {
        assert(digits[v as int - 1] == v);
        assert(digits.contains(v));
        assert(digits.to_set().contains(v));
        assert(s.to_set().contains(v));
    }
}

/// In a fully filled buffer of digits 1..9 without row or column
/// duplicates, row `r` holds digit `v` in exactly one column: one column
/// carries it, and two columns that carry it are the same column.
pub proof fn lemma_row_has_digit_once(cells: Seq<u8>, r: int, v: u8)
    requires
        cells.len() == 81,
        forall|i: int| 0 <= i < 81 ==> 1 <= #[trigger] cells[i] <= 9,
        cells_valid(cells),
        0 <= r < 9,
        1 <= v <= 9,
    ensures
        exists|c: int| 0 <= c < 9 && #[trigger] cell_at(cells, r, c) == v,
        forall|c1: int, c2: int|
            0 <= c1 < 9 && 0 <= c2 < 9 && #[trigger] cell_at(cells, r, c1) == v && #[trigger]
                cell_at(cells, r, c2) == v ==> c1 == c2,
{
    let row_seq = Seq::new(9, |c: int| cells[r * 9 + c]);
    assert forall|c1: int, c2: int| 0 <= c1 < 9 && 0 <= c2 < 9 && c1 != c2 implies #[trigger] row_seq[c1]
        != #[trigger] row_seq[c2] by {
        lemma_index_coords(r, c1);
        lemma_index_coords(r, c2);
        assert(cells[r * 9 + c1] != 0);
    }
    lemma_nine_distinct_digits_cover(row_seq);
    assert(row_seq.contains(v));
    let c = choose|c: int| 0 <= c < row_seq.len() && row_seq[c] == v;
    assert(cell_at(cells, r, c) == v);
}

/// The column counterpart of `lemma_row_has_digit_once`.
pub proof fn lemma_col_has_digit_once(cells: Seq<u8>, c: int, v: u8)
    requires
        cells.len() == 81,
        forall|i: int| 0 <= i < 81 ==> 1 <= #[trigger] cells[i] <= 9,
        cells_valid(cells),
        0 <= c < 9,
        1 <= v <= 9,
    ensures
        exists|r: int| 0 <= r < 9 && #[trigger] cell_at(cells, r, c) == v,
        forall|r1: int, r2: int|
            0 <= r1 < 9 && 0 <= r2 < 9 && #[trigger] cell_at(cells, r1, c) == v && #[trigger]
                cell_at(cells, r2, c) == v ==> r1 == r2,
{
    let col_seq = Seq::new(9, |r: int| cells[r * 9 + c]);
    assert forall|r1: int, r2: int| 0 <= r1 < 9 && 0 <= r2 < 9 && r1 != r2 implies #[trigger] col_seq[r1]
        != #[trigger] col_seq[r2] by {
        lemma_index_coords(r1, c);
        lemma_index_coords(r2, c);
        assert(cells[r1 * 9 + c] != 0);
    }
    lemma_nine_distinct_digits_cover(col_seq);
    assert(col_seq.contains(v));
    let r = choose|r: int| 0 <= r < col_seq.len() && col_seq[r] == v;
    assert(cell_at(cells, r, c) == v);
}

/// After a mask recomputation the masks are in step with the cells, so at
/// every filled cell the value's bit is clear in its row's and its
/// column's mask, and bit 0 of every mask is clear.
pub proof fn lemma_masks_clear_filled(g: Grid, i: int)
    requires
        g.wf(),
        g.masks_ok(),
        0 <= i < 81,
        g.cells@[i] != 0,
    ensures
        !bit_set(g.lines_state@[row_of(i)], g.cells@[i] as u16),
        !bit_set(g.columns_state@[col_of(i)], g.cells@[i] as u16),
        !bit_set(g.lines_state@[row_of(i)], 0),
        !bit_set(g.columns_state@[col_of(i)], 0),
{
    let v = g.cells@[i] as int;
    assert(row_contains(g.cells@, row_of(i), v)) by {
        assert(0 <= i < 81 && row_of(i) == row_of(i) && g.cells@[i] == v);
    }
    assert(col_contains(g.cells@, col_of(i), v)) by {
        assert(0 <= i < 81 && col_of(i) == col_of(i) && g.cells@[i] == v);
    }
}

/// In a grid with no empty cell whose masks are in step with the cells,
/// every mask is zero, and the candidate set of every cell counts no
/// candidate at all (it classifies as empty).
pub proof fn lemma_full_grid_no_candidates(g: Grid)
    requires
        g.wf(),
        g.masks_ok(),
        cells_valid(g.cells@),
        full(g.cells@),
    ensures
        forall|r: int| 0 <= r < 9 ==> #[trigger] g.lines_state@[r] == 0,
        forall|c: int| 0 <= c < 9 ==> #[trigger] g.columns_state@[c] == 0,
        forall|i: int| 0 <= i < 81 ==> popcount9(#[trigger] g.and_at(i)) == 0,
{
    assert forall|i: int| 0 <= i < 81 implies 1 <= #[trigger] g.cells@[i] <= 9 by {}
    assert forall|r: int| 0 <= r < 9 implies #[trigger] g.lines_state@[r] == 0 by {
        let m = g.lines_state@[r];
        assert forall|w: u16| w <= 15 implies #[trigger] bit_set(m, w) == bit_set(0u16, w) by {
            lemma_zero_mask_bit(w);
            let wi = w as int;
            assert(wi as u16 == w);
            if 1 <= wi <= 9 {
                lemma_row_has_digit_once(g.cells@, r, wi as u8);
                let c = choose|c: int| 0 <= c < 9 && #[trigger] cell_at(g.cells@, r, c) == wi as u8;
                lemma_index_coords(r, c);
                assert(row_contains(g.cells@, r, wi)) by {
                    assert(0 <= r * 9 + c < 81 && row_of(r * 9 + c) == r && g.cells@[r * 9 + c]
                        == wi);
                }
                assert(!bit_set(m, wi as u16));
            } else if wi >= 10 {
                assert(!bit_set(m, wi as u16));
            }
        }
        lemma_mask_bits_determine(m, 0u16);
    }
    assert forall|c: int| 0 <= c < 9 implies #[trigger] g.columns_state@[c] == 0 by {
        let m = g.columns_state@[c];
        assert forall|w: u16| w <= 15 implies #[trigger] bit_set(m, w) == bit_set(0u16, w) by {
            lemma_zero_mask_bit(w);
            let wi = w as int;
            assert(wi as u16 == w);
            if 1 <= wi <= 9 {
                lemma_col_has_digit_once(g.cells@, c, wi as u8);
                let r = choose|r: int| 0 <= r < 9 && #[trigger] cell_at(g.cells@, r, c) == wi as u8;
                lemma_index_coords(r, c);
                assert(col_contains(g.cells@, c, wi)) by {
                    assert(0 <= r * 9 + c < 81 && col_of(r * 9 + c) == c && g.cells@[r * 9 + c]
                        == wi);
                }
                assert(!bit_set(m, wi as u16));
            } else if wi >= 10 {
                assert(!bit_set(m, wi as u16));
            }
        }
        lemma_mask_bits_determine(m, 0u16);
    }
    assert forall|i: int| 0 <= i < 81 implies popcount9(#[trigger] g.and_at(i)) == 0 by {
        assert(0 <= row_of(i) < 9 && 0 <= col_of(i) < 9);
        assert(g.and_at(i) == 0u16 & 0u16);
        assert(0u16 & 0u16 == 0u16) by (bit_vector);
        assert forall|v: int| 1 <= v < 10 implies !#[trigger] bit_set(g.and_at(i), v as u16) by {
            lemma_zero_mask_bit(v as u16);
        }
        lemma_count_all_clear(g.and_at(i), 1, 10);
    }
}

/// Trial revert is a left inverse of propagation: clearing exactly the
/// cells that one propagation call pushed on the stack restores the cell
/// buffer that the call started from.
pub proof fn lemma_revert_restores(
    pre: Seq<u8>,
    post: Seq<u8>,
    stack: Seq<usize>,
    base_len: int,
    reverted: Seq<u8>,
)
    requires
        pre.len() == 81,
        post.len() == 81,
        reverted.len() == 81,
        0 <= base_len <= stack.len(),
        forall|k: int|
            base_len <= k < stack.len() ==> (#[trigger] stack[k]) < 81 && pre[stack[k] as int]
                == 0,
        forall|i: int|
            0 <= i < 81 && post[i] != #[trigger] pre[i] ==> stack_slice_contains(
                stack,
                base_len,
                stack.len() as int,
                i,
            ),
        forall|k: int| base_len <= k < stack.len() ==> reverted[(#[trigger] stack[k]) as int] == 0,
        forall|i: int|
            0 <= i < 81 && !stack_slice_contains(stack, base_len, stack.len() as int, i)
                ==> reverted[i] == post[i],
    ensures
        reverted =~= pre,
{
    assert forall|i: int| 0 <= i < 81 implies reverted[i] == pre[i] by {
        if stack_slice_contains(stack, base_len, stack.len() as int, i) {
            let k = choose|k: int|
                base_len <= k < stack.len() && (#[trigger] stack[k]) as int == i;
            assert(reverted[i] == 0 && pre[i] == 0);
        }
    }
}

/// The masks are a function of the cells: two grids with the same cell
/// buffer whose masks are both in step with it carry the same masks, so
/// recomputing masks over a restored buffer restores the masks.
pub proof fn lemma_masks_function_of_cells(a: Grid, b: Grid)
    requires
        a.wf(),
        b.wf(),
        a.masks_ok(),
        b.masks_ok(),
        a.cells@ == b.cells@,
    ensures
        a.lines_state@ == b.lines_state@,
        a.columns_state@ == b.columns_state@,
{
    lemma_masks_determined(a, b);
}

/// Ordinal selection scans candidates in ascending digit order: of two
/// candidates of one mask, the one preceded by fewer set bits is the
/// smaller digit, so the digits that `Grid::get_potential_value_at`
/// returns for growing ordinals strictly ascend.
pub proof fn lemma_ordinal_selection_ascending(mask: u16, a: int, b: int)
    requires
        1 <= a <= 9,
        1 <= b <= 9,
        bit_set(mask, a as u16),
        bit_set(mask, b as u16),
        count_in_range(mask, 1, a) < count_in_range(mask, 1, b),
    ensures
        a < b,
{
    if b < a {
        lemma_bit_counts(mask, b, 1, a);
    }
}

/// A successful solve leaves a completion: every cell a digit 1..9, no
/// duplicates, and every digit standing exactly once in every row and
/// every column.
pub proof fn lemma_completion_is_latin(ext: Seq<u8>, base: Seq<u8>)
    requires
        is_completion(ext, base),
    ensures
        full(ext),
        forall|r: int, v: int| 0 <= r < 9 && 1 <= v <= 9 ==> #[trigger] row_contains(ext, r, v),
        forall|c: int, v: int| 0 <= c < 9 && 1 <= v <= 9 ==> #[trigger] col_contains(ext, c, v),
{
    assert forall|r: int, v: int| 0 <= r < 9 && 1 <= v <= 9 implies #[trigger] row_contains(
        ext,
        r,
        v,
    ) by {
        lemma_row_has_digit_once(ext, r, v as u8);
        let c = choose|c: int| 0 <= c < 9 && #[trigger] cell_at(ext, r, c) == v as u8;
        lemma_index_coords(r, c);
        assert(0 <= r * 9 + c < 81 && row_of(r * 9 + c) == r && ext[r * 9 + c] == v);
    }
    assert forall|c: int, v: int| 0 <= c < 9 && 1 <= v <= 9 implies #[trigger] col_contains(
        ext,
        c,
        v,
    ) by {
        lemma_col_has_digit_once(ext, c, v as u8);
        let r = choose|r: int| 0 <= r < 9 && #[trigger] cell_at(ext, r, c) == v as u8;
        lemma_index_coords(r, c);
        assert(0 <= r * 9 + c < 81 && col_of(r * 9 + c) == c && ext[r * 9 + c] == v);
    }
}

} // verus!
