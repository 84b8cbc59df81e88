//! The grid solver: an 81-cell value buffer, one candidate mask per row and
//! per column, and a stack of cell indices assigned by constraint
//! propagation, used to roll back trial branches.

use vstd::prelude::*;
use vstd::string::StringExecFns;
use crate::bits::{
    bit_set, count_in_range, popcount9, lemma_count_le, lemma_bit_counts, FULL_MASK,
};

verus! {

/// How a candidate mask reads at an empty cell: no candidate left, exactly
/// one forced digit, or several possibilities.
pub enum PotentialState {
    Empty,
    Unique(u8),
    Multiple(u8),
}

/// The failures the solver can surface.
#[derive(Clone, Copy, Debug, PartialEq, Eq, Structural)]
pub enum GridError {
    /// A seed has value 0 or coordinates outside the grid.
    InvalidSeed,
    /// Propagation from the initial cells proves a contradiction, or the
    /// initial cells already break row or column uniqueness.
    InconsistentBase,
    /// The search exhausted every branch without completing the grid.
    Unsolvable,
}

/// The row of a cell index, row-major: index = row * 9 + column.
pub open spec fn row_of(i: int) -> int {
    i / 9
}

/// The column of a cell index.
pub open spec fn col_of(i: int) -> int {
    i % 9
}

/// The cell buffer has 81 entries, each a digit 0..9 (0 means empty).
pub open spec fn cells_ok(cells: Seq<u8>) -> bool {
    cells.len() == 81 && (forall|i: int| 0 <= i < 81 ==> cells[i] <= 9)
}

/// Every cell is filled.
pub open spec fn full(cells: Seq<u8>) -> bool {
    forall|i: int| 0 <= i < 81 ==> cells[i] != 0
}

/// How many cells are still empty.
pub open spec fn count_zeros(cells: Seq<u8>) -> nat
    decreases cells.len(),
{
    if cells.len() == 0 {
        0
    } else {
        count_zeros(cells.drop_last()) + if cells.last() == 0 {
            1nat
        } else {
            0nat
        }
    }
}

/// No nonzero value appears twice in a row or twice in a column.
pub open spec fn cells_valid(cells: Seq<u8>) -> bool {
    forall|i: int, j: int|
        0 <= i < 81 && 0 <= j < 81 && i != j && (row_of(i) == row_of(j) || col_of(i) == col_of(j))
            && #[trigger] cells[i] != 0 ==> cells[i] != #[trigger] cells[j]
}

/// Value `v` stands in row `r` among the first `n` cells of the buffer.
pub open spec fn row_contains_upto(cells: Seq<u8>, r: int, v: int, n: int) -> bool {
    exists|j: int| 0 <= j < n && row_of(j) == r && #[trigger] cells[j] == v
}

/// Value `v` stands somewhere in row `r`.
pub open spec fn row_contains(cells: Seq<u8>, r: int, v: int) -> bool {
    row_contains_upto(cells, r, v, 81)
}

/// Value `v` stands in column `c` among the first `n` cells of the buffer.
pub open spec fn col_contains_upto(cells: Seq<u8>, c: int, v: int, n: int) -> bool {
    exists|j: int| 0 <= j < n && col_of(j) == c && #[trigger] cells[j] == v
}

/// Value `v` stands somewhere in column `c`.
pub open spec fn col_contains(cells: Seq<u8>, c: int, v: int) -> bool {
    col_contains_upto(cells, c, v, 81)
}

/// A row mask agrees with the first `n` cells: bit `v` is set exactly when
/// `v` does not yet stand in the row, and the bits outside 1..9 are clear.
pub open spec fn row_mask_ok_upto(cells: Seq<u8>, r: int, mask: u16, n: int) -> bool {
    &&& !bit_set(mask, 0)
    &&& forall|v: int| 10 <= v <= 15 ==> !#[trigger] bit_set(mask, v as u16)
    &&& forall|v: int|
        1 <= v <= 9 ==> (#[trigger] bit_set(mask, v as u16) <==> !row_contains_upto(cells, r, v, n))
}

/// A row mask agrees with the whole cell buffer.
pub open spec fn row_mask_ok(cells: Seq<u8>, r: int, mask: u16) -> bool {
    row_mask_ok_upto(cells, r, mask, 81)
}

/// The column counterpart of `row_mask_ok_upto`.
pub open spec fn col_mask_ok_upto(cells: Seq<u8>, c: int, mask: u16, n: int) -> bool {
    &&& !bit_set(mask, 0)
    &&& forall|v: int| 10 <= v <= 15 ==> !#[trigger] bit_set(mask, v as u16)
    &&& forall|v: int|
        1 <= v <= 9 ==> (#[trigger] bit_set(mask, v as u16) <==> !col_contains_upto(cells, c, v, n))
}

/// A column mask agrees with the whole cell buffer.
pub open spec fn col_mask_ok(cells: Seq<u8>, c: int, mask: u16) -> bool {
    col_mask_ok_upto(cells, c, mask, 81)
}

/// A seed tuple (value, (line, column)) lies inside the grid and carries a
/// digit 1..9.
pub open spec fn seed_ok(seed: (u8, (usize, usize))) -> bool {
    1 <= seed.0 <= 9 && seed.1.0 < 9 && seed.1.1 < 9
}

/// The cell buffer that a list of seeds produces: 81 empty cells, then each
/// seed written in order of arrival, later seeds overwriting earlier ones.
pub open spec fn apply_seeds(values: Seq<(u8, (usize, usize))>) -> Seq<u8>
    decreases values.len(),
{
    if values.len() == 0 {
        Seq::new(81, |i: int| 0u8)
    } else {
        apply_seeds(values.drop_last()).update(
            (values.last().1.0 as int) * 9 + (values.last().1.1 as int),
            values.last().0,
        )
    }
}

/// A full valid extension of `base`: every cell is a digit 1..9, rows and
/// columns hold no duplicates, and every filled cell of `base` is kept.
pub open spec fn is_completion(ext: Seq<u8>, base: Seq<u8>) -> bool {
    &&& ext.len() == 81
    &&& forall|i: int| 0 <= i < 81 ==> 1 <= #[trigger] ext[i] <= 9
    &&& cells_valid(ext)
    &&& forall|i: int| 0 <= i < 81 && base[i] != 0 ==> #[trigger] ext[i] == base[i]
}

/// How one cell renders: a space for an empty cell, else its decimal
/// digit.
pub open spec fn render_char(v: u8) -> char {
    if v == 1 {
        '1'
    } else if v == 2 {
        '2'
    } else if v == 3 {
        '3'
    } else if v == 4 {
        '4'
    } else if v == 5 {
        '5'
    } else if v == 6 {
        '6'
    } else if v == 7 {
        '7'
    } else if v == 8 {
        '8'
    } else if v == 9 {
        '9'
    } else {
        ' '
    }
}

/// The first `c` cells of row `r` rendered: a leading `|`, then each cell
/// followed by `|`.
pub open spec fn render_row_upto(cells: Seq<u8>, r: int, c: int) -> Seq<char>
    decreases c,
{
    if c <= 0 {
        seq!['|']
    } else {
        render_row_upto(cells, r, c - 1) + seq![render_char(cells[r * 9 + (c - 1)]), '|']
    }
}

/// The first `r` rows rendered, each closed by a trailing space and a
/// newline.
pub open spec fn render_rows_upto(cells: Seq<u8>, r: int) -> Seq<char>
    decreases r,
{
    if r <= 0 {
        Seq::empty()
    } else {
        render_rows_upto(cells, r - 1) + render_row_upto(cells, r - 1, 9) + seq![' ', '\n']
    }
}

/// The nine-line text of a cell buffer.
pub open spec fn render_spec(cells: Seq<u8>) -> Seq<char> {
    render_rows_upto(cells, 9)
}

/// Cell index `i` stands somewhere in `stack[from..to]`.
pub open spec fn stack_slice_contains(stack: Seq<usize>, from: int, to: int, i: int) -> bool {
    exists|k: int| from <= k < to && (#[trigger] stack[k]) as int == i
}

/// Scanning one more cell adds exactly that cell's occurrence to a row.
proof fn lemma_row_contains_extend(cells: Seq<u8>, r: int, v: int, n: int)
    requires
        0 <= n < cells.len(),
    ensures
        row_contains_upto(cells, r, v, n + 1) == (row_contains_upto(cells, r, v, n) || (row_of(n)
            == r && cells[n] == v)),
{
    if row_contains_upto(cells, r, v, n + 1) {
        let j = choose|j: int| 0 <= j < n + 1 && row_of(j) == r && #[trigger] cells[j] == v;
        if j < n {
            assert(row_contains_upto(cells, r, v, n));
        }
    }
    if row_contains_upto(cells, r, v, n) {
        let j = choose|j: int| 0 <= j < n && row_of(j) == r && #[trigger] cells[j] == v;
        assert(0 <= j < n + 1 && row_of(j) == r && cells[j] == v);
    }
    if row_of(n) == r && cells[n] == v {
        assert(0 <= n < n + 1 && row_of(n) == r && cells[n] == v);
        assert(row_contains_upto(cells, r, v, n + 1));
    }
}

/// The column counterpart of `lemma_row_contains_extend`.
proof fn lemma_col_contains_extend(cells: Seq<u8>, c: int, v: int, n: int)
    requires
        0 <= n < cells.len(),
    ensures
        col_contains_upto(cells, c, v, n + 1) == (col_contains_upto(cells, c, v, n) || (col_of(n)
            == c && cells[n] == v)),
{
    if col_contains_upto(cells, c, v, n + 1) {
        let j = choose|j: int| 0 <= j < n + 1 && col_of(j) == c && #[trigger] cells[j] == v;
        if j < n {
            assert(col_contains_upto(cells, c, v, n));
        }
    }
    if col_contains_upto(cells, c, v, n) {
        let j = choose|j: int| 0 <= j < n && col_of(j) == c && #[trigger] cells[j] == v;
        assert(0 <= j < n + 1 && col_of(j) == c && cells[j] == v);
    }
    if col_of(n) == c && cells[n] == v {
        assert(0 <= n < n + 1 && col_of(n) == c && cells[n] == v);
        assert(col_contains_upto(cells, c, v, n + 1));
    }
}

/// Clearing the bit of the value found at cell `n` keeps its row mask in
/// step when the scan advances past `n`.
proof fn lemma_row_mask_update(cells: Seq<u8>, r: int, m: u16, n: int, value: u8)
    requires
        row_mask_ok_upto(cells, r, m, n),
        0 <= n < 81,
        cells.len() == 81,
        row_of(n) == r,
        cells[n] == value,
        1 <= value <= 9,
    ensures
        row_mask_ok_upto(cells, r, m & !(FULL_MASK & (1u16 << (value as u16))), n + 1),
{
    let newm = m & !(FULL_MASK & (1u16 << (value as u16)));
    assert forall|w: int| 0 <= w <= 15 implies #[trigger] bit_set(newm, w as u16) == (w != value
        && bit_set(m, w as u16)) by {
        crate::bits::lemma_clear_bit(m, value as u16, w as u16);
    }
    assert forall|v: int| 1 <= v <= 9 implies (#[trigger] bit_set(newm, v as u16)
        <==> !row_contains_upto(cells, r, v, n + 1)) by {
        lemma_row_contains_extend(cells, r, v, n);
    }
}

/// The column counterpart of `lemma_row_mask_update`.
proof fn lemma_col_mask_update(cells: Seq<u8>, c: int, m: u16, n: int, value: u8)
    requires
        col_mask_ok_upto(cells, c, m, n),
        0 <= n < 81,
        cells.len() == 81,
        col_of(n) == c,
        cells[n] == value,
        1 <= value <= 9,
    ensures
        col_mask_ok_upto(cells, c, m & !(FULL_MASK & (1u16 << (value as u16))), n + 1),
{
    let newm = m & !(FULL_MASK & (1u16 << (value as u16)));
    assert forall|w: int| 0 <= w <= 15 implies #[trigger] bit_set(newm, w as u16) == (w != value
        && bit_set(m, w as u16)) by {
        crate::bits::lemma_clear_bit(m, value as u16, w as u16);
    }
    assert forall|v: int| 1 <= v <= 9 implies (#[trigger] bit_set(newm, v as u16)
        <==> !col_contains_upto(cells, c, v, n + 1)) by {
        lemma_col_contains_extend(cells, c, v, n);
    }
}

/// A row mask stays in step past a cell that is empty or lies in another
/// row.
proof fn lemma_row_mask_skip(cells: Seq<u8>, r: int, m: u16, n: int)
    requires
        row_mask_ok_upto(cells, r, m, n),
        0 <= n < 81,
        cells.len() == 81,
        row_of(n) != r || cells[n] == 0,
    ensures
        row_mask_ok_upto(cells, r, m, n + 1),
{
    assert forall|v: int| 1 <= v <= 9 implies (#[trigger] bit_set(m, v as u16)
        <==> !row_contains_upto(cells, r, v, n + 1)) by {
        lemma_row_contains_extend(cells, r, v, n);
    }
}

/// The column counterpart of `lemma_row_mask_skip`.
proof fn lemma_col_mask_skip(cells: Seq<u8>, c: int, m: u16, n: int)
    requires
        col_mask_ok_upto(cells, c, m, n),
        0 <= n < 81,
        cells.len() == 81,
        col_of(n) != c || cells[n] == 0,
    ensures
        col_mask_ok_upto(cells, c, m, n + 1),
{
    assert forall|v: int| 1 <= v <= 9 implies (#[trigger] bit_set(m, v as u16)
        <==> !col_contains_upto(cells, c, v, n + 1)) by {
        lemma_col_contains_extend(cells, c, v, n);
    }
}

/// Filling an empty cell removes one zero from the buffer.
proof fn lemma_count_zeros_update_nonzero(cells: Seq<u8>, i: int, value: u8)
    requires
        0 <= i < cells.len(),
        cells[i] == 0,
        value != 0,
    ensures
        count_zeros(cells.update(i, value)) < count_zeros(cells),
    decreases cells.len(),
{
    let upd = cells.update(i, value);
    if i == cells.len() - 1 {
        assert(upd.drop_last() =~= cells.drop_last());
    } else {
        assert(upd.drop_last() =~= cells.drop_last().update(i, value));
        lemma_count_zeros_update_nonzero(cells.drop_last(), i, value);
    }
}

/// A buffer whose zeros all were zeros of another buffer has at most as
/// many zeros.
proof fn lemma_count_zeros_mono(c1: Seq<u8>, c2: Seq<u8>)
    requires
        c1.len() == c2.len(),
        forall|i: int| 0 <= i < c1.len() && #[trigger] c2[i] == 0 ==> c1[i] == 0,
    ensures
        count_zeros(c2) <= count_zeros(c1),
    decreases c1.len(),
{
    if c1.len() > 0 {
        assert forall|i: int|
            0 <= i < c1.drop_last().len() && #[trigger] c2.drop_last()[i] == 0 implies c1.drop_last()[i]
            == 0 by {
            assert(c2[i] == c2.drop_last()[i]);
        }
        lemma_count_zeros_mono(c1.drop_last(), c2.drop_last());
    }
}

/// At an empty cell, any completion's digit is still a candidate: its bit
/// is set in the AND of the row mask and the column mask.
proof fn lemma_completion_candidate(g: Grid, ext: Seq<u8>, i: int)
    requires
        g.wf(),
        g.masks_ok(),
        is_completion(ext, g.cells@),
        0 <= i < 81,
        g.cells@[i] == 0,
    ensures
        1 <= ext[i] <= 9,
        bit_set(g.and_at(i), ext[i] as u16),
{
    let v = ext[i] as int;
    let r = row_of(i);
    let c = col_of(i);
    assert(!row_contains(g.cells@, r, v)) by {
        if row_contains(g.cells@, r, v) {
            let j = choose|j: int| 0 <= j < 81 && row_of(j) == r && #[trigger] g.cells@[j] == v;
            assert(ext[j] == g.cells@[j]);
            assert(j != i);
            assert(ext[i] != 0);
            assert(false);
        }
    }
    assert(!col_contains(g.cells@, c, v)) by {
        if col_contains(g.cells@, c, v) {
            let j = choose|j: int| 0 <= j < 81 && col_of(j) == c && #[trigger] g.cells@[j] == v;
            assert(ext[j] == g.cells@[j]);
            assert(j != i);
            assert(ext[i] != 0);
            assert(false);
        }
    }
    assert(bit_set(g.lines_state@[r], v as u16));
    assert(bit_set(g.columns_state@[c], v as u16));
    crate::bits::lemma_and_bit(g.lines_state@[r], g.columns_state@[c], v as u16);
}

/// Writing a digit that is still a candidate of its row and column keeps
/// the buffer free of duplicates.
proof fn lemma_write_preserves_valid(g: Grid, i: int, value: u8)
    requires
        g.wf(),
        g.masks_ok(),
        cells_valid(g.cells@),
        0 <= i < 81,
        g.cells@[i] == 0,
        1 <= value <= 9,
        bit_set(g.and_at(i), value as u16),
    ensures
        cells_valid(g.cells@.update(i, value)),
{
    let cs = g.cells@.update(i, value);
    let r = row_of(i);
    let c = col_of(i);
    crate::bits::lemma_and_bit(g.lines_state@[r], g.columns_state@[c], value as u16);
    assert(!row_contains(g.cells@, r, value as int));
    assert(!col_contains(g.cells@, c, value as int));
    assert forall|a: int, b: int|
        0 <= a < 81 && 0 <= b < 81 && a != b && (row_of(a) == row_of(b) || col_of(a) == col_of(b))
            && #[trigger] cs[a] != 0 implies cs[a] != #[trigger] cs[b] by {
        if a == i {
            if b != i && cs[b] == value && g.cells@[b] != 0 {
                if row_of(b) == r {
                    assert(row_contains(g.cells@, r, value as int)) by {
                        assert(0 <= b < 81 && row_of(b) == r && g.cells@[b] == value as int);
                    }
                }
                if col_of(b) == c {
                    assert(col_contains(g.cells@, c, value as int)) by {
                        assert(0 <= b < 81 && col_of(b) == c && g.cells@[b] == value as int);
                    }
                }
            }
        } else if b == i {
            if cs[a] == value {
                if row_of(a) == r {
                    assert(row_contains(g.cells@, r, value as int)) by {
                        assert(0 <= a < 81 && row_of(a) == r && g.cells@[a] == value as int);
                    }
                }
                if col_of(a) == c {
                    assert(col_contains(g.cells@, c, value as int)) by {
                        assert(0 <= a < 81 && col_of(a) == c && g.cells@[a] == value as int);
                    }
                }
            }
        }
    }
}

/// A row's cells determine its mask: two masks in step with the same
/// buffer are equal.
proof fn lemma_row_mask_unique(cells: Seq<u8>, r: int, m1: u16, m2: u16)
    requires
        row_mask_ok(cells, r, m1),
        row_mask_ok(cells, r, m2),
    ensures
        m1 == m2,
{
    assert forall|v: u16| v <= 15 implies #[trigger] bit_set(m1, v) == bit_set(m2, v) by {
        let vi = v as int;
        assert(vi as u16 == v);
        if 1 <= vi <= 9 {
            assert(bit_set(m1, vi as u16) <==> !row_contains(cells, r, vi));
            assert(bit_set(m2, vi as u16) <==> !row_contains(cells, r, vi));
        } else if vi >= 10 {
            assert(!bit_set(m1, vi as u16));
            assert(!bit_set(m2, vi as u16));
        }
    }
    crate::bits::lemma_mask_bits_determine(m1, m2);
}

/// The column counterpart of `lemma_row_mask_unique`.
proof fn lemma_col_mask_unique(cells: Seq<u8>, c: int, m1: u16, m2: u16)
    requires
        col_mask_ok(cells, c, m1),
        col_mask_ok(cells, c, m2),
    ensures
        m1 == m2,
{
    assert forall|v: u16| v <= 15 implies #[trigger] bit_set(m1, v) == bit_set(m2, v) by {
        let vi = v as int;
        assert(vi as u16 == v);
        if 1 <= vi <= 9 {
            assert(bit_set(m1, vi as u16) <==> !col_contains(cells, c, vi));
            assert(bit_set(m2, vi as u16) <==> !col_contains(cells, c, vi));
        } else if vi >= 10 {
            assert(!bit_set(m1, vi as u16));
            assert(!bit_set(m2, vi as u16));
        }
    }
    crate::bits::lemma_mask_bits_determine(m1, m2);
}

/// Masks in step with the same cell buffer agree in both grids.
pub(crate) proof fn lemma_masks_determined(a: Grid, b: Grid)
    requires
        a.wf(),
        b.wf(),
        a.masks_ok(),
        b.masks_ok(),
        a.cells@ == b.cells@,
    ensures
        a.lines_state@ == b.lines_state@,
        a.columns_state@ == b.columns_state@,
{
    assert forall|r: int| 0 <= r < 9 implies a.lines_state@[r] == b.lines_state@[r] by {
        lemma_row_mask_unique(a.cells@, r, a.lines_state@[r], b.lines_state@[r]);
    }
    assert forall|c: int| 0 <= c < 9 implies a.columns_state@[c] == b.columns_state@[c] by {
        lemma_col_mask_unique(a.cells@, c, a.columns_state@[c], b.columns_state@[c]);
    }
    assert(a.lines_state@ =~= b.lines_state@);
    assert(a.columns_state@ =~= b.columns_state@);
}

/// A buffer with a full valid extension is itself free of duplicates.
proof fn lemma_completion_base_valid(ext: Seq<u8>, base: Seq<u8>)
    requires
        is_completion(ext, base),
        base.len() == 81,
    ensures
        cells_valid(base),
{
    assert forall|i: int, j: int|
        0 <= i < 81 && 0 <= j < 81 && i != j && (row_of(i) == row_of(j) || col_of(i) == col_of(j))
            && #[trigger] base[i] != 0 implies base[i] != #[trigger] base[j] by {
        assert(ext[i] == base[i]);
        if base[j] != 0 {
            assert(ext[j] == base[j]);
            assert(ext[i] != 0);
        }
    }
}

/// What one pass over the buffer decides: every empty cell keeps at least
/// two candidates, or the first non-ambiguous empty cell found, forced or
/// contradictory.
enum ScanOutcome {
    Settled,
    Forced(usize, u8),
    Contradiction(usize),
}

/// The grid solver.
pub struct Grid {
    /// Row-major cell values; 0 means empty.
    pub cells: Vec<u8>,
    /// Per-row candidate masks.
    pub lines_state: Vec<u16>,
    /// Per-column candidate masks.
    pub columns_state: Vec<u16>,
    /// Indices of the cells assigned by propagation, in assignment order.
    pub solved_indices_stack: Vec<usize>,
}

impl Grid {
    /// Structural well-formedness: buffer and mask lengths, digit range,
    /// stack entries inside the grid.
    pub open spec fn wf(self) -> bool {
        &&& cells_ok(self.cells@)
        &&& self.lines_state@.len() == 9
        &&& self.columns_state@.len() == 9
        &&& forall|k: int|
            0 <= k < self.solved_indices_stack@.len() ==> #[trigger] self.solved_indices_stack@[k]
                < 81
    }

    /// Every row and column mask agrees with the cell buffer.
    pub open spec fn masks_ok(self) -> bool {
        &&& forall|r: int| 0 <= r < 9 ==> row_mask_ok(self.cells@, r, #[trigger] self.lines_state@[r])
        &&& forall|c: int|
            0 <= c < 9 ==> col_mask_ok(self.cells@, c, #[trigger] self.columns_state@[c])
    }

    /// The candidate set of the cell at index `i`: the AND of its row mask
    /// and its column mask.
    pub open spec fn and_at(self, i: int) -> u16 {
        self.lines_state@[row_of(i)] & self.columns_state@[col_of(i)]
    }

    /// Builds a grid from seed tuples (value, (line, column)); seeds
    /// overwrite in order of arrival. A seed with value 0, value above 9,
    /// or coordinates outside the grid is rejected.
    #[verifier::loop_isolation(false)]
    pub fn create(values: &[(u8, (usize, usize))]) -> (result: Result<Grid, GridError>)
        ensures
            match result {
                Ok(grid) => {
                    &&& forall|k: int| 0 <= k < values@.len() ==> seed_ok(#[trigger] values@[k])
                    &&& grid.wf()
                    &&& grid.cells@ == apply_seeds(values@)
                    &&& grid.solved_indices_stack@.len() == 0
                    &&& forall|r: int| 0 <= r < 9 ==> #[trigger] grid.lines_state@[r] == 0
                    &&& forall|c: int| 0 <= c < 9 ==> #[trigger] grid.columns_state@[c] == 0
                },
                Err(e) => e == GridError::InvalidSeed && exists|k: int|
                    0 <= k < values@.len() && !seed_ok(#[trigger] values@[k]),
            },
    {
        let mut cells: Vec<u8> = Vec::new();
        let mut fill: usize = 0;
        while fill < 81
            invariant
                cells@.len() == fill,
                fill <= 81,
                forall|i: int| 0 <= i < fill ==> #[trigger] cells@[i] == 0,
            decreases 81 - fill,
        {
            cells.push(0);
            fill = fill + 1;
        }
        assert(cells@ =~= Seq::new(81, |i: int| 0u8));

        let mut k: usize = 0;
        while k < values.len()
            invariant
                k <= values@.len(),
                forall|j: int| 0 <= j < k ==> seed_ok(#[trigger] values@[j]),
                cells@ == apply_seeds(values@.take(k as int)),
                cells@.len() == 81,
                forall|i: int| 0 <= i < 81 ==> #[trigger] cells@[i] <= 9,
            decreases values@.len() - k,
        {
            let (value, (line, column)) = values[k];
            if value == 0 || value > 9 || line >= 9 || column >= 9 {
                return Err(GridError::InvalidSeed);
            }
            let index = Grid::index_of(line, column);
            cells[index] = value;
            proof {
                assert(values@.take(k + 1).drop_last() =~= values@.take(k as int));
                assert(values@.take(k + 1).last() == values@[k as int]);
            }
            k = k + 1;
        }
        assert(values@.take(values@.len() as int) =~= values@);

        let mut lines_state: Vec<u16> = Vec::new();
        let mut columns_state: Vec<u16> = Vec::new();
        let mut m: usize = 0;
        while m < 9
            invariant
                lines_state@.len() == m,
                columns_state@.len() == m,
                m <= 9,
                forall|r: int| 0 <= r < m ==> #[trigger] lines_state@[r] == 0,
                forall|c: int| 0 <= c < m ==> #[trigger] columns_state@[c] == 0,
            decreases 9 - m,
        {
            lines_state.push(0);
            columns_state.push(0);
            m = m + 1;
        }

        Ok(Grid { cells, lines_state, columns_state, solved_indices_stack: Vec::new() })
    }

    /// Rebuilds every row and column mask from the cell buffer: all masks
    /// start with the nine candidates present, then every filled cell
    /// clears its value's bit in its row's and its column's mask. This is
    /// the only routine that writes masks, and it is idempotent.
    #[verifier::loop_isolation(false)]
    pub fn compute_potentials(&mut self)
        requires
            old(self).wf(),
        ensures
            final(self).wf(),
            final(self).cells@ == old(self).cells@,
            final(self).solved_indices_stack@ == old(self).solved_indices_stack@,
            final(self).masks_ok(),
    {
        let mut m: usize = 0;
        while m < 9
            invariant
                m <= 9,
                self.cells@ == old(self).cells@,
                self.solved_indices_stack@ == old(self).solved_indices_stack@,
                self.lines_state@.len() == 9,
                self.columns_state@.len() == 9,
                forall|r: int| 0 <= r < m ==> #[trigger] self.lines_state@[r] == FULL_MASK,
                forall|c: int| 0 <= c < m ==> #[trigger] self.columns_state@[c] == FULL_MASK,
            decreases 9 - m,
        {
            self.lines_state[m] = FULL_MASK;
            self.columns_state[m] = FULL_MASK;
            m = m + 1;
        }
        proof {
            assert forall|w: int| 0 <= w <= 15 implies #[trigger] bit_set(FULL_MASK, w as u16) == (
            1 <= w <= 9) by {
                crate::bits::lemma_full_mask_bit(w as u16);
            }
            assert forall|r: int| 0 <= r < 9 implies row_mask_ok_upto(
                self.cells@,
                r,
                #[trigger] self.lines_state@[r],
                0,
            ) by {
                let mask = self.lines_state@[r];
                assert(mask == FULL_MASK);
                assert(!bit_set(mask, 0)) by {
                    crate::bits::lemma_full_mask_bit(0u16);
                }
                assert forall|v: int| 10 <= v <= 15 implies !#[trigger] bit_set(mask, v as u16) by {
                    crate::bits::lemma_full_mask_bit(v as u16);
                }
                assert forall|v: int| 1 <= v <= 9 implies (#[trigger] bit_set(mask, v as u16)
                    <==> !row_contains_upto(self.cells@, r, v, 0)) by {
                    crate::bits::lemma_full_mask_bit(v as u16);
                    assert(!row_contains_upto(self.cells@, r, v, 0));
                }
            }
            assert forall|c: int| 0 <= c < 9 implies col_mask_ok_upto(
                self.cells@,
                c,
                #[trigger] self.columns_state@[c],
                0,
            ) by {
                let mask = self.columns_state@[c];
                assert(mask == FULL_MASK);
                assert(!bit_set(mask, 0)) by {
                    crate::bits::lemma_full_mask_bit(0u16);
                }
                assert forall|v: int| 10 <= v <= 15 implies !#[trigger] bit_set(mask, v as u16) by {
                    crate::bits::lemma_full_mask_bit(v as u16);
                }
                assert forall|v: int| 1 <= v <= 9 implies (#[trigger] bit_set(mask, v as u16)
                    <==> !col_contains_upto(self.cells@, c, v, 0)) by {
                    crate::bits::lemma_full_mask_bit(v as u16);
                    assert(!col_contains_upto(self.cells@, c, v, 0));
                }
            }
        }

        let mut index: usize = 0;
        while index < 81
            invariant
                index <= 81,
                self.cells@ == old(self).cells@,
                self.solved_indices_stack@ == old(self).solved_indices_stack@,
                self.lines_state@.len() == 9,
                self.columns_state@.len() == 9,
                forall|r: int|
                    0 <= r < 9 ==> row_mask_ok_upto(
                        self.cells@,
                        r,
                        #[trigger] self.lines_state@[r],
                        index as int,
                    ),
                forall|c: int|
                    0 <= c < 9 ==> col_mask_ok_upto(
                        self.cells@,
                        c,
                        #[trigger] self.columns_state@[c],
                        index as int,
                    ),
            decreases 81 - index,
        {
            let value = self.cells[index];
            if value > 0 {
                let value_bit = FULL_MASK & (1u16 << (value as u16));
                let (line, column) = Grid::coordinates_of(index);
                let ghost old_line_mask = self.lines_state@[line as int];
                let ghost old_col_mask = self.columns_state@[column as int];
                let new_line_mask = self.lines_state[line] & !value_bit;
                self.lines_state[line] = new_line_mask;
                let new_col_mask = self.columns_state[column] & !value_bit;
                self.columns_state[column] = new_col_mask;
                proof {
                    lemma_row_mask_update(
                        self.cells@,
                        line as int,
                        old_line_mask,
                        index as int,
                        value,
                    );
                    lemma_col_mask_update(
                        self.cells@,
                        column as int,
                        old_col_mask,
                        index as int,
                        value,
                    );
                    assert forall|r: int| 0 <= r < 9 && r != line as int implies row_mask_ok_upto(
                        self.cells@,
                        r,
                        #[trigger] self.lines_state@[r],
                        index as int + 1,
                    ) by {
                        lemma_row_mask_skip(self.cells@, r, self.lines_state@[r], index as int);
                    }
                    assert forall|c: int| 0 <= c < 9 && c != column as int implies col_mask_ok_upto(
                        self.cells@,
                        c,
                        #[trigger] self.columns_state@[c],
                        index as int + 1,
                    ) by {
                        lemma_col_mask_skip(self.cells@, c, self.columns_state@[c], index as int);
                    }
                }
            } else {
                proof {
                    assert forall|r: int| 0 <= r < 9 implies row_mask_ok_upto(
                        self.cells@,
                        r,
                        #[trigger] self.lines_state@[r],
                        index as int + 1,
                    ) by {
                        lemma_row_mask_skip(self.cells@, r, self.lines_state@[r], index as int);
                    }
                    assert forall|c: int| 0 <= c < 9 implies col_mask_ok_upto(
                        self.cells@,
                        c,
                        #[trigger] self.columns_state@[c],
                        index as int + 1,
                    ) by {
                        lemma_col_mask_skip(self.cells@, c, self.columns_state@[c], index as int);
                    }
                }
            }
            index = index + 1;
        }
    }

    /// Whether any cell is still empty.
    #[verifier::loop_isolation(false)]
    pub fn any_unsolved_cell(&self) -> (r: bool)
        requires
            self.wf(),
        ensures
            r == !full(self.cells@),
    {
        let mut index: usize = 0;
        while index < 81
            invariant
                index <= 81,
                forall|j: int| 0 <= j < index ==> #[trigger] self.cells@[j] != 0,
            decreases 81 - index,
        {
            if self.cells[index] == 0 {
                return true;
            }
            index = index + 1;
        }
        false
    }

    /// Whether the cell buffer breaks row or column uniqueness anywhere.
    #[verifier::loop_isolation(false)]
    fn has_conflict(&self) -> (r: bool)
        requires
            self.wf(),
        ensures
            r == !cells_valid(self.cells@),
    {
        let mut i: usize = 0;
        while i < 81
            invariant
                i <= 81,
                forall|a: int, b: int|
                    0 <= a < i && 0 <= b < 81 && a != b && (row_of(a) == row_of(b) || col_of(a)
                        == col_of(b)) && #[trigger] self.cells@[a] != 0 ==> self.cells@[a]
                        != #[trigger] self.cells@[b],
            decreases 81 - i,
        {
            let vi = self.cells[i];
            if vi > 0 {
                let mut j: usize = 0;
                while j < 81
                    invariant
                        j <= 81,
                        forall|b: int|
                            0 <= b < j && i as int != b && (row_of(i as int) == row_of(b) || col_of(
                                i as int,
                            ) == col_of(b)) ==> self.cells@[i as int] != #[trigger] self.cells@[b],
                    decreases 81 - j,
                {
                    if j != i && (i / 9 == j / 9 || i % 9 == j % 9) && self.cells[j] == vi {
                        assert(!cells_valid(self.cells@)) by {
                            assert(self.cells@[i as int] != 0 && self.cells@[i as int]
                                == self.cells@[j as int]);
                        }
                        return true;
                    }
                    j = j + 1;
                }
            }
            i = i + 1;
        }
        false
    }

    /// The empty cell with the fewest candidates, first found winning ties,
    /// among the empty cells that still have at least two candidates:
    /// its index, its candidate mask, and its candidate count. `None` when
    /// no empty cell carries two or more candidates.
    #[verifier::loop_isolation(false)]
    pub fn try_find_cell_with_low_potential(&self) -> (result: Option<(usize, u16, u8)>)
        requires
            self.wf(),
        ensures
            match result {
                Some(found) => {
                    &&& found.0 < 81
                    &&& self.cells@[found.0 as int] == 0
                    &&& found.1 == self.and_at(found.0 as int)
                    &&& found.2 == popcount9(found.1)
                    &&& popcount9(found.1) >= 2
                    &&& forall|j: int|
                        0 <= j < 81 && self.cells@[j] == 0 && popcount9(#[trigger] self.and_at(j))
                            >= 2 ==> popcount9(self.and_at(j)) >= found.2
                    &&& forall|j: int|
                        0 <= j < found.0 && self.cells@[j] == 0 && popcount9(
                            #[trigger] self.and_at(j),
                        ) >= 2 ==> popcount9(self.and_at(j)) > found.2
                },
                None => forall|j: int|
                    0 <= j < 81 && self.cells@[j] == 0 ==> popcount9(#[trigger] self.and_at(j)) < 2,
            },
    {
        let mut result_index: usize = usize::MAX;
        let mut result_potential: u16 = 0;
        let mut result_count: u8 = u8::MAX;
        let mut index: usize = 0;
        while index < 81
            invariant
                index <= 81,
                result_potential == 0 ==> result_count == u8::MAX && forall|j: int|
                    0 <= j < index && self.cells@[j] == 0 ==> popcount9(#[trigger] self.and_at(j))
                        < 2,
                result_potential != 0 ==> {
                    &&& result_index < index
                    &&& self.cells@[result_index as int] == 0
                    &&& result_potential == self.and_at(result_index as int)
                    &&& result_count == popcount9(result_potential)
                    &&& popcount9(result_potential) >= 2
                    &&& forall|j: int|
                        0 <= j < index && self.cells@[j] == 0 && popcount9(
                            #[trigger] self.and_at(j),
                        ) >= 2 ==> popcount9(self.and_at(j)) >= result_count
                    &&& forall|j: int|
                        0 <= j < result_index && self.cells@[j] == 0 && popcount9(
                            #[trigger] self.and_at(j),
                        ) >= 2 ==> popcount9(self.and_at(j)) > result_count
                },
            decreases 81 - index,
        {
            let cell = self.cells[index];
            if cell == 0 {
                let (line, column) = Grid::coordinates_of(index);
                let potential = self.lines_state[line] & self.columns_state[column];
                assert(potential == self.and_at(index as int));
                match Grid::interpret_potential(potential) {
                    PotentialState::Multiple(count) => {
                        proof {
                            lemma_count_le(potential, 1, 10);
                        }
                        if count < result_count {
                            proof {
                                crate::bits::lemma_popcount_positive(potential);
                            }
                            result_index = index;
                            result_potential = potential;
                            result_count = count;
                        }
                    },
                    _ => {},
                }
            }
            index = index + 1;
        }

        if result_potential == 0 {
            return Option::None;
        }

        Option::Some((result_index, result_potential, result_count))
    }

    /// One pass over the buffer, in row-major order: the first empty cell
    /// whose candidate set is not ambiguous, or the news that none exists.
    #[verifier::loop_isolation(false)]
    fn scan_for_decision(&self) -> (outcome: ScanOutcome)
        requires
            self.wf(),
        ensures
            match outcome {
                ScanOutcome::Settled => forall|j: int|
                    0 <= j < 81 && self.cells@[j] == 0 ==> popcount9(#[trigger] self.and_at(j))
                        >= 2,
                ScanOutcome::Forced(i, v) => {
                    &&& i < 81
                    &&& self.cells@[i as int] == 0
                    &&& popcount9(self.and_at(i as int)) == 1
                    &&& 1 <= v <= 9
                    &&& bit_set(self.and_at(i as int), v as u16)
                },
                ScanOutcome::Contradiction(i) => i < 81 && self.cells@[i as int] == 0 && popcount9(
                    self.and_at(i as int),
                ) == 0,
            },
    {
        let mut index: usize = 0;
        while index < 81
            invariant
                index <= 81,
                forall|j: int|
                    0 <= j < index && self.cells@[j] == 0 ==> popcount9(#[trigger] self.and_at(j))
                        >= 2,
            decreases 81 - index,
        {
            if self.cells[index] == 0 {
                let (line, column) = Grid::coordinates_of(index);
                let potential = self.lines_state[line] & self.columns_state[column];
                assert(potential == self.and_at(index as int));
                match Grid::interpret_potential(potential) {
                    PotentialState::Unique(value) => {
                        return ScanOutcome::Forced(index, value);
                    },
                    PotentialState::Empty => {
                        return ScanOutcome::Contradiction(index);
                    },
                    PotentialState::Multiple(_) => {},
                }
            }
            index = index + 1;
        }
        ScanOutcome::Settled
    }

    /// Runs constraint propagation to a fixed point: repeatedly scans for
    /// the first empty cell with exactly one candidate, writes that digit,
    /// pushes the cell on the solved-by-propagation stack and recomputes
    /// all masks; stops at a contradiction (an empty cell with no
    /// candidate) or when a scan makes no assignment. Returns whether no
    /// contradiction was found, and how many cells this call pushed.
    #[verifier::loop_isolation(false)]
    pub fn try_solve_by_constrains(&mut self) -> (r: (bool, usize))
        requires
            old(self).wf(),
            old(self).masks_ok(),
            cells_valid(old(self).cells@),
        ensures
            final(self).wf(),
            final(self).masks_ok(),
            cells_valid(final(self).cells@),
            final(self).solved_indices_stack@.len() == old(self).solved_indices_stack@.len() + r.1,
            final(self).solved_indices_stack@.subrange(
                0,
                old(self).solved_indices_stack@.len() as int,
            ) == old(self).solved_indices_stack@,
            forall|k: int|
                old(self).solved_indices_stack@.len() <= k < final(self).solved_indices_stack@.len() ==> {
                    &&& (#[trigger] final(self).solved_indices_stack@[k]) < 81
                    &&& old(self).cells@[final(self).solved_indices_stack@[k] as int] == 0
                    &&& final(self).cells@[final(self).solved_indices_stack@[k] as int] != 0
                },
            forall|i: int|
                0 <= i < 81 && final(self).cells@[i] != #[trigger] old(self).cells@[i] ==> old(self).cells@[i] == 0 && stack_slice_contains(
                    final(self).solved_indices_stack@,
                    old(self).solved_indices_stack@.len() as int,
                    final(self).solved_indices_stack@.len() as int,
                    i,
                ),
            r.0 ==> forall|i: int|
                0 <= i < 81 && final(self).cells@[i] == 0 ==> popcount9(
                    #[trigger] final(self).and_at(i),
                ) >= 2,
            !r.0 ==> exists|i: int|
                0 <= i < 81 && final(self).cells@[i] == 0 && popcount9(
                    #[trigger] final(self).and_at(i),
                ) == 0,
            forall|ext: Seq<u8>| #[trigger]
                is_completion(ext, old(self).cells@) ==> r.0 && is_completion(
                    ext,
                    final(self).cells@,
                ),
    {
        let initial_solved_indices_count = self.solved_indices_stack.len();
        let ghost base_len = old(self).solved_indices_stack@.len() as int;

        let mut any_solve = true;
        let mut any_error = false;
        while any_solve && !any_error
            invariant
                self.wf(),
                self.masks_ok(),
                cells_valid(self.cells@),
                self.solved_indices_stack@.len() >= base_len,
                self.solved_indices_stack@.subrange(0, base_len) == old(self).solved_indices_stack@,
                forall|k: int|
                    base_len <= k < self.solved_indices_stack@.len() ==> {
                        &&& (#[trigger] self.solved_indices_stack@[k]) < 81
                        &&& old(self).cells@[self.solved_indices_stack@[k] as int] == 0
                        &&& self.cells@[self.solved_indices_stack@[k] as int] != 0
                    },
                forall|i: int|
                    0 <= i < 81 && self.cells@[i] != #[trigger] old(self).cells@[i] ==> old(self).cells@[i] == 0 && stack_slice_contains(
                        self.solved_indices_stack@,
                        base_len,
                        self.solved_indices_stack@.len() as int,
                        i,
                    ),
                (!any_solve && !any_error) ==> forall|i: int|
                    0 <= i < 81 && self.cells@[i] == 0 ==> popcount9(#[trigger] self.and_at(i))
                        >= 2,
                any_error ==> exists|i: int|
                    0 <= i < 81 && self.cells@[i] == 0 && popcount9(#[trigger] self.and_at(i))
                        == 0,
                any_error ==> forall|ext: Seq<u8>| !#[trigger] is_completion(
                    ext,
                    old(self).cells@,
                ),
                forall|ext: Seq<u8>| #[trigger]
                    is_completion(ext, old(self).cells@) ==> is_completion(ext, self.cells@),
            decreases count_zeros(self.cells@), (if any_solve {
                1int
            } else {
                0int
            }),
        {
            any_solve = false;
            match self.scan_for_decision() {
                ScanOutcome::Forced(index, value) => {
                    let ghost g0 = *self;
                    proof {
                        lemma_write_preserves_valid(g0, index as int, value);
                        lemma_count_zeros_update_nonzero(g0.cells@, index as int, value);
                        assert forall|ext: Seq<u8>| #[trigger]
                            is_completion(ext, old(self).cells@) implies is_completion(
                            ext,
                            g0.cells@.update(index as int, value),
                        ) by {
                            lemma_completion_candidate(g0, ext, index as int);
                            crate::bits::lemma_single_bit(
                                g0.and_at(index as int),
                                ext[index as int] as int,
                                value as int,
                            );
                        }
                    }
                    self.cells[index] = value;
                    self.solved_indices_stack.push(index);
                    proof {
                        assert(self.solved_indices_stack@.subrange(0, base_len)
                            =~= g0.solved_indices_stack@.subrange(0, base_len));
                        assert forall|i: int|
                            0 <= i < 81 && self.cells@[i] != #[trigger] old(self).cells@[i] implies
                        old(self).cells@[i] == 0 && stack_slice_contains(
                            self.solved_indices_stack@,
                            base_len,
                            self.solved_indices_stack@.len() as int,
                            i,
                        ) by {
                            if i == index as int {
                                let k = self.solved_indices_stack@.len() - 1;
                                assert(base_len <= k < self.solved_indices_stack@.len() && (
                                self.solved_indices_stack@[k]) as int == i);
                            } else {
                                assert(self.cells@[i] == g0.cells@[i]);
                                if g0.cells@[i] != old(self).cells@[i] {
                                    let k = choose|k: int|
                                        base_len <= k < g0.solved_indices_stack@.len() && (
                                        #[trigger] g0.solved_indices_stack@[k]) as int == i;
                                    assert(base_len <= k < self.solved_indices_stack@.len() && (
                                    self.solved_indices_stack@[k]) as int == i);
                                }
                            }
                        }
                    }
                    self.compute_potentials();
                    any_solve = true;
                },
                ScanOutcome::Contradiction(witness) => {
                    proof {
                        assert forall|ext: Seq<u8>| !#[trigger] is_completion(
                            ext,
                            old(self).cells@,
                        ) by {
                            if is_completion(ext, old(self).cells@) {
                                assert(is_completion(ext, self.cells@));
                                lemma_completion_candidate(*self, ext, witness as int);
                                crate::bits::lemma_bit_counts(
                                    self.and_at(witness as int),
                                    ext[witness as int] as int,
                                    1,
                                    10,
                                );
                            }
                        }
                    }
                    any_error = true;
                },
                ScanOutcome::Settled => {},
            }
        }

        (!any_error, self.solved_indices_stack.len() - initial_solved_indices_count)
    }

    /// Pops `count` indices from the solved-by-propagation stack and clears
    /// each popped cell; masks are untouched, so callers pair this with a
    /// mask recomputation before further decisions.
    #[verifier::loop_isolation(false)]
    pub fn revert_last_resolved_indices(&mut self, count: usize)
        requires
            old(self).wf(),
            count <= old(self).solved_indices_stack@.len(),
        ensures
            final(self).wf(),
            final(self).lines_state@ == old(self).lines_state@,
            final(self).columns_state@ == old(self).columns_state@,
            final(self).solved_indices_stack@ == old(self).solved_indices_stack@.subrange(
                0,
                old(self).solved_indices_stack@.len() - count,
            ),
            forall|k: int|
                old(self).solved_indices_stack@.len() - count <= k < old(self).solved_indices_stack@.len() ==> final(self).cells@[(
                #[trigger] old(self).solved_indices_stack@[k]) as int] == 0,
            forall|i: int|
                0 <= i < 81 && !stack_slice_contains(
                    old(self).solved_indices_stack@,
                    old(self).solved_indices_stack@.len() - count,
                    old(self).solved_indices_stack@.len() as int,
                    i,
                ) ==> final(self).cells@[i] == old(self).cells@[i],
    {
        let ghost full_stack = old(self).solved_indices_stack@;
        let ghost stack_len = old(self).solved_indices_stack@.len() as int;
        let mut t: usize = 0;
        while t < count
            invariant
                t <= count,
                self.wf(),
                self.lines_state@ == old(self).lines_state@,
                self.columns_state@ == old(self).columns_state@,
                self.solved_indices_stack@ == full_stack.subrange(0, stack_len - t),
                forall|k: int|
                    stack_len - t <= k < stack_len ==> self.cells@[(#[trigger] full_stack[k]) as int]
                        == 0,
                forall|i: int|
                    0 <= i < 81 && !stack_slice_contains(full_stack, stack_len - t, stack_len, i)
                        ==> self.cells@[i] == old(self).cells@[i],
            decreases count - t,
        {
            let reverted_index = self.solved_indices_stack.pop().unwrap();
            proof {
                assert(reverted_index == full_stack[stack_len - t - 1]);
                assert(self.solved_indices_stack@ =~= full_stack.subrange(0, stack_len - t - 1));
                assert(reverted_index < 81);
            }
            self.cells[reverted_index] = 0;
            proof {
                assert forall|i: int|
                    0 <= i < 81 && !stack_slice_contains(full_stack, stack_len - t - 1, stack_len, i)
                        implies self.cells@[i] == old(self).cells@[i] by {
                    assert(!stack_slice_contains(full_stack, stack_len - t, stack_len, i));
                    assert(i != reverted_index as int);
                }
            }
            t = t + 1;
        }
    }

    /// Depth-first search: picks the empty cell with the fewest candidates,
    /// tries its candidates in ascending digit order, propagating after
    /// each trial and reverting the trial on failure. Returns true exactly
    /// when the cells admit a full row- and column-valid completion; on
    /// failure the grid is restored to its state at entry.
    #[verifier::loop_isolation(false)]
    pub fn try_solve_recursive(&mut self) -> (r: bool)
        requires
            old(self).wf(),
            old(self).masks_ok(),
            cells_valid(old(self).cells@),
            forall|i: int|
                0 <= i < 81 && old(self).cells@[i] == 0 ==> popcount9(
                    #[trigger] old(self).and_at(i),
                ) >= 2,
        ensures
            final(self).wf(),
            final(self).masks_ok(),
            cells_valid(final(self).cells@),
            forall|i: int|
                0 <= i < 81 && #[trigger] old(self).cells@[i] != 0 ==> final(self).cells@[i] == old(
                    self,
                ).cells@[i],
            r ==> full(final(self).cells@) && is_completion(final(self).cells@, old(self).cells@),
            !r ==> final(self).cells@ == old(self).cells@ && final(self).solved_indices_stack@
                == old(self).solved_indices_stack@,
            r <==> exists|ext: Seq<u8>| #[trigger] is_completion(ext, old(self).cells@),
        decreases count_zeros(old(self).cells@),
    {
        if !self.any_unsolved_cell() {
            proof {
                assert(is_completion(self.cells@, old(self).cells@));
            }
            return true;
        }
        match self.try_find_cell_with_low_potential() {
            Option::Some((cell_index, potential, potential_count)) => {
                let mut potential_index: u8 = 0;
                while potential_index < potential_count
                    invariant
                        potential_index <= potential_count,
                        self.wf(),
                        self.masks_ok(),
                        cells_valid(self.cells@),
                        self.cells@ == old(self).cells@,
                        self.solved_indices_stack@ == old(self).solved_indices_stack@,
                        self.lines_state@ == old(self).lines_state@,
                        self.columns_state@ == old(self).columns_state@,
                        cell_index < 81,
                        self.cells@[cell_index as int] == 0,
                        potential == self.and_at(cell_index as int),
                        potential_count == popcount9(potential),
                        popcount9(potential) >= 2,
                        forall|ext: Seq<u8>| #[trigger]
                            is_completion(ext, old(self).cells@) ==> count_in_range(
                                potential,
                                1,
                                ext[cell_index as int] as int,
                            ) >= potential_index as int,
                    decreases potential_count - potential_index,
                {
                    let value = Grid::get_potential_value_at(potential, potential_index);
                    let ghost g0 = *self;
                    proof {
                        lemma_write_preserves_valid(g0, cell_index as int, value);
                        lemma_count_zeros_update_nonzero(g0.cells@, cell_index as int, value);
                    }
                    self.cells[cell_index] = value;
                    self.compute_potentials();
                    let ghost trial_cells = self.cells@;
                    let ghost g1 = *self;
                    let (success, number_of_solved_indices) = self.try_solve_by_constrains();
                    let ghost prop_cells = self.cells@;
                    let ghost prop_stack = self.solved_indices_stack@;
                    proof {
                        assert(count_zeros(prop_cells) < count_zeros(old(self).cells@)) by {
                            assert forall|i: int|
                                0 <= i < 81 && #[trigger] prop_cells[i] == 0 implies trial_cells[i]
                                == 0 by {
                                if trial_cells[i] != prop_cells[i] {
                                    assert(prop_cells[i] != 0);
                                }
                            }
                            lemma_count_zeros_mono(trial_cells, prop_cells);
                        }
                    }
                    if success {
                        let recursed = self.try_solve_recursive();
                        if recursed {
                            proof {
                                assert forall|i: int|
                                    0 <= i < 81 && #[trigger] old(self).cells@[i] != 0 implies
                                self.cells@[i] == old(self).cells@[i] by {
                                    assert(trial_cells[i] == old(self).cells@[i]);
                                    assert(prop_cells[i] == trial_cells[i]) by {
                                        if prop_cells[i] != trial_cells[i] {
                                            assert(trial_cells[i] == 0);
                                        }
                                    }
                                }
                                assert(is_completion(self.cells@, old(self).cells@));
                                assert(exists|ext: Seq<u8>| #[trigger]
                                    is_completion(ext, old(self).cells@)) by {
                                    assert(is_completion(self.cells@, old(self).cells@));
                                }
                            }
                            return true;
                        }
                    }
                    // The trial failed: undo what propagation assigned, clear
                    // the trial cell and bring the masks back in step.
                    proof {
                        if success {
                            assert(self.cells@ == prop_cells && self.solved_indices_stack@
                                == prop_stack);
                        }
                        assert(number_of_solved_indices <= self.solved_indices_stack@.len());
                    }
                    let ghost g2 = *self;
                    self.revert_last_resolved_indices(number_of_solved_indices);
                    proof {
                        assert forall|i: int| 0 <= i < 81 implies self.cells@[i] == trial_cells[i]
                        by {
                            if stack_slice_contains(
                                prop_stack,
                                g1.solved_indices_stack@.len() as int,
                                prop_stack.len() as int,
                                i,
                            ) {
                                let k = choose|k: int|
                                    g1.solved_indices_stack@.len() <= k < prop_stack.len() && (
                                    #[trigger] prop_stack[k]) as int == i;
                                assert(trial_cells[i] == 0);
                                assert(self.cells@[i] == 0);
                            } else {
                                assert(self.cells@[i] == g2.cells@[i]);
                                assert(prop_cells[i] == trial_cells[i]) by {
                                    if prop_cells[i] != trial_cells[i] {
                                        assert(stack_slice_contains(
                                            prop_stack,
                                            g1.solved_indices_stack@.len() as int,
                                            prop_stack.len() as int,
                                            i,
                                        ));
                                    }
                                }
                            }
                        }
                        assert(self.cells@ =~= trial_cells);
                        assert(self.solved_indices_stack@ =~= old(self).solved_indices_stack@);
                    }
                    self.cells[cell_index] = 0;
                    proof {
                        assert(self.cells@ =~= old(self).cells@);
                    }
                    self.compute_potentials();
                    proof {
                        lemma_masks_determined(*self, *old(self));
                        // No completion chooses this candidate: both failure
                        // paths rule the digit out, so every completion's
                        // digit at this cell lies strictly higher in the
                        // scan order.
                        assert forall|ext: Seq<u8>| #[trigger]
                            is_completion(ext, old(self).cells@) implies count_in_range(
                            potential,
                            1,
                            ext[cell_index as int] as int,
                        ) >= potential_index as int + 1 by {
                            lemma_completion_candidate(g0, ext, cell_index as int);
                            if count_in_range(potential, 1, ext[cell_index as int] as int)
                                == potential_index as int {
                                crate::bits::lemma_ordinal_unique(
                                    potential,
                                    ext[cell_index as int] as int,
                                    value as int,
                                );
                                assert(ext[cell_index as int] == value);
                                assert(is_completion(ext, trial_cells)) by {
                                    assert forall|i: int|
                                        0 <= i < 81 && trial_cells[i] != 0 implies #[trigger] ext[i]
                                        == trial_cells[i] by {
                                        if i != cell_index as int {
                                            assert(trial_cells[i] == old(self).cells@[i]);
                                        }
                                    }
                                }
                                assert(success && is_completion(ext, prop_cells));
                                assert(false);
                            }
                        }
                    }
                    potential_index = potential_index + 1;
                }
                proof {
                    assert forall|ext: Seq<u8>| !#[trigger] is_completion(ext, old(self).cells@) by {
                        if is_completion(ext, old(self).cells@) {
                            lemma_completion_candidate(*self, ext, cell_index as int);
                            crate::bits::lemma_bit_counts(
                                potential,
                                ext[cell_index as int] as int,
                                1,
                                10,
                            );
                        }
                    }
                }
                return false;
            },
            Option::None => {
                // Unreachable under the entry condition: a grid with an
                // empty cell whose every empty cell keeps two candidates
                // always offers a cell to branch on.
                proof {
                    let i = choose|i: int| 0 <= i < 81 && self.cells@[i] == 0;
                    assert(popcount9(self.and_at(i)) >= 2);
                    assert(false);
                }
                return false;
            },
        }
    }

    /// Solves the grid in place: recomputes the masks, rejects a buffer
    /// that already breaks uniqueness or that propagation refutes, then
    /// drives the recursive search. Succeeds exactly when the initial
    /// cells admit a full row- and column-valid completion, and leaves
    /// such a completion in the buffer.
    pub fn solve(&mut self) -> (result: Result<(), GridError>)
        requires
            old(self).wf(),
        ensures
            final(self).wf(),
            forall|i: int|
                0 <= i < 81 && #[trigger] old(self).cells@[i] != 0 ==> final(self).cells@[i] == old(
                    self,
                ).cells@[i],
            result.is_ok() <==> exists|ext: Seq<u8>| #[trigger] is_completion(
                ext,
                old(self).cells@,
            ),
            result.is_ok() ==> full(final(self).cells@) && is_completion(
                final(self).cells@,
                old(self).cells@,
            ) && final(self).masks_ok() && cells_valid(final(self).cells@),
            !cells_valid(old(self).cells@) ==> result == Result::<(), GridError>::Err(
                GridError::InconsistentBase,
            ) && final(self).cells@ == old(self).cells@,
            result == Result::<(), GridError>::Err(GridError::Unsolvable) ==> cells_valid(
                old(self).cells@,
            ),
            result.is_err() ==> result == Result::<(), GridError>::Err(GridError::InconsistentBase)
                || result == Result::<(), GridError>::Err(GridError::Unsolvable),
    {
        self.compute_potentials();
        if self.has_conflict() {
            proof {
                assert forall|ext: Seq<u8>| !#[trigger] is_completion(ext, old(self).cells@) by {
                    if is_completion(ext, old(self).cells@) {
                        lemma_completion_base_valid(ext, old(self).cells@);
                    }
                }
            }
            return Err(GridError::InconsistentBase);
        }
        let ghost base_cells = self.cells@;
        let (success, _) = self.try_solve_by_constrains();
        let ghost prop_cells = self.cells@;
        if !success {
            return Err(GridError::InconsistentBase);
        }
        if self.try_solve_recursive() {
            proof {
                assert(is_completion(self.cells@, old(self).cells@)) by {
                    assert forall|i: int|
                        0 <= i < 81 && old(self).cells@[i] != 0 implies #[trigger] self.cells@[i]
                        == old(self).cells@[i] by {
                        assert(prop_cells[i] == old(self).cells@[i]) by {
                            if prop_cells[i] != old(self).cells@[i] {
                                assert(old(self).cells@[i] == 0);
                            }
                        }
                    }
                }
                assert(exists|ext: Seq<u8>| #[trigger] is_completion(ext, old(self).cells@)) by {
                    assert(is_completion(self.cells@, old(self).cells@));
                }
            }
            Ok(())
        } else {
            proof {
                assert forall|ext: Seq<u8>| !#[trigger] is_completion(ext, old(self).cells@) by {
                    if is_completion(ext, old(self).cells@) {
                        assert(is_completion(ext, prop_cells));
                    }
                }
            }
            Err(GridError::Unsolvable)
        }
    }

    /// The flat index of a (line, column) coordinate pair.
    pub fn index_of(line: usize, column: usize) -> (index: usize)
        requires
            line < 9,
            column < 9,
        ensures
            index == line * 9 + column,
            index < 81,
            row_of(index as int) == line,
            col_of(index as int) == column,
    {
        line * 9 + column
    }

    /// The (line, column) coordinates of a flat index.
    pub fn coordinates_of(index: usize) -> (r: (usize, usize))
        requires
            index < 81,
        ensures
            r.0 == row_of(index as int),
            r.1 == col_of(index as int),
            r.0 < 9,
            r.1 < 9,
    {
        (index / 9, index % 9)
    }

    /// Reads a candidate mask: no candidate, one forced digit (carried in
    /// the variant), or several (their number carried in the variant).
    #[verifier::loop_isolation(false)]
    pub fn interpret_potential(potential: u16) -> (state: PotentialState)
        ensures
            match state {
                PotentialState::Empty => popcount9(potential) == 0,
                PotentialState::Unique(v) => popcount9(potential) == 1 && 1 <= v <= 9 && bit_set(
                    potential,
                    v as u16,
                ),
                PotentialState::Multiple(count) => count == popcount9(potential) && popcount9(
                    potential,
                ) >= 2,
            },
    {
        let mut count: u8 = 0;
        let mut last_value: u8 = 0;
        let mut i: u16 = 1;
        while i < 10
            invariant
                1 <= i <= 10,
                count == count_in_range(potential, 1, i as int),
                count > 0 ==> 1 <= last_value <= 9 && (last_value as u16) < i && bit_set(
                    potential,
                    last_value as u16,
                ),
            decreases 10 - i,
        {
            if potential & (1u16 << i) != 0 {
                proof {
                    lemma_count_le(potential, 1, i as int);
                }
                count = count + 1;
                last_value = i as u8;
            }
            i = i + 1;
        }
        match count {
            0 => PotentialState::Empty,
            1 => PotentialState::Unique(last_value),
            _ => PotentialState::Multiple(count),
        }
    }

    /// The (index + 1)-th candidate digit of a mask, scanning digits upward
    /// from 1; 0 when the mask has at most `index` candidates.
    #[verifier::loop_isolation(false)]
    pub fn get_potential_value_at(potential: u16, index: u8) -> (value: u8)
        ensures
            (index as nat) < popcount9(potential) ==> 1 <= value <= 9 && bit_set(
                potential,
                value as u16,
            ) && count_in_range(potential, 1, value as int) == index as nat,
            (index as nat) >= popcount9(potential) ==> value == 0,
    {
        let mut current_index: u8 = 0;
        let mut i: u16 = 1;
        while i < 10
            invariant
                1 <= i <= 10,
                current_index == count_in_range(potential, 1, i as int),
                current_index <= index,
            decreases 10 - i,
        {
            if potential & (1u16 << i) != 0 {
                if current_index == index {
                    proof {
                        lemma_bit_counts(potential, i as int, 1, 10);
                    }
                    return i as u8;
                }
                current_index = current_index + 1;
            }
            i = i + 1;
        }
        0
    }

    /// The human-readable nine-line text of the grid: every line begins
    /// and ends with `|`, cells are separated by `|`, an empty cell shows
    /// as a space, and each line ends with a trailing space and a newline.
    #[verifier::loop_isolation(false)]
    pub fn render(&self) -> (text: String)
        requires
            self.wf(),
        ensures
            text@ == render_spec(self.cells@),
    {
        proof {
            reveal_strlit("|");
            reveal_strlit(" \n");
            reveal_strlit(" |");
            reveal_strlit("1|");
            reveal_strlit("2|");
            reveal_strlit("3|");
            reveal_strlit("4|");
            reveal_strlit("5|");
            reveal_strlit("6|");
            reveal_strlit("7|");
            reveal_strlit("8|");
            reveal_strlit("9|");
        }
        let mut text = String::new();
        let mut line: usize = 0;
        while line < 9
            invariant
                line <= 9,
                text@ == render_rows_upto(self.cells@, line as int),
            decreases 9 - line,
        {
            text.append("|");
            proof {
                assert(text@ =~= render_rows_upto(self.cells@, line as int) + render_row_upto(
                    self.cells@,
                    line as int,
                    0,
                ));
            }
            let mut column: usize = 0;
            while column < 9
                invariant
                    column <= 9,
                    line < 9,
                    text@ == render_rows_upto(self.cells@, line as int) + render_row_upto(
                        self.cells@,
                        line as int,
                        column as int,
                    ),
                decreases 9 - column,
            {
                let value = self.cells[Grid::index_of(line, column)];
                match value {
                    0 => text.append(" |"),
                    1 => text.append("1|"),
                    2 => text.append("2|"),
                    3 => text.append("3|"),
                    4 => text.append("4|"),
                    5 => text.append("5|"),
                    6 => text.append("6|"),
                    7 => text.append("7|"),
                    8 => text.append("8|"),
                    _ => text.append("9|"),
                }
                proof {
                    assert(text@ =~= render_rows_upto(self.cells@, line as int) + render_row_upto(
                        self.cells@,
                        line as int,
                        column as int + 1,
                    ));
                }
                column = column + 1;
            }
            text.append(" \n");
            proof {
                assert(text@ =~= render_rows_upto(self.cells@, line as int + 1));
            }
            line = line + 1;
        }
        text
    }
}

} // verus!
