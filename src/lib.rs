//! A Sudoku grid made of bit-packed cells, with a row, column and box validity check.
use vstd::prelude::*;

pub mod square;

pub use square::{SudokuError, SudokuSquare};

use square::{
    box_of, digit_bit, lemma_digit_bit, mask_digit, valid_digit, valid_position, DIGIT_MASK,
};

verus! {

/// Whether each cell of `cells` carries the position of its index, in row-major order,
/// and the box of that position.
pub open spec fn well_placed(cells: Seq<SudokuSquare>) -> bool {
    &&& cells.len() == 81
    &&& forall|i: int|
        #![trigger cells[i]]
        0 <= i < 81 ==> cells[i].spec_row() == i / 9 + 1 && cells[i].spec_col() == i % 9 + 1
            && cells[i].spec_box() == box_of(i / 9 + 1, i % 9 + 1)
}

/// Sum of the candidate masks of the cells among `cells[0..n]` that lie in row `r` (0..=8).
pub open spec fn row_sum(cells: Seq<SudokuSquare>, r: int, n: int) -> int
    decreases n,
{
    if n <= 0 {
        0
    } else {
        row_sum(cells, r, n - 1) + if (n - 1) / 9 == r {
            cells[n - 1].spec_mask() as int
        } else {
            0
        }
    }
}

/// Sum of the candidate masks of the cells among `cells[0..n]` that lie in column `c` (0..=8).
pub open spec fn col_sum(cells: Seq<SudokuSquare>, c: int, n: int) -> int
    decreases n,
{
    if n <= 0 {
        0
    } else {
        col_sum(cells, c, n - 1) + if (n - 1) % 9 == c {
            cells[n - 1].spec_mask() as int
        } else {
            0
        }
    }
}

/// Sum of the candidate masks of the cells among `cells[0..n]` that lie in box `b` (0..=8).
pub open spec fn box_sum(cells: Seq<SudokuSquare>, b: int, n: int) -> int
    decreases n,
{
    if n <= 0 {
        0
    } else {
        box_sum(cells, b, n - 1) + if box_of((n - 1) / 9 + 1, (n - 1) % 9 + 1) - 1 == b {
            cells[n - 1].spec_mask() as int
        } else {
            0
        }
    }
}

/// The grid passes the check: in every row, column and box the candidate masks of the
/// nine cells add up to `0x1FF`. What this means on a grid whose cells each have one
/// candidate is stated by `lemma_check_means_all_digits`.
pub open spec fn grid_is_valid(cells: Seq<SudokuSquare>) -> bool {
    &&& forall|g: int| 0 <= g < 9 ==> #[trigger] row_sum(cells, g, 81) == DIGIT_MASK
    &&& forall|g: int| 0 <= g < 9 ==> #[trigger] col_sum(cells, g, 81) == DIGIT_MASK
    &&& forall|g: int| 0 <= g < 9 ==> #[trigger] box_sum(cells, g, 81) == DIGIT_MASK
}

/// Index of the `k`-th cell (0..=8, reading order) of box `b` (0..=8).
pub open spec fn box_cell(b: int, k: int) -> int {
    9 * (3 * (b / 3) + k / 3) + 3 * (b % 3) + k % 3
}

/// The candidate masks of the nine cells of row `g`, in column order.
pub open spec fn row_masks(cells: Seq<SudokuSquare>, g: int) -> Seq<u16> {
    Seq::new(9, |k: int| cells[9 * g + k].spec_mask())
}

/// The candidate masks of the nine cells of column `g`, in row order.
pub open spec fn col_masks(cells: Seq<SudokuSquare>, g: int) -> Seq<u16> {
    Seq::new(9, |k: int| cells[9 * k + g].spec_mask())
}

/// The candidate masks of the nine cells of box `g`, in reading order.
pub open spec fn box_masks(cells: Seq<SudokuSquare>, g: int) -> Seq<u16> {
    Seq::new(9, |k: int| cells[box_cell(g, k)].spec_mask())
}

/// Every digit has its bit among the nine masks `m`.
pub open spec fn holds_all_digits(m: Seq<u16>) -> bool {
    forall|d: u8| valid_digit(d) ==> exists|k: int| 0 <= k < 9 && #[trigger] m[k] == digit_bit(d)
}

/// Every cell has exactly one candidate digit.
pub open spec fn one_candidate_each(cells: Seq<SudokuSquare>) -> bool {
    forall|i: int| 0 <= i < 81 ==> (mask_digit(#[trigger] cells[i].spec_mask()) is Some)
}

/// The sum of the nine masks `m`.
spec fn nine_sum(m: Seq<u16>) -> int {
    m[0] + m[1] + m[2] + m[3] + m[4] + m[5] + m[6] + m[7] + m[8]
}

/// `v` is the bit of one of the nine digits.
spec fn one_hot(v: u16) -> bool {
    v == 1u16 || v == 2u16 || v == 4u16 || v == 8u16 || v == 16u16 || v == 32u16 || v == 64u16
        || v == 128u16 || v == 256u16
}

/// The union of nine masks.
spec fn union9(a: u16, b: u16, c: u16, d: u16, e: u16, f: u16, g: u16, h: u16, i: u16) -> u16 {
    a | b | c | d | e | f | g | h | i
}

/// `o` has each of the nine digit bits set.
spec fn all_nine_bits(o: u16) -> bool {
    o & 1u16 != 0 && o & 2u16 != 0 && o & 4u16 != 0 && o & 8u16 != 0 && o & 16u16 != 0 && o
        & 32u16 != 0 && o & 64u16 != 0 && o & 128u16 != 0 && o & 256u16 != 0
}

/// Nine one-digit masks add up to `0x1FF` exactly when together they cover all nine bits.
#[verifier::rlimit(100)]
proof fn lemma_nine_one_hot(a: u16, b: u16, c: u16, d: u16, e: u16, f: u16, g: u16, h: u16, i: u16)
    requires
        one_hot(a),
        one_hot(b),
        one_hot(c),
        one_hot(d),
        one_hot(e),
        one_hot(f),
        one_hot(g),
        one_hot(h),
        one_hot(i),
    ensures
        (a + b + c + d + e + f + g + h + i == 511) <==> union9(a, b, c, d, e, f, g, h, i) == 511u16,
        union9(a, b, c, d, e, f, g, h, i) == 511u16 <==> all_nine_bits(
            union9(a, b, c, d, e, f, g, h, i),
        ),
{
    assert((a + b + c + d + e + f + g + h + i == 511) ==> union9(a, b, c, d, e, f, g, h, i)
        == 511u16) by (bit_vector)
        requires
            one_hot(a),
            one_hot(b),
            one_hot(c),
            one_hot(d),
            one_hot(e),
            one_hot(f),
            one_hot(g),
            one_hot(h),
            one_hot(i),
    ;
    assert(union9(a, b, c, d, e, f, g, h, i) == 511u16 ==> (a + b + c + d + e + f + g + h + i
        == 511)) by (bit_vector)
        requires
            one_hot(a),
            one_hot(b),
            one_hot(c),
            one_hot(d),
            one_hot(e),
            one_hot(f),
            one_hot(g),
            one_hot(h),
            one_hot(i),
    ;
    assert(union9(a, b, c, d, e, f, g, h, i) == 511u16 <==> all_nine_bits(
        union9(a, b, c, d, e, f, g, h, i),
    )) by (bit_vector)
        requires
            one_hot(a),
            one_hot(b),
            one_hot(c),
            one_hot(d),
            one_hot(e),
            one_hot(f),
            one_hot(g),
            one_hot(h),
            one_hot(i),
    ;
}

/// A digit's bit is covered by nine one-digit masks exactly when one of them is that bit.
proof fn lemma_or_covers(
    a: u16,
    b: u16,
    c: u16,
    d: u16,
    e: u16,
    f: u16,
    g: u16,
    h: u16,
    i: u16,
    x: u16,
)
    requires
        one_hot(a),
        one_hot(b),
        one_hot(c),
        one_hot(d),
        one_hot(e),
        one_hot(f),
        one_hot(g),
        one_hot(h),
        one_hot(i),
        one_hot(x),
    ensures
        (union9(a, b, c, d, e, f, g, h, i) & x != 0) <==> (a == x || b == x || c == x || d == x
            || e == x || f == x || g == x || h == x || i == x),
{
    assert((union9(a, b, c, d, e, f, g, h, i) & x != 0) <==> (a == x || b == x || c == x || d
        == x || e == x || f == x || g == x || h == x || i == x)) by (bit_vector)
        requires
            one_hot(a),
            one_hot(b),
            one_hot(c),
            one_hot(d),
            one_hot(e),
            one_hot(f),
            one_hot(g),
            one_hot(h),
            one_hot(i),
            one_hot(x),
    ;
}

/// The bits of the nine digits.
proof fn lemma_digit_bit_values()
    ensures
        digit_bit(1) == 1u16 && digit_bit(2) == 2u16 && digit_bit(3) == 4u16 && digit_bit(4)
            == 8u16 && digit_bit(5) == 16u16 && digit_bit(6) == 32u16 && digit_bit(7) == 64u16
            && digit_bit(8) == 128u16 && digit_bit(9) == 256u16,
{
    lemma_digit_bit(1);
    lemma_digit_bit(2);
    lemma_digit_bit(3);
    lemma_digit_bit(4);
    lemma_digit_bit(5);
    lemma_digit_bit(6);
    lemma_digit_bit(7);
    lemma_digit_bit(8);
    lemma_digit_bit(9);
}

/// The nine masks of `m` are each one digit's bit.
spec fn all_one_hot(m: Seq<u16>) -> bool {
    one_hot(m[0]) && one_hot(m[1]) && one_hot(m[2]) && one_hot(m[3]) && one_hot(m[4]) && one_hot(
        m[5],
    ) && one_hot(m[6]) && one_hot(m[7]) && one_hot(m[8])
}

/// A digit's bit is among nine one-digit masks exactly when their union covers it.
proof fn lemma_digit_present(m: Seq<u16>, x: u16)
    requires
        m.len() == 9,
        all_one_hot(m),
        one_hot(x),
    ensures
        (exists|k: int| 0 <= k < 9 && #[trigger] m[k] == x) <==> union9(
            m[0],
            m[1],
            m[2],
            m[3],
            m[4],
            m[5],
            m[6],
            m[7],
            m[8],
        ) & x != 0,
{
    lemma_or_covers(m[0], m[1], m[2], m[3], m[4], m[5], m[6], m[7], m[8], x);
    if exists|k: int| 0 <= k < 9 && #[trigger] m[k] == x {
        let k = choose|k: int| 0 <= k < 9 && #[trigger] m[k] == x;
        assert(k == 0 || k == 1 || k == 2 || k == 3 || k == 4 || k == 5 || k == 6 || k == 7 || k
            == 8);
    }
}

/// Nine one-digit masks add up to `0x1FF` exactly when every digit is among them.
proof fn lemma_group_sum(m: Seq<u16>)
    requires
        m.len() == 9,
        forall|k: int| 0 <= k < 9 ==> (mask_digit(#[trigger] m[k]) is Some),
    ensures
        (nine_sum(m) == 511) <==> holds_all_digits(m),
{
    assert(mask_digit(m[0]) is Some && mask_digit(m[1]) is Some && mask_digit(m[2]) is Some
        && mask_digit(m[3]) is Some && mask_digit(m[4]) is Some && mask_digit(m[5]) is Some
        && mask_digit(m[6]) is Some && mask_digit(m[7]) is Some && mask_digit(m[8]) is Some);
    assert(all_one_hot(m));
    lemma_nine_one_hot(m[0], m[1], m[2], m[3], m[4], m[5], m[6], m[7], m[8]);
    lemma_digit_bit_values();
    assert forall|dg: u8| valid_digit(dg) implies ((exists|k: int|
        0 <= k < 9 && #[trigger] m[k] == digit_bit(dg)) <==> union9(
        m[0],
        m[1],
        m[2],
        m[3],
        m[4],
        m[5],
        m[6],
        m[7],
        m[8],
    ) & digit_bit(dg) != 0) by {
        assert(dg == 1 || dg == 2 || dg == 3 || dg == 4 || dg == 5 || dg == 6 || dg == 7 || dg
            == 8 || dg == 9);
        lemma_digit_present(m, digit_bit(dg));
    }
    if holds_all_digits(m) {
        assert(valid_digit(1) && valid_digit(2) && valid_digit(3) && valid_digit(4)
            && valid_digit(5) && valid_digit(6) && valid_digit(7) && valid_digit(8) && valid_digit(9));
    }
    if nine_sum(m) == 511 {
        assert forall|dg: u8| valid_digit(dg) implies exists|k: int|
            0 <= k < 9 && #[trigger] m[k] == digit_bit(dg) by {
            assert(dg == 1 || dg == 2 || dg == 3 || dg == 4 || dg == 5 || dg == 6 || dg == 7 || dg
                == 8 || dg == 9);
        }
    }
}

/// Adding row `k` of the grid to the row sums.
proof fn lemma_row_step(cells: Seq<SudokuSquare>, r: int, k: int)
    requires
        0 <= r < 9,
        0 <= k < 9,
    ensures
        row_sum(cells, r, 9 * k + 9) == row_sum(cells, r, 9 * k) + if k == r {
            nine_sum(row_masks(cells, r))
        } else {
            0
        },
{
    reveal_with_fuel(row_sum, 10);
}

/// Adding row `k` of the grid to the column sums.
proof fn lemma_col_step(cells: Seq<SudokuSquare>, c: int, k: int)
    requires
        0 <= c < 9,
        0 <= k < 9,
    ensures
        col_sum(cells, c, 9 * k + 9) == col_sum(cells, c, 9 * k) + cells[9 * k + c].spec_mask(),
{
    reveal_with_fuel(col_sum, 10);
}

/// Adding row `k` of the grid to the box sums.
proof fn lemma_box_step(cells: Seq<SudokuSquare>, b: int, k: int)
    requires
        0 <= b < 9,
        0 <= k < 9,
    ensures
        box_sum(cells, b, 9 * k + 9) == box_sum(cells, b, 9 * k) + if k / 3 == b / 3 {
            cells[9 * k + 3 * (b % 3)].spec_mask() + cells[9 * k + 3 * (b % 3) + 1].spec_mask()
                + cells[9 * k + 3 * (b % 3) + 2].spec_mask()
        } else {
            0
        },
{
    let n = 9 * k;
    assert(n / 9 == k && (n + 1) / 9 == k && (n + 2) / 9 == k && (n + 3) / 9 == k && (n + 4) / 9
        == k && (n + 5) / 9 == k && (n + 6) / 9 == k && (n + 7) / 9 == k && (n + 8) / 9 == k);
    assert(n % 9 == 0 && (n + 1) % 9 == 1 && (n + 2) % 9 == 2 && (n + 3) % 9 == 3 && (n + 4) % 9
        == 4 && (n + 5) % 9 == 5 && (n + 6) % 9 == 6 && (n + 7) % 9 == 7 && (n + 8) % 9 == 8);
    reveal_with_fuel(box_sum, 10);
}

/// The row sum is the sum of the row's nine masks.
proof fn lemma_row_total(cells: Seq<SudokuSquare>, r: int)
    requires
        0 <= r < 9,
        cells.len() == 81,
    ensures
        row_sum(cells, r, 81) == nine_sum(row_masks(cells, r)),
{
    lemma_row_step(cells, r, 0);
    lemma_row_step(cells, r, 1);
    lemma_row_step(cells, r, 2);
    lemma_row_step(cells, r, 3);
    lemma_row_step(cells, r, 4);
    lemma_row_step(cells, r, 5);
    lemma_row_step(cells, r, 6);
    lemma_row_step(cells, r, 7);
    lemma_row_step(cells, r, 8);
}

/// The column sum is the sum of the column's nine masks.
proof fn lemma_col_total(cells: Seq<SudokuSquare>, c: int)
    requires
        0 <= c < 9,
        cells.len() == 81,
    ensures
        col_sum(cells, c, 81) == nine_sum(col_masks(cells, c)),
{
    lemma_col_step(cells, c, 0);
    lemma_col_step(cells, c, 1);
    lemma_col_step(cells, c, 2);
    lemma_col_step(cells, c, 3);
    lemma_col_step(cells, c, 4);
    lemma_col_step(cells, c, 5);
    lemma_col_step(cells, c, 6);
    lemma_col_step(cells, c, 7);
    lemma_col_step(cells, c, 8);
}

/// The box sum is the sum of the box's nine masks.
proof fn lemma_box_total(cells: Seq<SudokuSquare>, b: int)
    requires
        0 <= b < 9,
        cells.len() == 81,
    ensures
        box_sum(cells, b, 81) == nine_sum(box_masks(cells, b)),
{
    lemma_box_step(cells, b, 0);
    lemma_box_step(cells, b, 1);
    lemma_box_step(cells, b, 2);
    lemma_box_step(cells, b, 3);
    lemma_box_step(cells, b, 4);
    lemma_box_step(cells, b, 5);
    lemma_box_step(cells, b, 6);
    lemma_box_step(cells, b, 7);
    lemma_box_step(cells, b, 8);
    assert(b == 0 || b == 1 || b == 2 || b == 3 || b == 4 || b == 5 || b == 6 || b == 7 || b
        == 8);
}

/// On a grid whose cells each have one candidate digit, the check passes exactly when
/// every row, every column and every box holds all nine digits.
pub proof fn lemma_check_means_all_digits(cells: Seq<SudokuSquare>)
    requires
        cells.len() == 81,
        one_candidate_each(cells),
    ensures
        grid_is_valid(cells) <==> forall|g: int|
            0 <= g < 9 ==> holds_all_digits(#[trigger] row_masks(cells, g)) && holds_all_digits(
                col_masks(cells, g),
            ) && holds_all_digits(box_masks(cells, g)),
{
    assert forall|g: int|
        #![trigger row_masks(cells, g)]
        #![trigger row_sum(cells, g, 81)]
        #![trigger col_sum(cells, g, 81)]
        #![trigger box_sum(cells, g, 81)]
        0 <= g < 9 implies (row_sum(cells, g, 81) == DIGIT_MASK <==> holds_all_digits(
        row_masks(cells, g))) && (col_sum(cells, g, 81)
        == DIGIT_MASK <==> holds_all_digits(col_masks(cells, g))) && (box_sum(cells, g, 81)
        == DIGIT_MASK <==> holds_all_digits(box_masks(cells, g))) by {
        lemma_row_total(cells, g);
        lemma_col_total(cells, g);
        lemma_box_total(cells, g);
        assert forall|k: int| 0 <= k < 9 implies 0 <= #[trigger] box_cell(g, k) < 81 by {}
        lemma_group_sum(row_masks(cells, g));
        lemma_group_sum(col_masks(cells, g));
        lemma_group_sum(box_masks(cells, g));
    }
}

/// Cells before row `r` add nothing to its sum.
proof fn lemma_row_sum_before(cells: Seq<SudokuSquare>, r: int, n: int)
    requires
        n <= 9 * r,
    ensures
        row_sum(cells, r, n) == 0,
    decreases n,
{
    if n > 0 {
        lemma_row_sum_before(cells, r, n - 1);
    }
}

/// Cells after row `r` add nothing to its sum.
proof fn lemma_row_sum_after(cells: Seq<SudokuSquare>, r: int, n: int)
    requires
        0 <= r,
        9 * r + 9 <= n,
    ensures
        row_sum(cells, r, n) == row_sum(cells, r, 9 * r + 9),
    decreases n,
{
    if n > 9 * r + 9 {
        lemma_row_sum_after(cells, r, n - 1);
    }
}

/// Whether a `(row, col, digit)` placement names a cell and a digit.
pub open spec fn placement_ok(p: (u8, u8, u8)) -> bool {
    valid_position(p.0, p.1) && valid_digit(p.2)
}

/// The error that placing `p` reports, where `placement_ok(p)` fails.
pub open spec fn placement_error(p: (u8, u8, u8)) -> SudokuError {
    if !valid_position(p.0, p.1) {
        SudokuError::InvalidPosition { row: p.0, col: p.1 }
    } else {
        SudokuError::InvalidDigit { digit: p.2 as u16 }
    }
}

/// The digit that the last of `placements[0..n]` aimed at cell index `i` leaves there.
pub open spec fn last_placed(placements: Seq<(u8, u8, u8)>, n: int, i: int) -> Option<u8>
    decreases n,
{
    if n <= 0 {
        None
    } else if 9 * (placements[n - 1].0 - 1) + (placements[n - 1].1 - 1) == i {
        Some(placements[n - 1].2)
    } else {
        last_placed(placements, n - 1, i)
    }
}

/// Whether `cell` is what `last_placed` says: the digit placed last, or untouched.
pub open spec fn shows_placement(cell: SudokuSquare, placed: Option<u8>) -> bool {
    match placed {
        Some(d) => cell.spec_is_set() && cell.spec_mask() == square::digit_bit(d),
        None => !cell.spec_is_set() && cell.spec_mask() == DIGIT_MASK,
    }
}

/// The positions of a well-placed grid are the 81 pairs of `1..=9 x 1..=9`, each once:
/// every pair stands at index `9 * (row - 1) + (col - 1)`, and no two cells share one.
pub proof fn lemma_positions_cover_grid(cells: Seq<SudokuSquare>)
    requires
        well_placed(cells),
    ensures
        forall|row: int, col: int|
            1 <= row <= 9 && 1 <= col <= 9 ==> #[trigger] cells[9 * (row - 1) + (col
                - 1)].spec_row() == row && cells[9 * (row - 1) + (col - 1)].spec_col() == col,
        forall|i: int, j: int|
            0 <= i < 81 && 0 <= j < 81 && #[trigger] cells[i].spec_row()
                == #[trigger] cells[j].spec_row() && cells[i].spec_col() == cells[j].spec_col()
                ==> i == j,
{
    assert forall|row: int, col: int| 1 <= row <= 9 && 1 <= col <= 9 implies #[trigger] cells[9
        * (row - 1) + (col - 1)].spec_row() == row && cells[9 * (row - 1) + (col - 1)].spec_col()
        == col by {
        let i = 9 * (row - 1) + (col - 1);
        assert(i / 9 == row - 1 && i % 9 == col - 1);
    }
}

/// The 81 cells of a grid, in row-major order: the cell at `row`, `col` stands at
/// index `9 * (row - 1) + (col - 1)`.
#[derive(Debug)]
pub struct SudokuGrid {
    cells: [SudokuSquare; 81],
}

impl View for SudokuGrid {
    type V = Seq<SudokuSquare>;

    closed spec fn view(&self) -> Seq<SudokuSquare> {
        self.cells@
    }
}

impl SudokuGrid {
    #[verifier::type_invariant]
    spec fn inv(self) -> bool {
        well_placed(self.cells@)
    }
}

impl SudokuGrid {
    /// The 81 cells, each at its position and in its box, unassigned, every digit possible.
    pub fn new() -> (r: SudokuGrid)
        ensures
            well_placed(r@),
            forall|i: int|
                #![trigger r@[i]]
                0 <= i < 81 ==> !r@[i].spec_is_set() && r@[i].spec_mask() == DIGIT_MASK,
    {
        let mut cells: [SudokuSquare; 81] = [SudokuSquare::default();81];
        let mut r: usize = 0;
        while r < 9
            invariant
                r <= 9,
                forall|i: int|
                    #![trigger cells@[i]]
                    0 <= i < 81 ==> !cells@[i].spec_is_set() && cells@[i].spec_mask()
                        == DIGIT_MASK,
                forall|i: int|
                    #![trigger cells@[i]]
                    0 <= i < 9 * r ==> cells@[i].spec_row() == i / 9 + 1 && cells@[i].spec_col()
                        == i % 9 + 1 && cells@[i].spec_box() == box_of(i / 9 + 1, i % 9 + 1),
            decreases 9 - r,
        {
            let mut c: usize = 0;
            while c < 9
                invariant
                    r < 9,
                    c <= 9,
                    forall|i: int|
                        #![trigger cells@[i]]
                        0 <= i < 81 ==> !cells@[i].spec_is_set() && cells@[i].spec_mask()
                            == DIGIT_MASK,
                    forall|i: int|
                        #![trigger cells@[i]]
                        0 <= i < 9 * r + c ==> cells@[i].spec_row() == i / 9 + 1
                            && cells@[i].spec_col() == i % 9 + 1 && cells@[i].spec_box()
                            == box_of(i / 9 + 1, i % 9 + 1),
                decreases 9 - c,
            {
                let idx: usize = 9 * r + c;
                let mut sq = cells[idx];
                sq.set_position((r + 1) as u8, (c + 1) as u8);
                cells[idx] = sq;
                assert(idx as int / 9 == r && idx as int % 9 == c);
                c = c + 1;
            }
            r = r + 1;
        }
        SudokuGrid { cells }
    }

    /// Places `digit` in the cell at `row`, `col`; the other cells stay as they are.
    pub fn set(&mut self, row: u8, col: u8, digit: u8) -> (r: Result<(), SudokuError>)
        ensures
            well_placed(final(self)@),
            !valid_position(row, col) ==> r == Err::<(), SudokuError>(
                SudokuError::InvalidPosition { row, col },
            ),
            valid_position(row, col) && !valid_digit(digit) ==> r == Err::<(), SudokuError>(
                SudokuError::InvalidDigit { digit: digit as u16 },
            ),
            r is Err ==> final(self)@ == old(self)@,
            valid_position(row, col) && valid_digit(digit) ==> {
                let idx = 9 * (row - 1) + (col - 1);
                &&& r is Ok
                &&& SudokuSquare::placed(old(self)@[idx], final(self)@[idx], digit)
                &&& forall|i: int|
                    #![trigger final(self)@[i]]
                    0 <= i < 81 && i != idx ==> final(self)@[i] == old(self)@[i]
            },
    {
        proof {
            use_type_invariant(&*self);
        }
        if row == 0 || col == 0 || row > 9 || col > 9 {
            return Err(SudokuError::InvalidPosition { row, col });
        }
        let index: usize = (9 * (row - 1) + (col - 1)) as usize;
        let mut sq = self.cells[index];
        match sq.set_value(digit) {
            Ok(()) => {},
            Err(e) => return Err(e),
        }
        self.cells[index] = sq;
        Ok(())
    }

    /// The nine cells of `row`, in column order. A row outside 1..=9 is reported as the
    /// position of its first cell.
    pub fn get_row(&self, row: u8) -> (r: Result<&[SudokuSquare], SudokuError>)
        ensures
            1 <= row <= 9 ==> (r matches Ok(s) && s@ == self@.subrange(
                9 * (row - 1),
                9 * row as int,
            )),
            !(1 <= row <= 9) ==> r == Err::<&[SudokuSquare], SudokuError>(
                SudokuError::InvalidPosition { row, col: 1 },
            ),
    {
        if row == 0 || row > 9 {
            return Err(SudokuError::InvalidPosition { row, col: 1 });
        }
        let offset: usize = 9 * (row - 1) as usize;
        let all: &[SudokuSquare] = self.cells.as_slice();
        Ok(&all[offset..(offset + 9)])
    }

    /// Whether the candidate masks of the cells of `row` add up to `0x1FF`.
    fn check_row(&self, row: u8) -> (r: Result<bool, SudokuError>)
        ensures
            1 <= row <= 9 ==> r == Ok::<bool, SudokuError>(
                row_sum(self@, row - 1, 81) == DIGIT_MASK,
            ),
            !(1 <= row <= 9) ==> r == Err::<bool, SudokuError>(
                SudokuError::InvalidPosition { row, col: 1 },
            ),
    {
        proof {
            use_type_invariant(self);
        }
        let cells = match self.get_row(row) {
            Ok(cells) => cells,
            Err(e) => return Err(e),
        };
        let ghost r0 = row - 1;
        proof {
            lemma_row_sum_before(self@, r0, 9 * r0);
        }
        let mut result: u16 = 0;
        let mut k: usize = 0;
        while k < 9
            invariant
                0 <= r0 < 9,
                k <= 9,
                cells@ == self@.subrange(9 * r0, 9 * r0 + 9),
                self@.len() == 81,
                result == row_sum(self@, r0, 9 * r0 + k),
                result <= 0x1FF * k,
            decreases 9 - k,
        {
            let bits = cells[k].digit_bits();
            assert((9 * r0 + k) / 9 == r0);
            result = result + bits;
            k = k + 1;
        }
        proof {
            lemma_row_sum_after(self@, r0, 81);
        }
        Ok(result == DIGIT_MASK)
    }

    /// Whether every row, column and box of the grid passes: the candidate masks of its
    /// nine cells, added as integers, make `0x1FF`. The rows are summed one by one, the
    /// columns and boxes in the same pass. The answer is only meaningful on a grid whose
    /// cells all hold a digit; on other grids it is the same sum test.
    pub fn check(&self) -> (r: Result<bool, SudokuError>)
        ensures
            r == Ok::<bool, SudokuError>(grid_is_valid(self@)),
    {
        proof {
            use_type_invariant(self);
        }
        let mut result = true;
        let mut col_results: [u16; 9] = [0u16;9];
        let mut box_results: [u16; 9] = [0u16;9];
        let mut i: u8 = 1;
        while i <= 9
            invariant
                1 <= i <= 10,
                well_placed(self@),
                result == forall|g: int|
                    0 <= g < i - 1 ==> #[trigger] row_sum(self@, g, 81) == DIGIT_MASK,
                forall|g: int|
                    #![trigger col_results@[g]]
                    0 <= g < 9 ==> col_results@[g] == col_sum(self@, g, 9 * (i - 1))
                        && col_results@[g] <= 0x1FF * (9 * (i - 1)),
                forall|g: int|
                    #![trigger box_results@[g]]
                    0 <= g < 9 ==> box_results@[g] == box_sum(self@, g, 9 * (i - 1))
                        && box_results@[g] <= 0x1FF * (9 * (i - 1)),
            decreases 10 - i,
        {
            let row_ok = match self.check_row(i) {
                Ok(b) => b,
                Err(e) => return Err(e),
            };
            result = result && row_ok;
            let mut j: usize = 0;
            while j < 9
                invariant
                    1 <= i <= 9,
                    j <= 9,
                    well_placed(self@),
                    forall|g: int|
                        #![trigger col_results@[g]]
                        0 <= g < 9 ==> col_results@[g] == col_sum(self@, g, 9 * (i - 1) + j)
                            && col_results@[g] <= 0x1FF * (9 * (i - 1) + j),
                    forall|g: int|
                        #![trigger box_results@[g]]
                        0 <= g < 9 ==> box_results@[g] == box_sum(self@, g, 9 * (i - 1) + j)
                            && box_results@[g] <= 0x1FF * (9 * (i - 1) + j),
                decreases 9 - j,
            {
                let idx: usize = 9 * (i as usize - 1) + j;
                let sq = self.cells[idx];
                let bits = sq.digit_bits();
                let b: usize = (sq.get_box() - 1) as usize;
                assert(idx as int / 9 == i - 1 && idx as int % 9 == j);
                assert(sq.spec_box() == box_of(i as int, j + 1));
                col_results[j] = col_results[j] + bits;
                box_results[b] = box_results[b] + bits;
                j = j + 1;
            }
            i = i + 1;
        }
        let mut g: usize = 0;
        while g < 9
            invariant
                g <= 9,
                result == ((forall|h: int|
                    0 <= h < 9 ==> #[trigger] row_sum(self@, h, 81) == DIGIT_MASK) && (forall|h: int|
                    0 <= h < g ==> #[trigger] col_sum(self@, h, 81) == DIGIT_MASK) && (forall|h: int|
                    0 <= h < g ==> #[trigger] box_sum(self@, h, 81) == DIGIT_MASK)),
                forall|h: int|
                    #![trigger col_results@[h]]
                    0 <= h < 9 ==> col_results@[h] == col_sum(self@, h, 81),
                forall|h: int|
                    #![trigger box_results@[h]]
                    0 <= h < 9 ==> box_results@[h] == box_sum(self@, h, 81),
            decreases 9 - g,
        {
            result = result && col_results[g] == DIGIT_MASK && box_results[g] == DIGIT_MASK;
            g = g + 1;
        }
        Ok(result)
    }

    /// A grid filled from `digits` in reading order: the `k`-th digit goes to row
    /// `k / 9 + 1`, column `k % 9 + 1`, and cells past the last digit stay unassigned.
    /// More than 81 digits would run into a tenth row, which is refused.
    pub fn from_digits(digits: &[u8]) -> (r: Result<SudokuGrid, SudokuError>)
        ensures
            digits@.len() > 81 ==> r == Err::<SudokuGrid, SudokuError>(
                SudokuError::InvalidPosition { row: 10, col: 1 },
            ),
            digits@.len() <= 81 && (forall|k: int|
                0 <= k < digits@.len() ==> valid_digit(#[trigger] digits@[k])) ==> (r matches Ok(g)
                && well_placed(g@) && forall|i: int|
                #![trigger g@[i]]
                0 <= i < 81 ==> shows_placement(
                    g@[i],
                    if i < digits@.len() {
                        Some(digits@[i])
                    } else {
                        None
                    },
                )),
            digits@.len() <= 81 && r is Err ==> exists|k: int|
                0 <= k < digits@.len() && !valid_digit(#[trigger] digits@[k]) && (forall|m: int|
                    0 <= m < k ==> valid_digit(#[trigger] digits@[m])) && r == Err::<
                    SudokuGrid,
                    SudokuError,
                >(SudokuError::InvalidDigit { digit: digits@[k] as u16 }),
    {
        if digits.len() > 81 {
            return Err(SudokuError::InvalidPosition { row: 10, col: 1 });
        }
        let mut grid = SudokuGrid::new();
        let mut row: u8 = 1;
        let mut col: u8 = 1;
        let mut k: usize = 0;
        while k < digits.len()
            invariant
                k <= digits@.len() <= 81,
                row == k / 9 + 1,
                col == k % 9 + 1,
                well_placed(grid@),
                forall|m: int| 0 <= m < k ==> valid_digit(#[trigger] digits@[m]),
                forall|i: int|
                    #![trigger grid@[i]]
                    0 <= i < 81 ==> shows_placement(
                        grid@[i],
                        if i < k {
                            Some(digits@[i])
                        } else {
                            None
                        },
                    ),
            decreases digits@.len() - k,
        {
            assert(9 * (row - 1) + (col - 1) == k);
            match grid.set(row, col, digits[k]) {
                Ok(()) => {},
                Err(e) => return Err(e),
            }
            if col == 9 {
                col = 1;
                row = row + 1;
            } else {
                col = col + 1;
            }
            k = k + 1;
        }
        Ok(grid)
    }

    /// A grid with each `(row, col, digit)` of `placements` placed in turn; a later
    /// placement on the same cell overrides an earlier one. The first placement that
    /// names no cell or no digit stops the build with its error.
    pub fn from_placements(placements: &[(u8, u8, u8)]) -> (r: Result<SudokuGrid, SudokuError>)
        ensures
            (forall|k: int| 0 <= k < placements@.len() ==> placement_ok(#[trigger] placements@[k]))
                ==> (r matches Ok(g) && well_placed(g@) && forall|i: int|
                #![trigger g@[i]]
                0 <= i < 81 ==> shows_placement(
                    g@[i],
                    last_placed(placements@, placements@.len() as int, i),
                )),
            r is Err ==> exists|k: int|
                0 <= k < placements@.len() && !placement_ok(#[trigger] placements@[k]) && (forall|
                    m: int,
                | 0 <= m < k ==> placement_ok(#[trigger] placements@[m])) && r == Err::<
                    SudokuGrid,
                    SudokuError,
                >(placement_error(placements@[k])),
    {
        let mut grid = SudokuGrid::new();
        let mut k: usize = 0;
        while k < placements.len()
            invariant
                k <= placements@.len(),
                well_placed(grid@),
                forall|m: int| 0 <= m < k ==> placement_ok(#[trigger] placements@[m]),
                forall|i: int|
                    #![trigger grid@[i]]
                    0 <= i < 81 ==> shows_placement(
                        grid@[i],
                        last_placed(placements@, k as int, i),
                    ),
            decreases placements@.len() - k,
        {
            let (row, col, digit) = placements[k];
            match grid.set(row, col, digit) {
                Ok(()) => {},
                Err(e) => return Err(e),
            }
            k = k + 1;
        }
        Ok(grid)
    }
}

impl Default for SudokuGrid {
    /// The same grid as `new`.
    fn default() -> (r: SudokuGrid)
        ensures
            well_placed(r@),
            forall|i: int|
                #![trigger r@[i]]
                0 <= i < 81 ==> !r@[i].spec_is_set() && r@[i].spec_mask() == DIGIT_MASK,
    {
        SudokuGrid::new()
    }
}

} // verus!
