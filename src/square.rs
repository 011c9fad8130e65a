//! One cell of the grid, packed into a byte and a 16-bit word.
use vstd::arithmetic::power2::{lemma2_to64, lemma_pow2_unfold, pow2};
use vstd::prelude::*;

verus! {

/// Bits of the position byte that hold the row.
pub const ROW_MASK: u8 = 0xF0;

/// Bits of the position byte that hold the column.
pub const COL_MASK: u8 = 0x0F;

/// Bit of the state word that marks a placed digit.
pub const SET_BIT: u16 = 0x0200;

/// Bits of the state word that hold the candidate digits, digit `d` at bit `d - 1`.
pub const DIGIT_MASK: u16 = 0x01FF;

/// Bits of the state word that hold the box number.
pub const BOX_MASK: u16 = 0x7800;

/// What can go wrong when a cell or a grid is read or changed.
#[derive(Debug, Clone, Copy, PartialEq, Eq, Structural)]
pub enum SudokuError {
    /// A commit was asked of a cell whose candidate set is not a single digit.
    NonUniqueSet,
    /// A commit was asked of a cell that already holds a digit.
    IsAlreadySet,
    /// The digit of a cell that holds none was asked for.
    NotSet,
    /// A digit outside 1..=9, or a candidate pattern that is not one digit.
    InvalidDigit { digit: u16 },
    /// A row or column outside 1..=9.
    InvalidPosition { row: u8, col: u8 },
}

/// The box, 1..=9 in reading order, that holds the cell at `row`, `col`.
pub open spec fn box_of(row: int, col: int) -> int {
    1 + 3 * ((row - 1) / 3) + (col - 1) / 3
}

/// Whether `row` and `col` name a cell of the 9x9 grid.
pub open spec fn valid_position(row: u8, col: u8) -> bool {
    1 <= row <= 9 && 1 <= col <= 9
}

/// Whether `digit` is one of the nine Sudoku digits.
pub open spec fn valid_digit(digit: u8) -> bool {
    1 <= digit <= 9
}

/// The candidate bit that stands for `digit`.
pub open spec fn digit_bit(digit: u8) -> u16 {
    1u16 << ((digit - 1) as u16)
}

/// The digit that a candidate pattern stands for, where it holds exactly one of the nine bits.
pub open spec fn mask_digit(mask: u16) -> Option<u8> {
    if mask == 0x001 {
        Some(1u8)
    } else if mask == 0x002 {
        Some(2u8)
    } else if mask == 0x004 {
        Some(3u8)
    } else if mask == 0x008 {
        Some(4u8)
    } else if mask == 0x010 {
        Some(5u8)
    } else if mask == 0x020 {
        Some(6u8)
    } else if mask == 0x040 {
        Some(7u8)
    } else if mask == 0x080 {
        Some(8u8)
    } else if mask == 0x100 {
        Some(9u8)
    } else {
        None
    }
}

/// The number of bits set in `x`.
pub open spec fn bit_count(x: u16) -> nat
    decreases x,
{
    if x == 0 {
        0
    } else {
        (x % 2) as nat + bit_count((x / 2) as u16)
    }
}

/// Each digit has its own bit among the nine, and that bit decodes to the digit.
pub proof fn lemma_digit_bit(digit: u8)
    requires
        valid_digit(digit),
    ensures
        mask_digit(digit_bit(digit)) == Some(digit),
        digit_bit(digit) & 0xFE00u16 == 0,
        digit_bit(digit) & DIGIT_MASK == digit_bit(digit),
{
    let s = (digit - 1) as u16;
    assert(s < 9 ==> ((s == 0) == ((1u16 << s) == 0x001u16)) && ((s == 1) == ((1u16 << s)
        == 0x002u16)) && ((s == 2) == ((1u16 << s) == 0x004u16)) && ((s == 3) == ((1u16 << s)
        == 0x008u16)) && ((s == 4) == ((1u16 << s) == 0x010u16)) && ((s == 5) == ((1u16 << s)
        == 0x020u16)) && ((s == 6) == ((1u16 << s) == 0x040u16)) && ((s == 7) == ((1u16 << s)
        == 0x080u16)) && ((s == 8) == ((1u16 << s) == 0x100u16)) && (1u16 << s) & 0xFE00u16 == 0
        && (1u16 << s) & 0x01FFu16 == (1u16 << s)) by (bit_vector);
}

/// A word below `pow2(k)` has at most `k` bits set.
proof fn lemma_bit_count_bound(x: u16, k: nat)
    requires
        x < pow2(k),
    ensures
        bit_count(x) <= k,
    decreases k,
{
    if x != 0 {
        if k == 0 {
            lemma2_to64();
        } else {
            lemma_pow2_unfold(k);
            lemma_bit_count_bound((x / 2) as u16, (k - 1) as nat);
        }
    }
}

/// Only zero has no bit set.
proof fn lemma_bit_count_zero(x: u16)
    ensures
        bit_count(x) == 0 <==> x == 0,
    decreases x,
{
    if x != 0 {
        lemma_bit_count_zero((x / 2) as u16);
    }
}

/// A candidate pattern stands for one digit exactly when it has one bit set.
pub proof fn lemma_single_digit_iff_one_bit(mask: u16)
    requires
        mask <= DIGIT_MASK,
    ensures
        (mask_digit(mask) is Some) <==> bit_count(mask) == 1,
    decreases mask,
{
    reveal_with_fuel(bit_count, 10);
    if mask != 0 {
        let half = (mask / 2) as u16;
        lemma_bit_count_zero(half);
        lemma_single_digit_iff_one_bit(half);
    }
}

/// Placing a digit and then reading the cell gives that digit back.
pub proof fn lemma_set_value_then_get(before: SudokuSquare, after: SudokuSquare, digit: u8)
    requires
        valid_digit(digit),
        SudokuSquare::placed(before, after, digit),
    ensures
        after.spec_value() == Ok::<u8, SudokuError>(digit),
{
    lemma_digit_bit(digit);
}

/// A commit refuses a candidate set of zero or of two or more digits, and otherwise,
/// on a cell that holds no digit yet, returns the one digit left.
pub proof fn lemma_assign_outcome(cell: SudokuSquare)
    ensures
        bit_count(cell.spec_mask()) != 1 ==> cell.spec_assign() == Err::<u8, SudokuError>(
            SudokuError::NonUniqueSet,
        ),
        bit_count(cell.spec_mask()) == 1 && !cell.spec_is_set() ==> (cell.spec_assign() matches Ok(
            d,
        ) && valid_digit(d) && digit_bit(d) == cell.spec_mask()),
{
    cell.lemma_mask_bound();
    lemma_single_digit_iff_one_bit(cell.spec_mask());
    if let Some(d) = mask_digit(cell.spec_mask()) {
        lemma_digit_bit(d);
    }
}

/// Once a commit has succeeded, a second commit of the cell reports it as already set.
pub proof fn lemma_assign_twice(before: SudokuSquare, after: SudokuSquare)
    requires
        before.spec_assign() is Ok,
        SudokuSquare::committed(before, after),
    ensures
        after.spec_assign() == Err::<u8, SudokuError>(SudokuError::IsAlreadySet),
{
}

/// Whether `num` has exactly one bit set.
fn is_pow_2(num: u16) -> (r: bool)
    requires
        num <= DIGIT_MASK,
    ensures
        r == (mask_digit(num) is Some),
{
    assert(num <= 0x01FFu16 ==> ((num != 0 && num & ((num - 1) as u16) == 0) <==> (num == 0x001
        || num == 0x002 || num == 0x004 || num == 0x008 || num == 0x010 || num == 0x020 || num
        == 0x040 || num == 0x080 || num == 0x100))) by (bit_vector);
    (num != 0) && (num & (num - 1)) == 0
}

/// The candidate bit for `digit`.
fn bit_of_digit(digit: u8) -> (r: u16)
    requires
        valid_digit(digit),
    ensures
        r == digit_bit(digit),
{
    1u16 << ((digit - 1) as u16)
}

/// One cell of the grid.
///
/// The position byte holds the row in its high nibble and the column in its low nibble.
/// The state word holds the candidate digits in bits 0..=8 (digit `d` at bit `d - 1`),
/// the placed-digit flag in bit 9 and the box number in bits 11..=14.
#[derive(Debug, Clone, Copy)]
pub struct SudokuSquare {
    position: u8,
    state: u16,
}

impl Default for SudokuSquare {
    /// A cell not yet placed on the grid: position and box zero, every digit possible.
    fn default() -> (r: SudokuSquare)
        ensures
            r.spec_row() == 0,
            r.spec_col() == 0,
            r.spec_box() == 0,
            !r.spec_is_set(),
            r.spec_mask() == DIGIT_MASK,
    {
        let r = SudokuSquare { position: 0, state: DIGIT_MASK };
        assert((0u8 & 0xF0u8) >> 4u8 == 0 && 0u8 & 0x0Fu8 == 0) by (bit_vector);
        assert((0x01FFu16 & 0x7800u16) >> 11u16 == 0 && 0x01FFu16 & 0x0200u16 == 0
            && 0x01FFu16 & 0x01FFu16 == 0x01FFu16) by (bit_vector);
        r
    }
}

impl SudokuSquare {
    /// The row held in the position byte.
    pub closed spec fn spec_row(self) -> u8 {
        (self.position & ROW_MASK) >> 4u8
    }

    /// The column held in the position byte.
    pub closed spec fn spec_col(self) -> u8 {
        self.position & COL_MASK
    }

    /// The box number held in the state word.
    pub closed spec fn spec_box(self) -> u8 {
        ((self.state & BOX_MASK) >> 11u16) as u8
    }

    /// Whether the cell holds a placed digit.
    pub closed spec fn spec_is_set(self) -> bool {
        self.state & SET_BIT != 0
    }

    /// The candidate digits, digit `d` at bit `d - 1`.
    pub closed spec fn spec_mask(self) -> u16 {
        self.state & DIGIT_MASK
    }

    /// The cell's digit, as `get` reports it.
    pub open spec fn spec_value(self) -> Result<u8, SudokuError> {
        if !self.spec_is_set() {
            Err(SudokuError::NotSet)
        } else {
            match mask_digit(self.spec_mask()) {
                Some(d) => Ok(d),
                None => Err(SudokuError::InvalidDigit { digit: self.spec_mask() }),
            }
        }
    }

    /// What a commit of the candidate set returns, as `set` reports it.
    pub open spec fn spec_assign(self) -> Result<u8, SudokuError> {
        match mask_digit(self.spec_mask()) {
            None => Err(SudokuError::NonUniqueSet),
            Some(d) => if self.spec_is_set() {
                Err(SudokuError::IsAlreadySet)
            } else {
                Ok(d)
            },
        }
    }

    /// `a` and `b` stand at the same position, in the same box.
    pub open spec fn same_place(a: SudokuSquare, b: SudokuSquare) -> bool {
        a.spec_row() == b.spec_row() && a.spec_col() == b.spec_col() && a.spec_box()
            == b.spec_box()
    }

    /// `after` is `before` with `digit` placed: the candidate set is that digit alone.
    pub open spec fn placed(before: SudokuSquare, after: SudokuSquare, digit: u8) -> bool {
        Self::same_place(before, after) && after.spec_is_set() && after.spec_mask() == digit_bit(
            digit,
        )
    }

    /// `after` is `before` with its candidate set committed as its digit.
    pub open spec fn committed(before: SudokuSquare, after: SudokuSquare) -> bool {
        Self::same_place(before, after) && after.spec_is_set() && after.spec_mask()
            == before.spec_mask()
    }

    /// `after` is `before` with the candidate set replaced by `mask`, all else kept.
    pub open spec fn narrowed(before: SudokuSquare, after: SudokuSquare, mask: u16) -> bool {
        Self::same_place(before, after) && after.spec_is_set() == before.spec_is_set()
            && after.spec_mask() == mask
    }

    /// Every cell's candidate pattern stays within the nine digit bits.
    pub proof fn lemma_mask_bound(self)
        ensures
            self.spec_mask() <= DIGIT_MASK,
    {
        let s = self.state;
        assert(s & 0x01FFu16 <= 0x01FFu16) by (bit_vector);
    }
}

impl SudokuSquare {
    /// A cell at `row`, `col`, in its box, unassigned, with every digit possible.
    pub fn new(row: u8, col: u8) -> (r: Result<SudokuSquare, SudokuError>)
        ensures
            valid_position(row, col) ==> (r matches Ok(sq) && sq.spec_row() == row
                && sq.spec_col() == col && sq.spec_box() == box_of(row as int, col as int)
                && !sq.spec_is_set() && sq.spec_mask() == DIGIT_MASK && bit_count(sq.spec_mask())
                == 9),
            !valid_position(row, col) ==> r == Err::<SudokuSquare, SudokuError>(
                SudokuError::InvalidPosition { row, col },
            ),
    {
        if row == 0 || col == 0 || row > 9 || col > 9 {
            return Err(SudokuError::InvalidPosition { row, col });
        }
        let mut sq = SudokuSquare::default();
        sq.set_position(row, col);
        proof {
            reveal_with_fuel(bit_count, 10);
        }
        Ok(sq)
    }

    /// A cell at `row`, `col` that holds `value`.
    pub fn with_value(row: u8, col: u8, value: u8) -> (r: Result<SudokuSquare, SudokuError>)
        ensures
            !valid_position(row, col) ==> r == Err::<SudokuSquare, SudokuError>(
                SudokuError::InvalidPosition { row, col },
            ),
            valid_position(row, col) && !valid_digit(value) ==> r == Err::<
                SudokuSquare,
                SudokuError,
            >(SudokuError::InvalidDigit { digit: value as u16 }),
            valid_position(row, col) && valid_digit(value) ==> (r matches Ok(sq) && sq.spec_row()
                == row && sq.spec_col() == col && sq.spec_box() == box_of(row as int, col as int)
                && sq.spec_is_set() && sq.spec_mask() == digit_bit(value)),
    {
        if row == 0 || col == 0 || row > 9 || col > 9 {
            return Err(SudokuError::InvalidPosition { row, col });
        }
        let mut sq = match SudokuSquare::new(row, col) {
            Ok(sq) => sq,
            Err(e) => return Err(e),
        };
        match sq.set_value(value) {
            Ok(()) => Ok(sq),
            Err(e) => Err(e),
        }
    }

    /// A cell made of a raw position byte and state word.
    pub fn from_raw(position: u8, state: u16) -> (r: SudokuSquare)
        ensures
            r.spec_row() == (position & ROW_MASK) >> 4u8,
            r.spec_col() == position & COL_MASK,
            r.spec_box() == ((state & BOX_MASK) >> 11u16) as u8,
            r.spec_is_set() == (state & SET_BIT != 0),
            r.spec_mask() == state & DIGIT_MASK,
    {
        SudokuSquare { position, state }
    }

    /// Fixes the cell's position and the box that follows from it.
    pub(crate) fn set_position(&mut self, row: u8, col: u8)
        requires
            valid_position(row, col),
        ensures
            final(self).spec_row() == row,
            final(self).spec_col() == col,
            final(self).spec_box() == box_of(row as int, col as int),
            final(self).spec_is_set() == old(self).spec_is_set(),
            final(self).spec_mask() == old(self).spec_mask(),
    {
        let position: u8 = (row << 4u8) | col;
        let box_id: u16 = (1 + 3 * ((row - 1) / 3) + (col - 1) / 3) as u16;
        let s = self.state;
        let state: u16 = (s & !BOX_MASK) | (box_id << 11u16);
        assert((((row << 4u8) | col) & 0xF0u8) >> 4u8 == row && ((row << 4u8) | col) & 0x0Fu8
            == col) by (bit_vector)
            requires
                row <= 9,
                col <= 9,
        ;
        assert((((s & !0x7800u16) | (box_id << 11u16)) & 0x7800u16) >> 11u16 == box_id && ((s
            & !0x7800u16) | (box_id << 11u16)) & 0x0200u16 == s & 0x0200u16 && ((s & !0x7800u16)
            | (box_id << 11u16)) & 0x01FFu16 == s & 0x01FFu16) by (bit_vector)
            requires
                box_id <= 9,
        ;
        self.position = position;
        self.state = state;
    }

    /// The cell's row.
    pub fn row(&self) -> (r: u8)
        ensures
            r == self.spec_row(),
    {
        (self.position & ROW_MASK) >> 4u8
    }

    /// The cell's column.
    pub fn col(&self) -> (r: u8)
        ensures
            r == self.spec_col(),
    {
        self.position & COL_MASK
    }

    /// The cell's box.
    pub fn get_box(&self) -> (r: u8)
        ensures
            r == self.spec_box(),
    {
        ((self.state & BOX_MASK) >> 11u16) as u8
    }

    /// Whether a digit has been placed in the cell.
    pub fn is_set(&self) -> (r: bool)
        ensures
            r == self.spec_is_set(),
    {
        (self.state & SET_BIT) != 0
    }

    /// Whether the cell holds the placed digit `digit`.
    pub fn is(&self, digit: u8) -> (r: bool)
        ensures
            r == (self.spec_value() == Ok::<u8, SudokuError>(digit)),
    {
        if digit < 1 || digit > 9 {
            return false;
        }
        proof {
            lemma_digit_bit(digit);
        }
        self.is_set() && (self.state & DIGIT_MASK) == bit_of_digit(digit)
    }

    /// The placed digit.
    pub fn get(&self) -> (r: Result<u8, SudokuError>)
        ensures
            r == self.spec_value(),
    {
        if !self.is_set() {
            return Err(SudokuError::NotSet);
        }
        match self.state & DIGIT_MASK {
            0x0001u16 => Ok(1),
            0x0002u16 => Ok(2),
            0x0004u16 => Ok(3),
            0x0008u16 => Ok(4),
            0x0010u16 => Ok(5),
            0x0020u16 => Ok(6),
            0x0040u16 => Ok(7),
            0x0080u16 => Ok(8),
            0x0100u16 => Ok(9),
            d => Err(SudokuError::InvalidDigit { digit: d }),
        }
    }

    /// Commits the last digit standing: the candidate set must be a single digit,
    /// and the cell must not hold a digit yet.
    pub fn set(&mut self) -> (r: Result<u8, SudokuError>)
        ensures
            r == old(self).spec_assign(),
            r is Ok ==> Self::committed(*old(self), *final(self)),
            r is Err ==> *final(self) == *old(self),
    {
        proof {
            self.lemma_mask_bound();
        }
        if !is_pow_2(self.state & DIGIT_MASK) {
            return Err(SudokuError::NonUniqueSet);
        } else if self.is_set() {
            return Err(SudokuError::IsAlreadySet);
        }
        let s = self.state;
        assert((s | 0x0200u16) & 0x7800u16 == s & 0x7800u16 && (s | 0x0200u16) & 0x0200u16 != 0
            && (s | 0x0200u16) & 0x01FFu16 == s & 0x01FFu16) by (bit_vector);
        self.state = s | SET_BIT;
        self.get()
    }

    /// Places `digit`: the candidate set becomes that digit alone and the cell is marked set.
    pub fn set_value(&mut self, digit: u8) -> (r: Result<(), SudokuError>)
        ensures
            !valid_digit(digit) ==> r == Err::<(), SudokuError>(
                SudokuError::InvalidDigit { digit: digit as u16 },
            ) && *final(self) == *old(self),
            valid_digit(digit) ==> r is Ok && Self::placed(*old(self), *final(self), digit),
    {
        if digit < 1 || digit > 9 {
            return Err(SudokuError::InvalidDigit { digit: digit as u16 });
        }
        let bit = bit_of_digit(digit);
        proof {
            lemma_digit_bit(digit);
        }
        let s = self.state;
        let keep = !(0x01FFu16 | 0x0200u16);
        assert(((s & keep) | 0x0200u16 | bit) & 0x7800u16 == s & 0x7800u16 && ((s & keep)
            | 0x0200u16 | bit) & 0x0200u16 != 0 && ((s & keep) | 0x0200u16 | bit) & 0x01FFu16
            == bit) by (bit_vector)
            requires
                bit & 0xFE00u16 == 0,
                keep == !(0x01FFu16 | 0x0200u16),
        ;
        self.state = (s & keep) | SET_BIT | bit;
        Ok(())
    }

    /// Whether `value` is still among the cell's candidates.
    pub fn is_possible(&self, value: u8) -> (r: bool)
        ensures
            r == (valid_digit(value) && self.spec_mask() & digit_bit(value) != 0),
    {
        if value < 1 || value > 9 {
            return false;
        }
        (self.state & DIGIT_MASK) & bit_of_digit(value) != 0
    }

    /// How many digits are still possible in the cell.
    pub fn possibilities_number(&self) -> (r: u8)
        ensures
            r == bit_count(self.spec_mask()),
    {
        let mut m: u16 = self.state & DIGIT_MASK;
        let mut n: u8 = 0;
        proof {
            self.lemma_mask_bound();
            lemma2_to64();
            lemma_bit_count_bound(m, 9);
        }
        while m != 0
            invariant
                n + bit_count(m) == bit_count(self.spec_mask()),
                bit_count(self.spec_mask()) <= 9,
            decreases m,
        {
            n = n + (m % 2) as u8;
            m = m / 2;
        }
        n
    }

    /// Takes `value` out of the candidates; other digits, the flag and the position stay.
    pub fn remove_possibility(&mut self, value: u8)
        ensures
            Self::narrowed(
                *old(self),
                *final(self),
                if valid_digit(value) {
                    old(self).spec_mask() & !digit_bit(value)
                } else {
                    old(self).spec_mask()
                },
            ),
    {
        if value < 1 || value > 9 {
            return;
        }
        let bit = bit_of_digit(value);
        proof {
            lemma_digit_bit(value);
        }
        let s = self.state;
        assert((s & !bit) & 0x7800u16 == s & 0x7800u16 && (s & !bit) & 0x0200u16 == s & 0x0200u16
            && (s & !bit) & 0x01FFu16 == (s & 0x01FFu16) & !bit) by (bit_vector)
            requires
                bit & 0xFE00u16 == 0,
        ;
        self.state = s & !bit;
    }

    /// Keeps only the candidates that are also in `mask`.
    pub fn apply_mask(&mut self, mask: u16)
        ensures
            Self::narrowed(*old(self), *final(self), old(self).spec_mask() & mask),
    {
        let s = self.state;
        assert((s & (mask | !0x01FFu16)) & 0x7800u16 == s & 0x7800u16 && (s & (mask | !0x01FFu16))
            & 0x0200u16 == s & 0x0200u16 && (s & (mask | !0x01FFu16)) & 0x01FFu16 == (s
            & 0x01FFu16) & mask) by (bit_vector);
        self.state = s & (mask | !DIGIT_MASK);
    }

    /// The candidate bits, digit `d` at bit `d - 1`.
    pub fn digit_bits(&self) -> (r: u16)
        ensures
            r == self.spec_mask(),
            r <= DIGIT_MASK,
    {
        proof {
            self.lemma_mask_bound();
        }
        self.state & DIGIT_MASK
    }
}

} // verus!
