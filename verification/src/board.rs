//! The Sudoku board model: cell entries, the 81-cell grid, group
//! extraction (rows, columns, 3x3 boxes), validity checking, and parsing
//! from text.

use vstd::prelude::*;
use vstd::string::StrSliceExecFns;

verus! {

/// An entry for a cell of the Sudoku board.
///
/// Each square of the board can contain a digit from 1 to 9. This enum
/// ensures that no invalid digit can be represented inside of the board.
#[derive(Debug, Clone, Copy, PartialEq, Eq, Hash, Structural)]
pub enum Entry {
    One,
    Two,
    Three,
    Four,
    Five,
    Six,
    Seven,
    Eight,
    Nine,
}

impl Entry {
    /// The numeric value of an entry, as a mathematical integer.
    pub open spec fn value(self) -> int {
        match self {
            Entry::One => 1,
            Entry::Two => 2,
            Entry::Three => 3,
            Entry::Four => 4,
            Entry::Five => 5,
            Entry::Six => 6,
            Entry::Seven => 7,
            Entry::Eight => 8,
            Entry::Nine => 9,
        }
    }

    /// The entry denoting a given numeric value, as a spec-level map.
    pub open spec fn spec_of_value(v: int) -> Entry
        recommends
            1 <= v <= 9,
    {
        if v == 1 {
            Entry::One
        } else if v == 2 {
            Entry::Two
        } else if v == 3 {
            Entry::Three
        } else if v == 4 {
            Entry::Four
        } else if v == 5 {
            Entry::Five
        } else if v == 6 {
            Entry::Six
        } else if v == 7 {
            Entry::Seven
        } else if v == 8 {
            Entry::Eight
        } else {
            Entry::Nine
        }
    }

    /// Get the successor of an entry.
    ///
    /// An entry is just a number, so this function retrieves the successor.
    /// Naturally, there is no valid entry larger than 9, so attempting to
    /// get the successor of 9 will return [`None`].
    pub fn successor(&self) -> (r: Option<Entry>)
        ensures
            self.value() < 9 ==> r == Some(Entry::spec_of_value(self.value() + 1)),
            self.value() == 9 ==> r is None,
    {
        match self {
            Entry::One => Some(Entry::Two),
            Entry::Two => Some(Entry::Three),
            Entry::Three => Some(Entry::Four),
            Entry::Four => Some(Entry::Five),
            Entry::Five => Some(Entry::Six),
            Entry::Six => Some(Entry::Seven),
            Entry::Seven => Some(Entry::Eight),
            Entry::Eight => Some(Entry::Nine),
            Entry::Nine => None,
        }
    }

    /// Attempt to convert a number to an [`Entry`].
    ///
    /// Only the digits 1 through 9 denote valid entries; any other number
    /// yields [`None`].
    pub fn from_number(value: i32) -> (r: Option<Entry>)
        ensures
            1 <= value <= 9 ==> r == Some(Entry::spec_of_value(value as int)),
            !(1 <= value <= 9) ==> r is None,
    {
        match value {
            1 => Some(Entry::One),
            2 => Some(Entry::Two),
            3 => Some(Entry::Three),
            4 => Some(Entry::Four),
            5 => Some(Entry::Five),
            6 => Some(Entry::Six),
            7 => Some(Entry::Seven),
            8 => Some(Entry::Eight),
            9 => Some(Entry::Nine),
            _ => None,
        }
    }

    /// The numeric value of an entry, as an executable number.
    pub fn number(&self) -> (r: i32)
        ensures
            r == self.value(),
    {
        match self {
            Entry::One => 1,
            Entry::Two => 2,
            Entry::Three => 3,
            Entry::Four => 4,
            Entry::Five => 5,
            Entry::Six => 6,
            Entry::Seven => 7,
            Entry::Eight => 8,
            Entry::Nine => 9,
        }
    }
}

/// A board model is well formed when it has exactly 81 cells.
pub open spec fn board_wf(s: Seq<Option<Entry>>) -> bool {
    s.len() == 81
}

/// The cells of row `r`, in column order.
pub open spec fn row_seq(s: Seq<Option<Entry>>, r: int) -> Seq<Option<Entry>> {
    Seq::new(9, |i: int| s[r * 9 + i])
}

/// The cells of column `c`, in row order.
pub open spec fn col_seq(s: Seq<Option<Entry>>, c: int) -> Seq<Option<Entry>> {
    Seq::new(9, |i: int| s[i * 9 + c])
}

/// The linear index of the top-left cell of 3x3 box `b`.
///
/// Boxes are laid out left to right, then top to bottom, so box 0, 1, 2
/// start at offsets 0, 3, 6, box 3, 4, 5 at 27, 30, 33, and box 6, 7, 8
/// at 54, 57, 60.
pub open spec fn box_origin(b: int) -> int {
    (b / 3) * 27 + (b % 3) * 3
}

/// The cells of 3x3 box `b`, row by row within the box.
pub open spec fn box_seq(s: Seq<Option<Entry>>, b: int) -> Seq<Option<Entry>> {
    Seq::new(9, |i: int| s[box_origin(b) + (i / 3) * 9 + (i % 3)])
}

/// Whether a group of cells repeats some digit among its filled cells.
pub open spec fn group_has_duplicate(g: Seq<Option<Entry>>) -> bool {
    exists|i: int, j: int| 0 <= i < j < g.len() && #[trigger] g[i] is Some && g[i] == #[trigger] g[j]
}

/// A board is valid when every row, every column, and every 3x3 box
/// contains every digit at most once among its filled cells.
pub open spec fn board_valid(s: Seq<Option<Entry>>) -> bool {
    &&& forall|g: int| 0 <= g < 9 ==> !group_has_duplicate(#[trigger] row_seq(s, g))
    &&& forall|g: int| 0 <= g < 9 ==> !group_has_duplicate(#[trigger] col_seq(s, g))
    &&& forall|g: int| 0 <= g < 9 ==> !group_has_duplicate(#[trigger] box_seq(s, g))
}

/// Whether every cell of the board is filled.
pub open spec fn all_filled(s: Seq<Option<Entry>>) -> bool {
    forall|i: int| 0 <= i < s.len() ==> #[trigger] s[i] is Some
}

/// Whether `i` is the smallest linear index whose cell is empty.
pub open spec fn is_first_unfilled(s: Seq<Option<Entry>>, i: int) -> bool {
    &&& 0 <= i < s.len()
    &&& s[i] is None
    &&& forall|j: int| 0 <= j < i ==> #[trigger] s[j] is Some
}

/// An entry's value lies in 1 through 9, and determines the entry.
pub proof fn lemma_entry_value(e: Entry)
    ensures
        1 <= e.value() <= 9,
        Entry::spec_of_value(e.value()) == e,
{
}

/// Whether `b2` agrees with `b1` on every cell that is filled in `b1`.
///
/// A board obtained from `b1` by filling some empty cells extends `b1`.
pub open spec fn extends(b2: Seq<Option<Entry>>, b1: Seq<Option<Entry>>) -> bool {
    &&& b2.len() == b1.len()
    &&& forall|i: int| 0 <= i < b1.len() && b1[i] is Some ==> #[trigger] b2[i] == b1[i]
}

/// Whether `sol` is a solution of the puzzle `b`: a complete, valid board
/// that keeps every cell already filled in `b`.
pub open spec fn is_solution(sol: Seq<Option<Entry>>, b: Seq<Option<Entry>>) -> bool {
    &&& board_wf(sol)
    &&& all_filled(sol)
    &&& board_valid(sol)
    &&& extends(sol, b)
}

/// The number of empty cells of a board.
pub open spec fn num_empty(s: Seq<Option<Entry>>) -> nat
    decreases s.len(),
{
    if s.len() == 0 {
        0
    } else {
        num_empty(s.drop_last()) + (if s.last() is None {
            1nat
        } else {
            0nat
        })
    }
}

/// How filling or clearing one cell changes the number of empty cells.
pub proof fn lemma_num_empty_update(s: Seq<Option<Entry>>, i: int, v: Option<Entry>)
    requires
        0 <= i < s.len(),
    ensures
        num_empty(s.update(i, v)) as int == num_empty(s) as int - (if s[i] is None {
            1int
        } else {
            0int
        }) + (if v is None {
            1int
        } else {
            0int
        }),
    decreases s.len(),
{
    let s2 = s.update(i, v);
    if i == s.len() - 1 {
        assert(s2.drop_last() =~= s.drop_last());
    } else {
        assert(s2.drop_last() =~= s.drop_last().update(i, v));
        lemma_num_empty_update(s.drop_last(), i, v);
    }
}

/// Extension is transitive.
pub proof fn lemma_extends_trans(c: Seq<Option<Entry>>, b: Seq<Option<Entry>>, a: Seq<
    Option<Entry>,
>)
    requires
        extends(c, b),
        extends(b, a),
    ensures
        extends(c, a),
{
    assert forall|i: int| 0 <= i < a.len() && a[i] is Some implies #[trigger] c[i] == a[i] by {
        assert(b[i] == a[i]);
    }
}

/// A duplicate among the filled cells survives filling further cells.
proof fn lemma_dup_lift(g1: Seq<Option<Entry>>, g2: Seq<Option<Entry>>)
    requires
        g1.len() == g2.len(),
        forall|i: int| 0 <= i < g1.len() && g1[i] is Some ==> #[trigger] g2[i] == g1[i],
        group_has_duplicate(g1),
    ensures
        group_has_duplicate(g2),
{
    let (i, j) = choose|i: int, j: int|
        0 <= i < j < g1.len() && #[trigger] g1[i] is Some && g1[i] == #[trigger] g1[j];
    assert(g2[i] == g1[i]);
    assert(g2[j] == g1[j]);
}

/// An invalid board stays invalid when further cells are filled.
pub proof fn lemma_extends_invalid(b2: Seq<Option<Entry>>, b1: Seq<Option<Entry>>)
    requires
        board_wf(b1),
        extends(b2, b1),
        !board_valid(b1),
    ensures
        !board_valid(b2),
{
    if exists|g: int| 0 <= g < 9 && group_has_duplicate(#[trigger] row_seq(b1, g)) {
        let g = choose|g: int| 0 <= g < 9 && group_has_duplicate(#[trigger] row_seq(b1, g));
        assert forall|i: int|
            0 <= i < 9 && row_seq(b1, g)[i] is Some implies #[trigger] row_seq(b2, g)[i]
            == row_seq(b1, g)[i] by {
            assert(b2[g * 9 + i] == b1[g * 9 + i]);
        }
        lemma_dup_lift(row_seq(b1, g), row_seq(b2, g));
    } else if exists|g: int| 0 <= g < 9 && group_has_duplicate(#[trigger] col_seq(b1, g)) {
        let g = choose|g: int| 0 <= g < 9 && group_has_duplicate(#[trigger] col_seq(b1, g));
        assert forall|i: int|
            0 <= i < 9 && col_seq(b1, g)[i] is Some implies #[trigger] col_seq(b2, g)[i]
            == col_seq(b1, g)[i] by {
            assert(b2[i * 9 + g] == b1[i * 9 + g]);
        }
        lemma_dup_lift(col_seq(b1, g), col_seq(b2, g));
    } else {
        let g = choose|g: int| 0 <= g < 9 && group_has_duplicate(#[trigger] box_seq(b1, g));
        assert forall|i: int|
            0 <= i < 9 && box_seq(b1, g)[i] is Some implies #[trigger] box_seq(b2, g)[i]
            == box_seq(b1, g)[i] by {
            let n = box_origin(g) + (i / 3) * 9 + (i % 3);
            assert(0 <= n < 81);
            assert(b2[n] == b1[n]);
        }
        lemma_dup_lift(box_seq(b1, g), box_seq(b2, g));
    }
}

/// Some cell below a given empty cell is the first unfilled one.
proof fn lemma_first_unfilled_from_witness(s: Seq<Option<Entry>>, k: int)
    requires
        0 <= k < s.len(),
        s[k] is None,
    ensures
        exists|i: int| is_first_unfilled(s, i),
    decreases k,
{
    if forall|j: int| 0 <= j < k ==> #[trigger] s[j] is Some {
        assert(is_first_unfilled(s, k));
    } else {
        let j = choose|j: int| 0 <= j < k && !(#[trigger] s[j] is Some);
        lemma_first_unfilled_from_witness(s, j);
    }
}

/// A board that is not completely filled has a first unfilled cell.
pub proof fn lemma_first_unfilled_exists(s: Seq<Option<Entry>>)
    requires
        !all_filled(s),
    ensures
        exists|i: int| is_first_unfilled(s, i),
{
    let k = choose|k: int| 0 <= k < s.len() && !(#[trigger] s[k] is Some);
    lemma_first_unfilled_from_witness(s, k);
}

/// The first unfilled cell is unique.
pub proof fn lemma_first_unfilled_unique(s: Seq<Option<Entry>>, i: int, j: int)
    requires
        is_first_unfilled(s, i),
        is_first_unfilled(s, j),
    ensures
        i == j,
{
    if i < j {
        assert(s[i] is Some);
    } else if j < i {
        assert(s[j] is Some);
    }
}

/// Whether a character denotes a filled cell, that is, one of the digits
/// 1 through 9.
pub open spec fn is_digit_char(c: char) -> bool {
    c == '1' || c == '2' || c == '3' || c == '4' || c == '5' || c == '6' || c == '7' || c == '8'
        || c == '9'
}

/// The numeric value denoted by a digit character.
pub open spec fn digit_char_value(c: char) -> int
    recommends
        is_digit_char(c),
{
    if c == '1' {
        1
    } else if c == '2' {
        2
    } else if c == '3' {
        3
    } else if c == '4' {
        4
    } else if c == '5' {
        5
    } else if c == '6' {
        6
    } else if c == '7' {
        7
    } else if c == '8' {
        8
    } else {
        9
    }
}

/// Whether a character denotes a cell at all: a digit marks a filled cell
/// and an underscore marks an empty one. Every other character is
/// decoration and consumes no cell.
pub open spec fn is_marker(c: char) -> bool {
    c == '_' || is_digit_char(c)
}

/// The cell denoted by a marker character.
pub open spec fn marker_value(c: char) -> Option<Entry>
    recommends
        is_marker(c),
{
    if c == '_' {
        None
    } else {
        Some(Entry::spec_of_value(digit_char_value(c)))
    }
}

/// The cells denoted by the marker characters of a string, in order of
/// appearance; non-marker characters contribute nothing.
pub open spec fn markers(s: Seq<char>) -> Seq<Option<Entry>>
    decreases s.len(),
{
    if s.len() == 0 {
        Seq::empty()
    } else {
        let rest = markers(s.drop_last());
        if is_marker(s.last()) {
            rest.push(marker_value(s.last()))
        } else {
            rest
        }
    }
}

/// The board described by a string: its markers fill linear indices 0
/// onward in order of appearance. Cells beyond the last marker stay empty,
/// and markers beyond the 81st are ignored.
pub open spec fn parsed_board(s: Seq<char>) -> Seq<Option<Entry>> {
    Seq::new(81, |i: int| if i < markers(s).len() { markers(s)[i] } else { None })
}

/// A Sudoku board.
///
/// The board contains 9 rows and 9 columns, grouped into a 3x3 grid of
/// boxes. Each cell is either empty or holds a digit from 1 to 9. Validity
/// (no digit twice within the same row, column, or box) is a derived
/// property checked on demand by [`Board::is_valid`], not an invariant of
/// the type.
#[derive(Debug)]
pub struct Board {
    /// The cells of the board, in row-major order.
    ///
    /// A well-formed board holds exactly 81 cells; each is either empty or
    /// occupied by a digit in the range 1-9.
    pub cells: Vec<Option<Entry>>,
}

impl View for Board {
    type V = Seq<Option<Entry>>;

    open spec fn view(&self) -> Seq<Option<Entry>> {
        self.cells@
    }
}

impl Board {
    /// A board is well formed when it has exactly 81 cells.
    pub open spec fn wf(&self) -> bool {
        board_wf(self@)
    }

    /// Creates a new empty board.
    pub fn empty() -> (r: Board)
        ensures
            r.wf(),
            forall|i: int| 0 <= i < 81 ==> #[trigger] r@[i] is None,
    {
        let mut cells: Vec<Option<Entry>> = Vec::new();
        let mut k: usize = 0;
        while k < 81
            invariant
                k <= 81,
                cells@.len() == k,
                forall|i: int| 0 <= i < k ==> #[trigger] cells@[i] is None,
            decreases 81 - k,
        {
            cells.push(None);
            k += 1;
        }
        Board { cells }
    }

    /// Retrieve the entry in a particular cell, addressed by row and column.
    ///
    /// If this function returns [`None`], the cell at the specified row and
    /// column has not yet been filled in. Unlike [`Board::get_cell_index`],
    /// this accessor is strict: both coordinates must be below 9.
    pub fn get_cell(&self, row: usize, column: usize) -> (r: Option<Entry>)
        requires
            self.wf(),
            row < 9,
            column < 9,
        ensures
            r == self@[row * 9 + column],
    {
        self.cells[row * 9 + column]
    }

    /// Retrieve the entry in a particular cell, addressed by linear index.
    ///
    /// Unlike [`Board::get_cell`], this accessor is tolerant: an index of
    /// at least 81 silently yields [`None`] instead of being rejected, so
    /// that search code may probe computed indices freely.
    pub fn get_cell_index(&self, index: usize) -> (r: Option<Entry>)
        requires
            self.wf(),
        ensures
            index < 81 ==> r == self@[index as int],
            index >= 81 ==> r is None,
    {
        if index < self.cells.len() {
            self.cells[index]
        } else {
            None
        }
    }

    /// Retrieve an entire row, in column order.
    pub fn get_row(&self, row: usize) -> (r: Vec<Option<Entry>>)
        requires
            self.wf(),
            row < 9,
        ensures
            r@ == row_seq(self@, row as int),
    {
        let mut r: Vec<Option<Entry>> = Vec::new();
        let mut x: usize = 0;
        while x < 9
            invariant
                self.wf(),
                row < 9,
                x <= 9,
                r@.len() == x,
                forall|i: int| 0 <= i < x ==> #[trigger] r@[i] == self@[row * 9 + i],
            decreases 9 - x,
        {
            r.push(self.cells[row * 9 + x]);
            x += 1;
        }
        proof {
            assert(r@ =~= row_seq(self@, row as int));
        }
        r
    }

    /// Retrieve an entire column, in row order.
    pub fn get_column(&self, column: usize) -> (r: Vec<Option<Entry>>)
        requires
            self.wf(),
            column < 9,
        ensures
            r@ == col_seq(self@, column as int),
    {
        let mut r: Vec<Option<Entry>> = Vec::new();
        let mut x: usize = 0;
        while x < 9
            invariant
                self.wf(),
                column < 9,
                x <= 9,
                r@.len() == x,
                forall|i: int| 0 <= i < x ==> #[trigger] r@[i] == self@[i * 9 + column],
            decreases 9 - x,
        {
            r.push(self.cells[x * 9 + column]);
            x += 1;
        }
        proof {
            assert(r@ =~= col_seq(self@, column as int));
        }
        r
    }

    /// Retrieve a big cell, that is, one of the 3x3 boxes.
    ///
    /// The board can be divided into 9 boxes, each 3x3 in size. This
    /// function treats the board as if it is made up of boxes and returns
    /// the box at the supplied index. Indices run along the width of the
    /// board first, then down the height.
    pub fn get_big_cell(&self, index: usize) -> (r: Vec<Option<Entry>>)
        requires
            self.wf(),
            index < 9,
        ensures
            r@ == box_seq(self@, index as int),
    {
        let small_index = as_small_index(index);
        let r = vec![
            self.cells[small_index],
            self.cells[small_index + 1],
            self.cells[small_index + 2],
            self.cells[small_index + 9],
            self.cells[small_index + 10],
            self.cells[small_index + 11],
            self.cells[small_index + 18],
            self.cells[small_index + 19],
            self.cells[small_index + 20],
        ];
        proof {
            assert(r@ =~= box_seq(self@, index as int));
        }
        r
    }

    /// Set the cell at the target index to the specified value.
    ///
    /// The board has exactly 81 cells, so this function does nothing if the
    /// index is at least 81: the silent no-op is a deliberate tolerance, not
    /// an error signal, so that search code may write to computed indices
    /// freely. To clear the entry at the target index, pass [`None`].
    pub fn set_cell_index(&mut self, index: usize, entry: Option<Entry>)
        requires
            old(self).wf(),
        ensures
            final(self).wf(),
            index < 81 ==> final(self)@ == old(self)@.update(index as int, entry),
            index >= 81 ==> final(self)@ == old(self)@,
    {
        if index < self.cells.len() {
            self.cells[index] = entry;
        }
    }

    /// Retrieve the index of the first unfilled cell.
    ///
    /// Imagine that the rows of the board are positioned one after another.
    /// The first unfilled cell is the first cell from the left which
    /// contains no entry. If there is no such cell, that is, all cells have
    /// been filled, then [`None`] is returned.
    pub fn first_unfilled_index(&self) -> (r: Option<usize>)
        requires
            self.wf(),
        ensures
            (r matches Some(i) ==> is_first_unfilled(self@, i as int)),
            r is None <==> all_filled(self@),
    {
        let mut k: usize = 0;
        while k < 81
            invariant
                self.wf(),
                k <= 81,
                forall|j: int| 0 <= j < k ==> #[trigger] self@[j] is Some,
            decreases 81 - k,
        {
            if self.cells[k].is_none() {
                return Some(k);
            }
            k += 1;
        }
        None
    }

    /// Check whether or not a board is valid.
    ///
    /// A board is valid if every row, column, and big cell contains every
    /// digit at most once. For instance, a board is not valid if a row
    /// contains two 2's.
    pub fn is_valid(&self) -> (r: bool)
        requires
            self.wf(),
        ensures
            r == board_valid(self@),
    {
        let mut index: usize = 0;
        while index < 9
            invariant
                self.wf(),
                index <= 9,
                forall|g: int| 0 <= g < index ==> !group_has_duplicate(#[trigger] row_seq(self@, g)),
                forall|g: int| 0 <= g < index ==> !group_has_duplicate(#[trigger] col_seq(self@, g)),
                forall|g: int| 0 <= g < index ==> !group_has_duplicate(#[trigger] box_seq(self@, g)),
            decreases 9 - index,
        {
            let row = self.get_row(index);
            let column = self.get_column(index);
            let big_cell = self.get_big_cell(index);
            if has_duplicates(&row) || has_duplicates(&column) || has_duplicates(&big_cell) {
                return false;
            }
            index += 1;
        }
        true
    }

    /// Convert a string into a board.
    ///
    /// Strictly speaking, the string does not need a particular format. The
    /// function skips past any characters that are not the digits 1 through
    /// 9 or an underscore. The cells of the board are initialized one by
    /// one, in linear order, as digits and underscores are found in the
    /// string: a digit fills the next cell with that entry, and an
    /// underscore leaves the next cell empty. For example, the strings
    /// `"16_9____52___456_9_9__3_7_26____7_939___1___747_3_9__8
    /// 7_2_8_956__629___4__9_____1"` and
    ///
    /// ```text
    /// +-------+-------+-------+
    /// | 1 6 _ | 9 _ _ | _ _ 5 |
    /// | 2 _ _ | _ 4 5 | 6 _ 9 |
    /// | _ 9 _ | _ 3 _ | 7 _ 2 |
    /// +-------+-------+-------+
    /// | 6 _ _ | _ _ 7 | _ 9 3 |
    /// | 9 _ _ | _ 1 _ | _ _ 7 |
    /// | 4 7 _ | 3 _ 9 | _ _ 8 |
    /// +-------+-------+-------+
    /// | 7 _ 2 | _ 8 _ | 9 5 6 |
    /// | _ _ 6 | 2 9 _ | _ _ 4 |
    /// | _ _ 9 | _ _ _ | _ _ 1 |
    /// +-------+-------+-------+
    /// ```
    ///
    /// parse to the same board. A string with fewer than 81 markers leaves
    /// the remaining cells empty (a deliberate silent partial fill), and
    /// markers beyond the 81st are ignored, so parsing never fails.
    pub fn from_text(s: &str) -> (r: Board)
        ensures
            r.wf(),
            r@ == parsed_board(s@),
    {
        let mut board = Board::empty();
        let mut index: usize = 0;
        let n = s.unicode_len();
        let mut i: usize = 0;
        while i < n
            invariant
                board.wf(),
                n == s@.len(),
                i <= n,
                index <= 81,
                index == if markers(s@.take(i as int)).len() <= 81 {
                    markers(s@.take(i as int)).len() as int
                } else {
                    81
                },
                forall|j: int|
                    0 <= j < 81 ==> #[trigger] board@[j] == (if j < markers(
                        s@.take(i as int),
                    ).len() {
                        markers(s@.take(i as int))[j]
                    } else {
                        None::<Entry>
                    }),
            decreases n - i,
        {
            let c = s.get_char(i);
            proof {
                assert(s@.take(i + 1).drop_last() =~= s@.take(i as int));
                assert(s@.take(i + 1).last() == s@[i as int]);
            }
            match char_marker(c) {
                Some(value) => {
                    if index < 81 {
                        board.set_cell_index(index, value);
                        index += 1;
                    }
                },
                None => {},
            }
            i += 1;
        }
        proof {
            assert(s@.take(n as int) =~= s@);
            assert(board@ =~= parsed_board(s@));
        }
        board
    }
}

impl core::str::FromStr for Board {
    type Err = ();

    fn from_str(s: &str) -> Result<Board, ()> {
        Ok(Board::from_text(s))
    }
}

/// The marker value denoted by a character, or [`None`] for a character
/// that is not a marker.
fn char_marker(c: char) -> (r: Option<Option<Entry>>)
    ensures
        is_marker(c) ==> r == Some(marker_value(c)),
        !is_marker(c) ==> r is None,
{
    match c {
        '_' => Some(None),
        '1' => Some(Some(Entry::One)),
        '2' => Some(Some(Entry::Two)),
        '3' => Some(Some(Entry::Three)),
        '4' => Some(Some(Entry::Four)),
        '5' => Some(Some(Entry::Five)),
        '6' => Some(Some(Entry::Six)),
        '7' => Some(Some(Entry::Seven)),
        '8' => Some(Some(Entry::Eight)),
        '9' => Some(Some(Entry::Nine)),
        _ => None,
    }
}

/// Convert a big index into a small index.
///
/// This function converts the index of a big cell into the index of the
/// upper-leftmost small cell of the big cell.
fn as_small_index(big_index: usize) -> (r: usize)
    requires
        big_index < 9,
    ensures
        r == box_origin(big_index as int),
{
    match big_index {
        0 | 1 | 2 => big_index * 3,
        3 | 4 | 5 => big_index * 3 + 18,
        _ => big_index * 3 + 36,
    }
}

/// Convert a cell's position to an index.
///
/// In board space, points are pairs of integers 0-8: a column index and a
/// row index. A point outside the board yields [`None`].
pub fn cell_pos_to_index(x: usize, y: usize) -> (r: Option<usize>)
    ensures
        x < 9 && y < 9 ==> r == Some((y * 9 + x) as usize),
        !(x < 9 && y < 9) ==> r is None,
{
    if x < 9 && y < 9 {
        Some(y * 9 + x)
    } else {
        None
    }
}

/// Whether some digit occurs twice among the filled cells of a group.
fn has_duplicates(items: &Vec<Option<Entry>>) -> (r: bool)
    ensures
        r == group_has_duplicate(items@),
{
    let n = items.len();
    let mut i: usize = 0;
    while i < n
        invariant
            n == items@.len(),
            i <= n,
            forall|p: int, q: int|
                0 <= p < q < n && p < i ==> !(#[trigger] items@[p] is Some && items@[p] == #[trigger] items@[q]),
        decreases n - i,
    {
        let mut j: usize = i + 1;
        while j < n
            invariant
                n == items@.len(),
                i < n,
                i + 1 <= j <= n,
                forall|q: int| i < q < j ==> !(items@[i as int] is Some && items@[i as int] == #[trigger] items@[q]),
            decreases n - j,
        {
            if let (Some(x), Some(y)) = (items[i], items[j]) {
                if x == y {
                    return true;
                }
            }
            j += 1;
        }
        i += 1;
    }
    false
}

} // verus!
