//! The text form of a maze: a header line `Maze <width> <height>` and one
//! line of glyphs for each row of the grid.

use vstd::prelude::*;
use vstd::string::*;
use crate::common::{AppError, ErrorKind};
use crate::maze::{
    lemma_glyph_roundtrip,
    lemma_position_of,
    lemma_row_in_grid,
    Dimensions,
    Maze,
    MazeCell,
    MazeCellType,
    MazeView,
    MAZE_DIMENSION_MAX,
    MAZE_DIMENSION_MIN,
};

verus! {

/// The character of a decimal digit.
pub open spec fn digit_char(d: int) -> char {
    if d == 0 {
        '0'
    } else if d == 1 {
        '1'
    } else if d == 2 {
        '2'
    } else if d == 3 {
        '3'
    } else if d == 4 {
        '4'
    } else if d == 5 {
        '5'
    } else if d == 6 {
        '6'
    } else if d == 7 {
        '7'
    } else if d == 8 {
        '8'
    } else {
        '9'
    }
}

/// The value of a decimal digit, or `None` for any other character.
pub open spec fn digit_value(c: char) -> Option<int> {
    if c == '0' {
        Some(0)
    } else if c == '1' {
        Some(1)
    } else if c == '2' {
        Some(2)
    } else if c == '3' {
        Some(3)
    } else if c == '4' {
        Some(4)
    } else if c == '5' {
        Some(5)
    } else if c == '6' {
        Some(6)
    } else if c == '7' {
        Some(7)
    } else if c == '8' {
        Some(8)
    } else if c == '9' {
        Some(9)
    } else {
        None
    }
}

/// The decimal numeral of a number, without leading zeros.
pub open spec fn decimal(n: nat) -> Seq<char>
    decreases n,
{
    if n < 10 {
        seq![digit_char(n as int)]
    } else {
        decimal(n / 10).push(digit_char((n % 10) as int))
    }
}

/// The number that a sequence of digits stands for.
pub open spec fn digits_value(s: Seq<char>) -> nat
    decreases s.len(),
{
    if s.len() == 0 {
        0
    } else {
        digits_value(s.drop_last()) * 10 + match digit_value(s.last()) {
            Some(d) => d as nat,
            None => 0,
        }
    }
}

/// Every character of the sequence is a decimal digit.
pub open spec fn all_digits(s: Seq<char>) -> bool {
    forall|i: int| 0 <= i < s.len() ==> digit_value(#[trigger] s[i]) is Some
}

/// The word that opens the header line, with the blank that follows it.
pub open spec fn header_word() -> Seq<char> {
    seq!['M', 'a', 'z', 'e', ' ']
}

/// The header line of a maze of the given size, without its line feed.
pub open spec fn header_line(width: nat, height: nat) -> Seq<char> {
    header_word() + decimal(width) + seq![' '] + decimal(height)
}

/// The header line of a maze of the given size, with its line feed.
pub open spec fn header_text(width: nat, height: nat) -> Seq<char> {
    header_line(width, height) + seq!['\n']
}

/// The lines of a grid of the given size: in each line the characters of
/// the cells of one row, then a line feed.
pub open spec fn grid_text(width: int, height: int, cell_char: spec_fn(int) -> char) -> Seq<
    char,
> {
    Seq::new(
        (height * (width + 1)) as nat,
        |k: int|
            if k % (width + 1) == width {
                '\n'
            } else {
                cell_char((k / (width + 1)) * width + k % (width + 1))
            },
    )
}

/// The lines of a grid with the glyph of each cell.
pub open spec fn cells_text(width: int, height: int, kinds: Seq<MazeCellType>) -> Seq<char> {
    grid_text(width, height, |i: int| kinds[i].spec_glyph())
}

/// The text form of a grid of the given size and kinds of cells.
pub open spec fn text_of(width: nat, height: nat, kinds: Seq<MazeCellType>) -> Seq<char> {
    header_text(width, height) + cells_text(width as int, height as int, kinds)
}

impl MazeView {
    /// The text in which the maze is persisted: the kinds of the cells
    /// only, none of the marks and links.
    pub open spec fn text(self) -> Seq<char> {
        text_of(self.width as nat, self.height as nat, self.kinds)
    }

    /// The character that shows a cell to the user: `o` on the route, `.`
    /// where the solver has been, the glyph of the cell otherwise.
    pub open spec fn shown_char(self, i: int) -> char {
        if self.on_route[i] {
            'o'
        } else if self.visited[i] {
            '.'
        } else {
            self.kinds[i].spec_glyph()
        }
    }

    /// The picture of the maze for the console.
    pub open spec fn picture(self) -> Seq<char> {
        grid_text(self.width, self.height, |i: int| self.shown_char(i))
    }
}

/// A numeral has at least one digit, holds digits only, starts with a zero
/// only where the number is zero, and stands for its number.
pub proof fn lemma_decimal(n: nat)
    ensures
        decimal(n).len() >= 1,
        all_digits(decimal(n)),
        n > 0 ==> decimal(n)[0] != '0',
        n == 0 ==> decimal(n) == seq!['0'],
        digits_value(decimal(n)) == n,
    decreases n,
{
    if n < 10 {
        let s = decimal(n);
        assert(s.drop_last() =~= Seq::<char>::empty());
        assert(digits_value(s.drop_last()) == 0);
    } else {
        lemma_decimal(n / 10);
        let s = decimal(n);
        let rest = decimal(n / 10);
        assert(s.drop_last() =~= rest);
        assert(s[0] == rest[0]);
        assert forall|i: int| 0 <= i < s.len() implies digit_value(#[trigger] s[i]) is Some by {
            if i < rest.len() {
                assert(s[i] == rest[i]);
            }
        }
    }
}

/// The character of the digit `d`, as a string.
fn digit_str(d: usize) -> (s: &'static str)
    requires
        d < 10,
    ensures
        s@ == seq![digit_char(d as int)],
{
    proof {
        reveal_strlit("0");
        reveal_strlit("1");
        reveal_strlit("2");
        reveal_strlit("3");
        reveal_strlit("4");
        reveal_strlit("5");
        reveal_strlit("6");
        reveal_strlit("7");
        reveal_strlit("8");
        reveal_strlit("9");
    }
    let s = if d == 0 {
        "0"
    } else if d == 1 {
        "1"
    } else if d == 2 {
        "2"
    } else if d == 3 {
        "3"
    } else if d == 4 {
        "4"
    } else if d == 5 {
        "5"
    } else if d == 6 {
        "6"
    } else if d == 7 {
        "7"
    } else if d == 8 {
        "8"
    } else {
        "9"
    };
    assert(s@ =~= seq![digit_char(d as int)]);
    s
}

/// The glyph of a kind of cell, as a string.
fn glyph_str(kind: MazeCellType) -> (s: &'static str)
    ensures
        s@ == seq![kind.spec_glyph()],
{
    proof {
        reveal_strlit("█");
        reveal_strlit(" ");
        reveal_strlit("S");
        reveal_strlit("E");
    }
    let s = match kind {
        MazeCellType::Wall => "█",
        MazeCellType::Passage => " ",
        MazeCellType::Start => "S",
        MazeCellType::End => "E",
    };
    assert(s@ =~= seq![kind.spec_glyph()]);
    s
}

/// Appends the decimal numeral of `n` to `out`.
pub fn append_decimal(out: &mut String, n: usize)
    ensures
        final(out)@ == old(out)@ + decimal(n as nat),
    decreases n,
{
    if n >= 10 {
        append_decimal(out, n / 10);
    }
    out.append(digit_str(n % 10));
    assert(out@ =~= old(out)@ + decimal(n as nat));
}

impl Maze {
    /// The character that shows the cell at `position` to the user.
    fn shown_str(&self, position: usize) -> (s: &'static str)
        requires
            position < self.cells.len(),
        ensures
            s@ == seq![self@.shown_char(position as int)],
    {
        proof {
            reveal_strlit("o");
            reveal_strlit(".");
        }
        let cell = &self.cells[position];
        if cell.on_route {
            let s = "o";
            assert(s@ =~= seq!['o']);
            s
        } else if cell.visited {
            let s = ".";
            assert(s@ =~= seq!['.']);
            s
        } else {
            glyph_str(cell.celltype)
        }
    }

    /// Appends the lines of the grid to `out`: for each cell its glyph, or,
    /// where `with_marks` is set, the character that shows it to the user.
    fn append_grid(&self, out: &mut String, with_marks: bool)
        requires
            self.wf(),
        ensures
            final(out)@ == old(out)@ + if with_marks {
                self@.picture()
            } else {
                cells_text(self@.width, self@.height, self@.kinds)
            },
    {
        let width: usize = self.dimensions.width;
        let height: usize = self.dimensions.height;
        let ghost m = self@;
        let ghost cell_char: spec_fn(int) -> char = if with_marks {
            |i: int| m.shown_char(i)
        } else {
            |i: int| m.kinds[i].spec_glyph()
        };
        let ghost full = grid_text(width as int, height as int, cell_char);
        let mut row: usize = 0;
        while row < height
            invariant
                row <= height,
                self.wf(),
                m == self@,
                width == self.dimensions.width,
                height == self.dimensions.height,
                full == grid_text(width as int, height as int, cell_char),
                with_marks ==> cell_char == (|i: int| m.shown_char(i)),
                !with_marks ==> cell_char == (|i: int| m.kinds[i].spec_glyph()),
                row * (width + 1) <= full.len(),
                out@ == old(out)@ + full.subrange(0, row * (width + 1)),
            decreases height - row,
        {
            proof {
                lemma_line_bounds(width as int, height as int, row as int);
            }
            let mut column: usize = 0;
            while column < width
                invariant
                    column <= width,
                    row < height,
                    self.wf(),
                    m == self@,
                    width == self.dimensions.width,
                    height == self.dimensions.height,
                    full == grid_text(width as int, height as int, cell_char),
                    with_marks ==> cell_char == (|i: int| m.shown_char(i)),
                    !with_marks ==> cell_char == (|i: int| m.kinds[i].spec_glyph()),
                    row * (width + 1) + width + 1 <= full.len(),
                    row * width + width <= width * height,
                    out@ == old(out)@ + full.subrange(0, row * (width + 1) + column),
                decreases width - column,
            {
                let ghost k = row * (width + 1) + column;
                proof {
                    lemma_position_of(width + 1, column as int, row as int);
                    assert(full[k] == cell_char(row * width + column));
                }
                let position: usize = row * width + column;
                let piece = if with_marks {
                    self.shown_str(position)
                } else {
                    glyph_str(self.cells[position].celltype)
                };
                out.append(piece);
                assert(out@ =~= old(out)@ + full.subrange(0, k + 1));
                column += 1;
            }
            proof {
                reveal_strlit("\n");
                lemma_position_of(width + 1, width as int, row as int);
                assert(full[row * (width + 1) + width] == '\n');
            }
            out.append("\n");
            assert(out@ =~= old(out)@ + full.subrange(0, row * (width + 1) + width + 1));
            assert(row * (width + 1) + width + 1 == (row + 1) * (width + 1)) by (nonlinear_arith);
            row += 1;
        }
        assert(row * (width + 1) == full.len()) by (nonlinear_arith)
            requires
                row == height,
                full.len() == height * (width + 1),
        ;
        assert(full.subrange(0, full.len() as int) =~= full);
    }

    /// The text in which the maze is persisted.
    pub fn to_text(&self) -> (text: String)
        requires
            self.wf(),
        ensures
            text@ == self@.text(),
    {
        let mut out = String::from_str("Maze ");
        proof {
            reveal_strlit("Maze ");
            reveal_strlit(" ");
            reveal_strlit("\n");
            assert(out@ =~= header_word());
        }
        append_decimal(&mut out, self.dimensions.width);
        out.append(" ");
        append_decimal(&mut out, self.dimensions.height);
        out.append("\n");
        assert(out@ =~= header_text(self@.width as nat, self@.height as nat));
        self.append_grid(&mut out, false);
        out
    }

    /// The picture of the maze for the console: `o` on the route, `.` where
    /// the solver has been, the glyph of the cell elsewhere, a line for
    /// each row.
    pub fn picture(&self) -> (text: String)
        requires
            self.wf(),
        ensures
            text@ == self@.picture(),
    {
        let mut out = String::new();
        self.append_grid(&mut out, true);
        assert(out@ =~= self@.picture());
        out
    }
}

/// The line of row `row` lies within the text of the grid, and the cells of
/// the row within the grid.
pub proof fn lemma_line_bounds(width: int, height: int, row: int)
    requires
        0 <= row < height,
        0 <= width,
    ensures
        row * (width + 1) + width + 1 <= height * (width + 1),
        row * width + width <= width * height,
        0 <= row * (width + 1),
        0 <= row * width,
{
    assert(row * (width + 1) + width + 1 <= height * (width + 1)) by (nonlinear_arith)
        requires
            0 <= row < height,
            0 <= width,
    ;
    assert(row * width + width <= width * height) by (nonlinear_arith)
        requires
            0 <= row < height,
            0 <= width,
    ;
    assert(0 <= row * (width + 1) && 0 <= row * width) by (nonlinear_arith)
        requires
            0 <= row,
            0 <= width,
    ;
}

/// The number of digits of the numeral of `n`.
pub open spec fn numeral_len(n: nat) -> int {
    decimal(n).len() as int
}

/// The digits of a numeral: what follows the plus sign where it opens
/// with one, the whole of it otherwise.
pub open spec fn numeral_digits(s: Seq<char>) -> Seq<char> {
    if s.len() > 0 && s[0] == '+' {
        s.subrange(1, s.len() as int)
    } else {
        s
    }
}

/// `s` is a numeral: one digit or more, with or without a plus sign
/// before them. Leading zeros are digits like the others.
pub open spec fn is_numeral(s: Seq<char>) -> bool {
    numeral_digits(s).len() >= 1 && all_digits(numeral_digits(s))
}

/// The number that a numeral stands for.
pub open spec fn numeral_value(s: Seq<char>) -> nat {
    digits_value(numeral_digits(s))
}

/// Where the digits begin of a numeral that stands in `s` at `from`:
/// after the plus sign where there is one.
pub open spec fn digits_start(s: Seq<char>, from: int) -> int {
    if 0 <= from < s.len() && s[from] == '+' {
        from + 1
    } else {
        from
    }
}

/// A numeral of `n` stands in `s` from `from` up to `end`, and no digit
/// follows it.
pub open spec fn number_at(s: Seq<char>, from: int, n: nat, end: int) -> bool {
    &&& 0 <= from < end <= s.len()
    &&& is_numeral(s.subrange(from, end))
    &&& numeral_value(s.subrange(from, end)) == n
    &&& end < s.len() ==> digit_value(s[end]) is None
}

/// The numeral of a number without sign and leading zeros is a numeral
/// of that number.
pub proof fn lemma_decimal_numeral(n: nat)
    ensures
        is_numeral(decimal(n)),
        numeral_value(decimal(n)) == n,
        numeral_digits(decimal(n)) == decimal(n),
{
    lemma_decimal(n);
    assert(digit_value(decimal(n)[0]) is Some);
}

/// `text` is the text form of a grid of valid size with these kinds of cells.
pub open spec fn describes(text: Seq<char>, width: nat, height: nat, kinds: Seq<MazeCellType>)
    -> bool {
    &&& MAZE_DIMENSION_MIN <= width <= MAZE_DIMENSION_MAX
    &&& MAZE_DIMENSION_MIN <= height <= MAZE_DIMENSION_MAX
    &&& kinds.len() == width * height
    &&& text == text_of(width, height, kinds)
}

/// `text` begins with a header line for a maze of this size, whose
/// numerals end at `a` and at `b`: the word `Maze`, a blank, a numeral of
/// the width, a blank, a numeral of the height, and then a line feed or
/// the end of the text. The size is within the accepted bounds. `body` is
/// the place after the header: after the line feed where there is one,
/// the end of the text where there is none.
pub open spec fn header_parts(
    text: Seq<char>,
    width: nat,
    height: nat,
    a: int,
    b: int,
    body: int,
) -> bool {
    &&& MAZE_DIMENSION_MIN <= width <= MAZE_DIMENSION_MAX
    &&& MAZE_DIMENSION_MIN <= height <= MAZE_DIMENSION_MAX
    &&& text.len() >= 5
    &&& text.subrange(0, 5) == header_word()
    &&& number_at(text, 5, width, a)
    &&& a < text.len()
    &&& text[a] == ' '
    &&& number_at(text, a + 1, height, b)
    &&& if b == text.len() {
        body == b
    } else {
        text[b] == '\n' && body == b + 1
    }
}

/// `text` begins with a header line for a maze of this size, and `body`
/// is the place after it. See `header_parts`.
pub open spec fn header_at(text: Seq<char>, width: nat, height: nat, body: int) -> bool {
    exists|a: int, b: int| header_parts(text, width, height, a, b, body)
}

/// Only one number can stand at a place.
pub proof fn lemma_number_once(s: Seq<char>, from: int, n: nat, end: int, m: nat, other: int)
    requires
        number_at(s, from, n, end),
        number_at(s, from, m, other),
    ensures
        n == m,
        end == other,
{
    let start = digits_start(s, from);
    let first = s.subrange(from, end);
    let second = s.subrange(from, other);
    assert(first[0] == s[from] && second[0] == s[from]);
    assert(numeral_digits(first) =~= s.subrange(start, end));
    assert(numeral_digits(second) =~= s.subrange(start, other));
    if end < other {
        assert(s.subrange(start, other)[end - start] == s[end]);
    }
    if other < end {
        assert(s.subrange(start, end)[other - start] == s[other]);
    }
}

/// A text begins with one header line at most.
pub proof fn lemma_header_once(
    text: Seq<char>,
    width: nat,
    height: nat,
    body: int,
    w: nat,
    h: nat,
    b: int,
)
    requires
        header_at(text, width, height, body),
        header_at(text, w, h, b),
    ensures
        w == width,
        h == height,
        b == body,
        0 <= body <= text.len(),
{
    let (a1, b1) = choose|a: int, b: int| header_parts(text, width, height, a, b, body);
    let (a2, b2) = choose|a: int, e: int| header_parts(text, w, h, a, e, b);
    lemma_number_once(text, 5, width, a1, w, a2);
    lemma_number_once(text, a1 + 1, height, b1, h, b2);
}

/// The text form of a grid of valid size begins with its header line, and
/// a line feed follows.
pub proof fn lemma_describes_header(
    text: Seq<char>,
    width: nat,
    height: nat,
    kinds: Seq<MazeCellType>,
)
    requires
        describes(text, width, height, kinds),
    ensures
        header_at(text, width, height, 7 + numeral_len(width) + numeral_len(height)),
        text.len() == 7 + numeral_len(width) + numeral_len(height) + height * (width + 1),
        text.subrange(0, 7 + numeral_len(width) + numeral_len(height)) == header_text(
            width,
            height,
        ),
{
    let dw = numeral_len(width);
    let dh = numeral_len(height);
    lemma_text_shape(text, width, height, kinds);
    assert(text.subrange(0, 5) =~= header_word());
    assert(header_parts(text, width, height, 5 + dw, 6 + dw + dh, 7 + dw + dh));
    assert(text.subrange(0, 7 + dw + dh) =~= header_text(width, height));
}

/// `text` can be read as a grid of this size with these kinds of cells: it
/// begins with a header line for a maze of this size, and with the header
/// line written without sign and leading zeros it is the text form of
/// that grid.
pub open spec fn reads_as(text: Seq<char>, width: nat, height: nat, kinds: Seq<MazeCellType>)
    -> bool {
    exists|body: int| #[trigger]
        header_at(text, width, height, body) && 0 <= body <= text.len() && describes(
            header_text(width, height) + text.subrange(body, text.len() as int),
            width,
            height,
            kinds,
        )
}

/// The character of the text that stands for column `c` of row `r`, where
/// the lines begin at `body` and each takes up `line` characters.
pub open spec fn char_at(text: Seq<char>, body: int, line: int, r: int, c: int) -> char {
    text[body + r * line + c]
}

/// `position` is the first cell of the given kind, or 0 where there is
/// no such cell.
pub open spec fn marks_first(kinds: Seq<MazeCellType>, kind: MazeCellType, position: int)
    -> bool {
    if exists|i: int| 0 <= i < kinds.len() && kinds[i] == kind {
        &&& 0 <= position < kinds.len()
        &&& kinds[position] == kind
        &&& forall|j: int| 0 <= j < position ==> kinds[j] != kind
    } else {
        position == 0
    }
}

/// Where the parts of the text form of a grid stand in the text.
pub proof fn lemma_text_shape(text: Seq<char>, width: nat, height: nat, kinds: Seq<MazeCellType>)
    requires
        text == text_of(width, height, kinds),
    ensures
        text.len() == 7 + numeral_len(width) + numeral_len(height) + height * (width + 1),
        forall|i: int| 0 <= i < 5 ==> text[i] == header_word()[i],
        number_at(text, 5, width, 5 + numeral_len(width)),
        text[5 + numeral_len(width)] == ' ',
        number_at(
            text,
            6 + numeral_len(width),
            height,
            6 + numeral_len(width) + numeral_len(height),
        ),
        text[6 + numeral_len(width) + numeral_len(height)] == '\n',
        forall|j: int|
            0 <= j < height * (width + 1) ==> text[7 + numeral_len(width) + numeral_len(height)
                + j] == (#[trigger] cells_text(width as int, height as int, kinds)[j]),
{
    let dw = numeral_len(width);
    let dh = numeral_len(height);
    let grid = cells_text(width as int, height as int, kinds);
    lemma_decimal(width);
    lemma_decimal(height);
    assert(height * (width + 1) >= 0) by (nonlinear_arith)
        requires
            height >= 0,
            width >= 0,
    ;
    assert(grid.len() == height * (width + 1));
    assert(text.subrange(5, 5 + dw) =~= decimal(width));
    assert(text.subrange(6 + dw, 6 + dw + dh) =~= decimal(height));
    assert(text[5 + dw] == ' ');
    assert(text[6 + dw + dh] == '\n');
    lemma_decimal_numeral(width);
    lemma_decimal_numeral(height);
}

/// The number that stands at a place is the number of the digits that
/// stand there, after the plus sign where there is one, up to the first
/// character that is no digit.
pub proof fn lemma_number_unique(s: Seq<char>, from: int, run_end: int, n: nat, end: int)
    requires
        0 <= from < s.len(),
        digits_start(s, from) <= run_end <= s.len(),
        all_digits(s.subrange(digits_start(s, from), run_end)),
        run_end < s.len() ==> digit_value(s[run_end]) is None,
        number_at(s, from, n, end),
    ensures
        end == run_end,
        run_end > digits_start(s, from),
        n == digits_value(s.subrange(digits_start(s, from), run_end)),
{
    let start = digits_start(s, from);
    let run = s.subrange(start, run_end);
    let numeral = s.subrange(from, end);
    assert(numeral[0] == s[from]);
    assert(numeral_digits(numeral) =~= s.subrange(start, end));
    if end < run_end {
        assert(run[end - start] == s[end]);
    }
    if end > run_end {
        assert(s.subrange(start, end)[run_end - start] == s[run_end]);
    }
}

/// The value of the digit that `c` is, if it is one.
pub fn digit_of(c: char) -> (d: Option<usize>)
    ensures
        match d {
            Some(v) => digit_value(c) == Some(v as int) && v < 10,
            None => digit_value(c) is None,
        },
{
    if c == '0' {
        Some(0)
    } else if c == '1' {
        Some(1)
    } else if c == '2' {
        Some(2)
    } else if c == '3' {
        Some(3)
    } else if c == '4' {
        Some(4)
    } else if c == '5' {
        Some(5)
    } else if c == '6' {
        Some(6)
    } else if c == '7' {
        Some(7)
    } else if c == '8' {
        Some(8)
    } else if c == '9' {
        Some(9)
    } else {
        None
    }
}

/// Reads the number that stands in `chars` at `from`: a numeral of a
/// number up to the largest dimension, with or without a plus sign and
/// leading zeros. Returns the number and the place where the numeral ends.
pub fn read_number(chars: &Vec<char>, from: usize) -> (r: Option<(usize, usize)>)
    ensures
        match r {
            Some((value, end)) => {
                &&& number_at(chars@, from as int, value as nat, end as int)
                &&& value <= MAZE_DIMENSION_MAX
                &&& forall|n: nat, e: int| #[trigger]
                    number_at(chars@, from as int, n, e) ==> n == value && e == end
            },
            None => forall|n: nat, e: int| #[trigger]
                number_at(chars@, from as int, n, e) ==> n > MAZE_DIMENSION_MAX,
        },
{
    let len: usize = chars.len();
    if from >= len {
        return None;
    }
    let start: usize = if chars[from] == '+' {
        from + 1
    } else {
        from
    };
    let mut end: usize = start;
    let mut acc: usize = 0;
    let mut too_big: bool = false;
    assert(chars@.subrange(start as int, start as int) =~= Seq::<char>::empty());
    loop
        invariant_except_break
            start <= end <= len,
            len == chars.len(),
            all_digits(chars@.subrange(start as int, end as int)),
            !too_big ==> acc == digits_value(chars@.subrange(start as int, end as int)) && acc
                <= MAZE_DIMENSION_MAX,
            too_big ==> digits_value(chars@.subrange(start as int, end as int))
                > MAZE_DIMENSION_MAX,
        ensures
            start <= end <= len,
            all_digits(chars@.subrange(start as int, end as int)),
            !too_big ==> acc == digits_value(chars@.subrange(start as int, end as int)) && acc
                <= MAZE_DIMENSION_MAX,
            too_big ==> digits_value(chars@.subrange(start as int, end as int))
                > MAZE_DIMENSION_MAX,
            end < len ==> digit_value(chars@[end as int]) is None,
        decreases len - end,
    {
        if end >= len {
            break ;
        }
        let digit = digit_of(chars[end]);
        match digit {
            None => {
                break ;
            },
            Some(d) => {
                let ghost run = chars@.subrange(start as int, end as int);
                let ghost longer = chars@.subrange(start as int, end as int + 1);
                proof {
                    assert(longer.drop_last() =~= run);
                    assert(longer.last() == chars@[end as int]);
                    assert forall|i: int| 0 <= i < longer.len() implies digit_value(
                        #[trigger] longer[i],
                    ) is Some by {
                        if i < run.len() {
                            assert(longer[i] == run[i]);
                        }
                    }
                    assert(digits_value(longer) == digits_value(run) * 10 + d);
                }
                if !too_big {
                    acc = acc * 10 + d;
                    if acc > MAZE_DIMENSION_MAX {
                        too_big = true;
                    }
                }
                end += 1;
            },
        }
    }
    let ghost run = chars@.subrange(start as int, end as int);
    assert(start == digits_start(chars@, from as int));
    if end == start || too_big {
        assert forall|n: nat, e: int| #[trigger]
            number_at(chars@, from as int, n, e) implies n > MAZE_DIMENSION_MAX by {
            lemma_number_unique(chars@, from as int, end as int, n, e);
        }
        return None;
    }
    proof {
        let numeral = chars@.subrange(from as int, end as int);
        assert(numeral[0] == chars@[from as int]);
        assert(numeral_digits(numeral) =~= run);
        assert forall|n: nat, e: int| #[trigger]
            number_at(chars@, from as int, n, e) implies n == acc && e == end by {
            lemma_number_unique(chars@, from as int, end as int, n, e);
        }
    }
    Some((acc, end))
}

/// The characters of a string.
pub fn chars_of(text: &str) -> (chars: Vec<char>)
    ensures
        chars@ == text@,
{
    let mut chars: Vec<char> = Vec::new();
    for c in it: text.chars()
        invariant
            chars@ == it.seq().take(it.index() as int),
            it.seq() == text@,
    {
        chars.push(c);
        assert(chars@ =~= it.seq().take(it.index() as int + 1));
    }
    assert(chars@ =~= text@);
    chars
}

/// The error for a text that is not the text form of a maze.
fn parse_error(msg: &str) -> (e: AppError)
    ensures
        e.kind == ErrorKind::Parse,
{
    AppError::with_kind(ErrorKind::Parse, msg)
}

impl MazeView {
    /// The maze carries no mark of the solver and no graph link.
    pub open spec fn unmarked(self) -> bool {
        &&& forall|i: int| 0 <= i < self.visited.len() ==> !self.visited[i]
        &&& forall|i: int| 0 <= i < self.on_route.len() ==> !self.on_route[i]
        &&& forall|i: int|
            0 <= i < self.links.len() ==> #[trigger] self.links[i] == seq![
                None::<usize>,
                None,
                None,
                None,
            ]
        &&& !self.graph_created
    }
}

impl Maze {
    /// Reads the header line of the text form of a maze: the word `Maze`,
    /// the width and the height, each with a blank before it. Each is a
    /// numeral with or without a plus sign and leading zeros. A line feed
    /// or the end of the text must follow. Returns the dimensions and the
    /// place after the header: after the line feed where there is one.
    /// Fails with a `Parse` error where the text does not begin with a
    /// header line for a maze of valid size.
    pub fn parse_header_line(chars: &Vec<char>) -> (r: Result<(Dimensions, usize), AppError>)
        ensures
            match r {
                Ok((dimensions, body)) => {
                    &&& header_at(
                        chars@,
                        dimensions.width as nat,
                        dimensions.height as nat,
                        body as int,
                    )
                    &&& body <= chars@.len()
                    &&& forall|w: nat, h: nat, b: int| #[trigger]
                        header_at(chars@, w, h, b) ==> w == dimensions.width && h
                            == dimensions.height && b == body
                },
                Err(e) => {
                    &&& e.kind == ErrorKind::Parse
                    &&& forall|w: nat, h: nat, b: int| !header_at(chars@, w, h, b)
                },
            },
    {
        let ghost t = chars@;
        let len: usize = chars.len();
        if len < 5 || chars[0] != 'M' || chars[1] != 'a' || chars[2] != 'z' || chars[3] != 'e'
            || chars[4] != ' ' {
            proof {
                assert forall|w: nat, h: nat, b: int| !header_at(t, w, h, b) by {
                    if header_at(t, w, h, b) {
                        let (a1, b1) = choose|a: int, e: int| header_parts(t, w, h, a, e, b);
                        let word = t.subrange(0, 5);
                        assert(word[0] == t[0] && word[1] == t[1] && word[2] == t[2] && word[3]
                            == t[3] && word[4] == t[4]);
                    }
                }
            }
            return Err(parse_error("Error reading maze file header"));
        }
        assert(t.subrange(0, 5) =~= header_word());
        let (width, after_width) = match read_number(chars, 5) {
            Some(found) => found,
            None => {
                proof {
                    assert forall|w: nat, h: nat, b: int| !header_at(t, w, h, b) by {
                        if header_at(t, w, h, b) {
                            let (a1, b1) = choose|a: int, e: int| header_parts(t, w, h, a, e, b);
                            assert(number_at(t, 5, w, a1));
                        }
                    }
                }
                return Err(parse_error("Error parsing maze width from file header"));
            },
        };
        if after_width >= len || chars[after_width] != ' ' {
            proof {
                assert forall|w: nat, h: nat, b: int| !header_at(t, w, h, b) by {
                    if header_at(t, w, h, b) {
                        let (a1, b1) = choose|a: int, e: int| header_parts(t, w, h, a, e, b);
                        assert(number_at(t, 5, w, a1));
                    }
                }
            }
            return Err(parse_error("Error parsing maze width from file header"));
        }
        let (height, after_height) = match read_number(chars, after_width + 1) {
            Some(found) => found,
            None => {
                proof {
                    assert forall|w: nat, h: nat, b: int| !header_at(t, w, h, b) by {
                        if header_at(t, w, h, b) {
                            let (a1, b1) = choose|a: int, e: int| header_parts(t, w, h, a, e, b);
                            assert(number_at(t, 5, w, a1));
                            assert(number_at(t, a1 + 1, h, b1));
                        }
                    }
                }
                return Err(parse_error("Error parsing maze height from file header"));
            },
        };
        let dimensions = Dimensions { width, height };
        let ended: bool = after_height >= len || chars[after_height] == '\n';
        if !ended || !dimensions.is_valid() {
            proof {
                assert forall|w: nat, h: nat, b: int| !header_at(t, w, h, b) by {
                    if header_at(t, w, h, b) {
                        let (a1, b1) = choose|a: int, e: int| header_parts(t, w, h, a, e, b);
                        assert(number_at(t, 5, w, a1));
                        assert(number_at(t, a1 + 1, h, b1));
                    }
                }
            }
            return Err(
                parse_error(
                    if ended {
                        "Maze dimensions in file header are out of bounds"
                    } else {
                        "Error parsing maze height from file header"
                    },
                ),
            );
        }
        let body: usize = if after_height < len {
            after_height + 1
        } else {
            after_height
        };
        proof {
            assert(header_parts(
                t,
                width as nat,
                height as nat,
                after_width as int,
                after_height as int,
                body as int,
            ));
            assert forall|w: nat, h: nat, b: int| #[trigger] header_at(t, w, h, b) implies w
                == width && h == height && b == body by {
                lemma_header_once(t, width as nat, height as nat, body as int, w, h, b);
            }
        }
        Ok((dimensions, body))
    }

    /// Reads a maze from its text form: a header line and the rows that
    /// `to_text` writes for a grid of its size. The numerals of the header
    /// line may have a plus sign and leading zeros. Any other text gives a
    /// `Parse` error. The maze that is read carries no marks and no graph;
    /// its start and end markers point at the first start cell and the
    /// first end cell, or at cell 0 where the grid has none.
    pub fn parse(text: &str) -> (r: Result<Maze, AppError>)
        ensures
            match r {
                Ok(maze) => {
                    &&& maze.wf()
                    &&& maze.dimensions.valid()
                    &&& reads_as(
                        text@,
                        maze.dimensions.width as nat,
                        maze.dimensions.height as nat,
                        maze@.kinds,
                    )
                    &&& maze@.unmarked()
                    &&& marks_first(maze@.kinds, MazeCellType::Start, maze@.start)
                    &&& marks_first(maze@.kinds, MazeCellType::End, maze@.end)
                },
                Err(e) => {
                    &&& e.kind == ErrorKind::Parse
                    &&& forall|w: nat, h: nat, k: Seq<MazeCellType>| !reads_as(text@, w, h, k)
                },
            },
    {
        let chars = chars_of(text);
        let ghost t = chars@;
        let len: usize = chars.len();
        let (dimensions, body) = match Self::parse_header_line(&chars) {
            Ok(found) => found,
            Err(e) => {
                return Err(e);
            },
        };
        let width: usize = dimensions.width;
        let height: usize = dimensions.height;
        let line: usize = width + 1;
        assert(height * line <= 10000 * 10001) by (nonlinear_arith)
            requires
                height <= 10000,
                line <= 10001,
        ;
        if len - body != height * line {
            proof {
                assert forall|w: nat, h: nat, k: Seq<MazeCellType>| !reads_as(t, w, h, k) by {
                    if reads_as(t, w, h, k) {
                        lemma_reads_shape(t, width as nat, height as nat, body as int, w, h, k);
                    }
                }
            }
            return Err(parse_error("Maze file does not hold the rows that its header promises"));
        }
        let mut cells: Vec<MazeCell> = Vec::new();
        let mut row: usize = 0;
        while row < height
            invariant
                row <= height,
                t == chars@,
                t == text@,
                len == chars.len(),
                len == body + height * line,
                line == width + 1,
                dimensions.valid(),
                dimensions == (Dimensions { width, height }),
                header_at(t, width as nat, height as nat, body as int),
                cells.len() == row * width,
                forall|i: int|
                    0 <= i < cells.len() ==> {
                        &&& !(#[trigger] cells[i]).visited
                        &&& !cells[i].on_route
                        &&& cells[i].nodes@ == seq![None::<usize>, None, None, None]
                    },
                forall|r: int, c: int|
                    0 <= r < row && 0 <= c < width ==> #[trigger] char_at(
                        t,
                        body as int,
                        line as int,
                        r,
                        c,
                    ) == cells[r * width + c].celltype.spec_glyph(),
                forall|r: int|
                    0 <= r < row ==> #[trigger] char_at(
                        t,
                        body as int,
                        line as int,
                        r,
                        width as int,
                    ) == '\n',
            decreases height - row,
        {
            proof {
                lemma_line_bounds(width as int, height as int, row as int);
            }
            let mut column: usize = 0;
            while column < width
                invariant
                    column <= width,
                    row < height,
                    t == chars@,
                    t == text@,
                    len == chars.len(),
                    len == body + height * line,
                    line == width + 1,
                    dimensions.valid(),
                    dimensions == (Dimensions { width, height }),
                    header_at(t, width as nat, height as nat, body as int),
                    row * line + width + 1 <= height * line,
                    row * width + width <= width * height,
                    cells.len() == row * width + column,
                    forall|i: int|
                        0 <= i < cells.len() ==> {
                            &&& !(#[trigger] cells[i]).visited
                            &&& !cells[i].on_route
                            &&& cells[i].nodes@ == seq![None::<usize>, None, None, None]
                        },
                    forall|r: int, c: int|
                        0 <= r < row && 0 <= c < width ==> #[trigger] char_at(
                            t,
                            body as int,
                            line as int,
                            r,
                            c,
                        ) == cells[r * width + c].celltype.spec_glyph(),
                    forall|c: int|
                        0 <= c < column ==> #[trigger] char_at(
                            t,
                            body as int,
                            line as int,
                            row as int,
                            c,
                        ) == cells[row * width + c].celltype.spec_glyph(),
                    forall|r: int|
                        0 <= r < row ==> #[trigger] char_at(
                            t,
                            body as int,
                            line as int,
                            r,
                            width as int,
                        ) == '\n',
                decreases width - column,
            {
                let at: usize = body + row * line + column;
                let ghost before = cells@;
                match MazeCellType::from_glyph(chars[at]) {
                    Some(kind) => {
                        let mut cell = MazeCell::wall();
                        cell.celltype = kind;
                        cells.push(cell);
                        proof {
                            assert forall|r: int, c: int|
                                0 <= r < row && 0 <= c < width implies #[trigger] char_at(
                                t,
                                body as int,
                                line as int,
                                r,
                                c,
                            ) == cells[r * width + c].celltype.spec_glyph() by {
                                assert(0 <= r * width + c < row * width) by (nonlinear_arith)
                                    requires
                                        0 <= r < row,
                                        0 <= c < width,
                                ;
                                assert(cells[r * width + c] == before[r * width + c]);
                            }
                            assert forall|c: int| 0 <= c < column + 1 implies #[trigger] char_at(
                                t,
                                body as int,
                                line as int,
                                row as int,
                                c,
                            ) == cells[row * width + c].celltype.spec_glyph() by {
                                if c < column {
                                    assert(cells[row * width + c] == before[row * width + c]);
                                }
                            }
                            assert forall|i: int| 0 <= i < cells.len() implies {
                                &&& !(#[trigger] cells[i]).visited
                                &&& !cells[i].on_route
                                &&& cells[i].nodes@ == seq![None::<usize>, None, None, None]
                            } by {
                                if i < before.len() {
                                    assert(cells[i] == before[i]);
                                }
                            }
                        }
                    },
                    None => {
                        proof {
                            assert forall|w: nat, h: nat, k: Seq<MazeCellType>|
                                !reads_as(t, w, h, k) by {
                                if reads_as(t, w, h, k) {
                                    lemma_reads_shape(
                                        t,
                                        width as nat,
                                        height as nat,
                                        body as int,
                                        w,
                                        h,
                                        k,
                                    );
                                    let j = row * line + column;
                                    lemma_position_of(line as int, column as int, row as int);
                                    let grid = cells_text(w as int, h as int, k);
                                    assert(t[body + j] == grid[j]);
                                    lemma_glyph_roundtrip(k[row * width + column]);
                                }
                            }
                        }
                        return Err(parse_error("Maze file holds an unknown character"));
                    },
                }
                column += 1;
            }
            let at: usize = body + row * line + width;
            if chars[at] != '\n' {
                proof {
                    assert forall|w: nat, h: nat, k: Seq<MazeCellType>|
                        !reads_as(t, w, h, k) by {
                        if reads_as(t, w, h, k) {
                            lemma_reads_shape(t, width as nat, height as nat, body as int, w, h, k);
                            let j = row * line + width;
                            lemma_position_of(line as int, width as int, row as int);
                            let grid = cells_text(w as int, h as int, k);
                            assert(t[body + j] == grid[j]);
                        }
                    }
                }
                return Err(parse_error("Maze file holds a row of the wrong length"));
            }
            proof {
                assert((row + 1) * width == row * width + width) by (nonlinear_arith);
                assert forall|r: int, c: int|
                    0 <= r < row + 1 && 0 <= c < width implies #[trigger] char_at(
                    t,
                    body as int,
                    line as int,
                    r,
                    c,
                ) == cells[r * width + c].celltype.spec_glyph() by {
                    if r == row {
                    }
                }
            }
            row += 1;
        }
        let start: usize = first_of_kind(&cells, MazeCellType::Start);
        let end: usize = first_of_kind(&cells, MazeCellType::End);
        let maze = Maze { dimensions, cells, start, end, graph_created: false };
        proof {
            assert(maze@.len() == maze.cells.len()) by (nonlinear_arith)
                requires
                    maze.cells.len() == height * width,
                    maze@.len() == width * height,
            ;
            assert forall|i: int| 0 <= i < maze@.len() implies (#[trigger] maze@.links[i]).len()
                == 4 by {
                assert(maze.cells[i].nodes@ == seq![None::<usize>, None, None, None]);
            }
            assert forall|i: int, d: int| 0 <= i < maze@.len() && 0 <= d < 4 implies crate::maze::link_in_range(
                #[trigger] maze@.links[i][d],
                maze@.len(),
            ) by {
                assert(maze.cells[i].nodes@ == seq![None::<usize>, None, None, None]);
            }
            assert forall|i: int| 0 <= i < maze@.links.len() implies #[trigger] maze@.links[i]
                == seq![None::<usize>, None, None, None] by {
                assert(maze.cells[i].nodes@ == seq![None::<usize>, None, None, None]);
            }
            assert forall|i: int| 0 <= i < maze@.visited.len() implies !maze@.visited[i] by {
                assert(!maze.cells[i].visited);
            }
            assert forall|i: int| 0 <= i < maze@.on_route.len() implies !maze@.on_route[i] by {
                assert(!maze.cells[i].on_route);
            }
            assert(maze@.kinds =~= Seq::new(
                maze.cells.len() as nat,
                |i: int| maze.cells[i].celltype,
            ));
            assert forall|r: int, c: int| 0 <= r < height && 0 <= c < width implies #[trigger] char_at(
                t,
                body as int,
                line as int,
                r,
                c,
            ) == maze@.kinds[r * width + c].spec_glyph() by {
                assert(0 <= r * width + c < height * width) by (nonlinear_arith)
                    requires
                        0 <= r < height,
                        0 <= c < width,
                ;
            }
            lemma_reads_assembled(t, width as nat, height as nat, maze@.kinds, body as int);
        }
        Ok(maze)
    }
}

/// The first cell of the given kind, or 0 where there is none.
pub fn first_of_kind(cells: &Vec<MazeCell>, kind: MazeCellType) -> (position: usize)
    ensures
        marks_first(
            Seq::new(cells.len() as nat, |i: int| cells[i].celltype),
            kind,
            position as int,
        ),
{
    let ghost kinds = Seq::new(cells.len() as nat, |i: int| cells[i].celltype);
    let mut i: usize = 0;
    while i < cells.len()
        invariant
            i <= cells.len(),
            kinds == Seq::new(cells.len() as nat, |i: int| cells[i].celltype),
            forall|j: int| 0 <= j < i ==> kinds[j] != kind,
        decreases cells.len() - i,
    {
        if cells[i].celltype == kind {
            assert(kinds[i as int] == kind);
            return i;
        }
        i += 1;
    }
    0
}

/// A text whose header and lines have been checked piece by piece is the
/// text form of the grid that was read from it.
pub proof fn lemma_text_assembled(
    text: Seq<char>,
    width: nat,
    height: nat,
    kinds: Seq<MazeCellType>,
    body: int,
)
    requires
        0 <= body,
        text.len() == body + height * (width + 1),
        text.subrange(0, body) == header_text(width, height),
        kinds.len() == width * height,
        forall|r: int, c: int|
            0 <= r < height && 0 <= c < width ==> #[trigger] char_at(
                text,
                body,
                width as int + 1,
                r,
                c,
            ) == kinds[r * width + c].spec_glyph(),
        forall|r: int|
            0 <= r < height ==> #[trigger] char_at(text, body, width as int + 1, r, width as int)
                == '\n',
    ensures
        text == text_of(width, height, kinds),
{
    let expected = text_of(width, height, kinds);
    let header = header_text(width, height);
    let grid = cells_text(width as int, height as int, kinds);
    let line = width as int + 1;
    assert(height * (width + 1) >= 0) by (nonlinear_arith)
        requires
            height >= 0,
            width >= 0,
    ;
    assert(header.len() == body);
    assert(expected.len() == text.len());
    assert forall|i: int| 0 <= i < text.len() implies text[i] == expected[i] by {
        if i < body {
            assert(text.subrange(0, body)[i] == text[i]);
        } else {
            let j = i - body;
            assert(expected[i] == grid[j]);
            assert(line * height == height * (width + 1)) by (nonlinear_arith)
                requires
                    line == width + 1,
            ;
            lemma_row_in_grid(line, height as int, j);
            let r = j / line;
            let c = j % line;
            if c == width {
                assert(char_at(text, body, line, r, width as int) == '\n');
            } else {
                assert(char_at(text, body, line, r, c) == kinds[r * width + c].spec_glyph());
            }
        }
    }
    assert(text =~= expected);
}

/// What a text that can be read as a grid holds after its header line:
/// the rows of the grid, and nothing else.
pub proof fn lemma_reads_shape(
    text: Seq<char>,
    width: nat,
    height: nat,
    body: int,
    w: nat,
    h: nat,
    k: Seq<MazeCellType>,
)
    requires
        header_at(text, width, height, body),
        reads_as(text, w, h, k),
    ensures
        w == width,
        h == height,
        MAZE_DIMENSION_MIN <= w <= MAZE_DIMENSION_MAX,
        MAZE_DIMENSION_MIN <= h <= MAZE_DIMENSION_MAX,
        k.len() == w * h,
        0 <= body <= text.len(),
        text.len() == body + h * (w + 1),
        forall|j: int|
            0 <= j < h * (w + 1) ==> text[body + j] == (#[trigger] cells_text(
                w as int,
                h as int,
                k,
            )[j]),
{
    let b = choose|b: int| #[trigger]
        header_at(text, w, h, b) && 0 <= b <= text.len() && describes(
            header_text(w, h) + text.subrange(b, text.len() as int),
            w,
            h,
            k,
        );
    lemma_header_once(text, width, height, body, w, h, b);
    let rest = text.subrange(body, text.len() as int);
    let canon = header_text(w, h) + rest;
    let lead = 7 + numeral_len(w) + numeral_len(h);
    lemma_text_shape(canon, w, h, k);
    lemma_decimal(w);
    lemma_decimal(h);
    assert(header_text(w, h).len() == lead);
    assert(canon.len() == lead + rest.len());
    assert forall|j: int| 0 <= j < h * (w + 1) implies text[body + j] == (#[trigger] cells_text(
        w as int,
        h as int,
        k,
    )[j]) by {
        assert(canon[lead + j] == rest[j]);
        assert(rest[j] == text[body + j]);
    }
}

/// A text that begins with a header line, with the rows of a grid of the
/// size that the header line gives after it, can be read as that grid.
pub proof fn lemma_reads_assembled(
    text: Seq<char>,
    width: nat,
    height: nat,
    kinds: Seq<MazeCellType>,
    body: int,
)
    requires
        header_at(text, width, height, body),
        0 <= body,
        text.len() == body + height * (width + 1),
        kinds.len() == width * height,
        forall|r: int, c: int|
            0 <= r < height && 0 <= c < width ==> #[trigger] char_at(
                text,
                body,
                width as int + 1,
                r,
                c,
            ) == kinds[r * width + c].spec_glyph(),
        forall|r: int|
            0 <= r < height ==> #[trigger] char_at(text, body, width as int + 1, r, width as int)
                == '\n',
    ensures
        reads_as(text, width, height, kinds),
{
    let rest = text.subrange(body, text.len() as int);
    let header = header_text(width, height);
    let canon = header + rest;
    let lead = header.len() as int;
    let line = width as int + 1;
    assert(height * (width + 1) >= 0) by (nonlinear_arith)
        requires
            height >= 0,
            width >= 0,
    ;
    assert(canon.subrange(0, lead) =~= header);
    assert forall|r: int, c: int| 0 <= r < height && 0 <= c <= width implies char_at(
        canon,
        lead,
        line,
        r,
        c,
    ) == char_at(text, body, line, r, c) by {
        lemma_line_bounds(width as int, height as int, r);
        assert(0 <= r * line + c < height * (width + 1)) by (nonlinear_arith)
            requires
                0 <= r < height,
                0 <= c <= width,
                line == width + 1,
        ;
        assert(canon[lead + (r * line + c)] == rest[r * line + c]);
        assert(rest[r * line + c] == text[body + (r * line + c)]);
    }
    assert forall|r: int, c: int| 0 <= r < height && 0 <= c < width implies #[trigger] char_at(
        canon,
        lead,
        line,
        r,
        c,
    ) == kinds[r * width + c].spec_glyph() by {
        assert(char_at(canon, lead, line, r, c) == char_at(text, body, line, r, c));
    }
    assert forall|r: int| 0 <= r < height implies #[trigger] char_at(
        canon,
        lead,
        line,
        r,
        width as int,
    ) == '\n' by {
        assert(char_at(canon, lead, line, r, width as int) == char_at(
            text,
            body,
            line,
            r,
            width as int,
        ));
    }
    lemma_text_assembled(canon, width, height, kinds, lead);
    let (a1, b1) = choose|a: int, b: int| header_parts(text, width, height, a, b, body);
    assert(describes(canon, width, height, kinds));
}

/// The text form of a grid of valid size can be read as that grid.
pub proof fn lemma_reads_own_text(
    text: Seq<char>,
    width: nat,
    height: nat,
    kinds: Seq<MazeCellType>,
)
    requires
        describes(text, width, height, kinds),
    ensures
        reads_as(text, width, height, kinds),
{
    let body = 7 + numeral_len(width) + numeral_len(height);
    lemma_describes_header(text, width, height, kinds);
    assert(height * (width + 1) >= 0) by (nonlinear_arith)
        requires
            height >= 0,
            width >= 0,
    ;
    assert(header_text(width, height) + text.subrange(body, text.len() as int) =~= text);
}

/// A text can be read as one grid at most; and the text that was written
/// for a maze of valid size can be read as the grid of that maze. So
/// reading the text that was written for a maze gives a maze of the same
/// size with the same kind in every cell.
pub proof fn lemma_text_roundtrip(written: MazeView, read: MazeView)
    requires
        written.wf(),
        read.wf(),
        MAZE_DIMENSION_MIN <= written.width <= MAZE_DIMENSION_MAX,
        MAZE_DIMENSION_MIN <= written.height <= MAZE_DIMENSION_MAX,
        reads_as(written.text(), read.width as nat, read.height as nat, read.kinds),
    ensures
        describes(
            written.text(),
            written.width as nat,
            written.height as nat,
            written.kinds,
        ),
        reads_as(written.text(), written.width as nat, written.height as nat, written.kinds),
        read.width == written.width,
        read.height == written.height,
        read.kinds == written.kinds,
{
    let text = written.text();
    let wa = written.width as nat;
    let ha = written.height as nat;
    let wb = read.width as nat;
    let hb = read.height as nat;
    let body = 7 + numeral_len(wa) + numeral_len(ha);
    lemma_reads_own_text(text, wa, ha, written.kinds);
    lemma_describes_header(text, wa, ha, written.kinds);
    lemma_reads_shape(text, wa, ha, body, wb, hb, read.kinds);
    lemma_text_shape(text, wa, ha, written.kinds);
    let line = wa as int + 1;
    assert(written.kinds.len() == read.kinds.len());
    assert forall|i: int| 0 <= i < written.kinds.len() implies written.kinds[i]
        == read.kinds[i] by {
        lemma_row_in_grid(wa as int, ha as int, i);
        let r = i / (wa as int);
        let c = i % (wa as int);
        lemma_line_bounds(wa as int, ha as int, r);
        lemma_position_of(line, c, r);
        let j = c + r * line;
        assert(0 <= j < ha * (wa + 1)) by (nonlinear_arith)
            requires
                j == c + r * line,
                line == wa + 1,
                0 <= c < wa,
                0 <= r < ha,
        ;
        assert(text[body + j] == cells_text(wa as int, ha as int, written.kinds)[j]);
        assert(text[body + j] == cells_text(wb as int, hb as int, read.kinds)[j]);
        assert(r * wa + c == i) by (nonlinear_arith)
            requires
                i == c + r * wa,
        ;
        lemma_glyph_roundtrip(written.kinds[i]);
        lemma_glyph_roundtrip(read.kinds[i]);
    }
    assert(read.kinds =~= written.kinds);
}

/// `text` is a numeral of a side of a maze: one digit or more, with or
/// without a plus sign before them, that stand for a number within the
/// accepted bounds.
pub open spec fn is_side(text: Seq<char>, side: nat) -> bool {
    &&& is_numeral(text)
    &&& numeral_value(text) == side
    &&& MAZE_DIMENSION_MIN <= side <= MAZE_DIMENSION_MAX
}

/// Reads a side of a maze from an argument of the command line.
pub fn parse_side(text: &str) -> (r: Option<usize>)
    ensures
        match r {
            Some(side) => is_side(text@, side as nat),
            None => forall|side: nat| !is_side(text@, side),
        },
{
    let chars = chars_of(text);
    let ghost t = chars@;
    proof {
        assert(t.subrange(0, t.len() as int) =~= t);
        assert forall|side: nat| is_side(t, side) implies number_at(t, 0, side, t.len() as int) by {}
    }
    match read_number(&chars, 0) {
        Some((side, end)) => {
            if end == chars.len() && side >= MAZE_DIMENSION_MIN {
                Some(side)
            } else {
                None
            }
        },
        None => None,
    }
}

impl Dimensions {
    /// The dimensions that the arguments of the command line ask for: each
    /// side as given, or the default side where none is given. A side is
    /// given as a numeral, with or without a plus sign and leading zeros.
    /// Fails with `InvalidDimensions` when a side that is given is no
    /// numeral of a number within the accepted bounds.
    pub fn from_arguments(width: Option<&str>, height: Option<&str>) -> (r: Result<
        Dimensions,
        AppError,
    >)
        ensures
            match r {
                Ok(d) => {
                    &&& d.valid()
                    &&& match width {
                        Some(text) => is_side(text@, d.width as nat),
                        None => d.width == crate::maze::MAZE_DIMENSION_DEFAULT,
                    }
                    &&& match height {
                        Some(text) => is_side(text@, d.height as nat),
                        None => d.height == crate::maze::MAZE_DIMENSION_DEFAULT,
                    }
                },
                Err(e) => {
                    &&& e.kind == ErrorKind::InvalidDimensions
                    &&& (width matches Some(text) && forall|side: nat| !is_side(text@, side))
                        || (height matches Some(text) && forall|side: nat| !is_side(text@, side))
                },
            },
    {
        let w: usize = match width {
            Some(text) => match parse_side(text) {
                Some(side) => side,
                None => {
                    return Err(
                        AppError::with_kind(ErrorKind::InvalidDimensions, "Invalid maze width"),
                    );
                },
            },
            None => crate::maze::MAZE_DIMENSION_DEFAULT,
        };
        let h: usize = match height {
            Some(text) => match parse_side(text) {
                Some(side) => side,
                None => {
                    return Err(
                        AppError::with_kind(ErrorKind::InvalidDimensions, "Invalid maze height"),
                    );
                },
            },
            None => crate::maze::MAZE_DIMENSION_DEFAULT,
        };
        Ok(Dimensions { width: w, height: h })
    }
}

} // verus!
