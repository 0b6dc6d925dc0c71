//! A word search: how often `XMAS` is written in a grid of letters, in any of
//! eight directions, and how often two `MAS` cross at their `A`.

use vstd::prelude::*;
use crate::text::bytes_of;
use crate::text::lines;
use crate::text::lines_of;
use crate::text::rows;

verus! {

/// A place in the grid, or beside it.
#[derive(Copy, Clone, Debug, PartialEq, Eq, Structural)]
pub struct Coord {
    pub col: isize,
    pub row: isize,
}

/// The question whether `value` stands at `coord`.
#[derive(Copy, Clone, Debug, PartialEq, Eq, Structural)]
pub struct Query {
    pub coord: Coord,
    pub value: u8,
}

/// A grid of letters, every row as long as the first.
pub struct Puzzle {
    num_rows: usize,
    num_cols: usize,
    lines: Vec<Vec<u8>>,
}

impl Coord {
    pub fn from(col: isize, row: isize) -> (coord: Coord)
        ensures
            coord == (Coord { col, row }),
    {
        Coord { col, row }
    }
}

impl Query {
    pub fn from(coord: &Coord, value: u8) -> (query: Query)
        ensures
            query == (Query { coord: *coord, value }),
    {
        Query { coord: *coord, value }
    }
}

/// The letter at `coord`, where the grid has that place.
pub open spec fn letter_at(grid: Seq<Seq<u8>>, coord: Coord) -> Option<u8> {
    if 0 <= coord.row < grid.len() && 0 <= coord.col < grid[coord.row as int].len() {
        Some(grid[coord.row as int][coord.col as int])
    } else {
        None
    }
}

/// `query` is answered with yes.
pub open spec fn holds(grid: Seq<Seq<u8>>, query: Query) -> bool {
    letter_at(grid, query.coord) == Some(query.value)
}

/// Every one of `queries` is answered with yes.
pub open spec fn all_hold(grid: Seq<Seq<u8>>, queries: Seq<Query>) -> bool {
    forall|i: int| 0 <= i < queries.len() ==> holds(grid, #[trigger] queries[i])
}

/// The word that is searched.
pub open spec fn needle() -> Seq<u8> {
    seq![88u8, 77u8, 65u8, 83u8]
}

/// The four questions whether the word is written from `base` on, each
/// letter `step` further than the one before.
pub open spec fn word_queries(base: Coord, step: Coord) -> Seq<Query> {
    Seq::new(
        4,
        |i: int|
            Query {
                coord: Coord {
                    col: (base.col + i * step.col) as isize,
                    row: (base.row + i * step.row) as isize,
                },
                value: needle()[i],
            },
    )
}

/// Whether the word is written from `base` on in the direction `step`, as a
/// number.
pub open spec fn written(grid: Seq<Seq<u8>>, base: Coord, step: Coord) -> nat {
    if all_hold(grid, word_queries(base, step)) {
        1
    } else {
        0
    }
}

/// In how many of the eight directions the word is written from `base` on.
pub open spec fn written_from(grid: Seq<Seq<u8>>, base: Coord) -> nat {
    written(grid, base, Coord { col: 1, row: 0 }) + written(grid, base, Coord { col: -1isize, row: 0 })
        + written(grid, base, Coord { col: 0, row: -1isize }) + written(
        grid,
        base,
        Coord { col: 0, row: 1 },
    ) + written(grid, base, Coord { col: 1, row: -1isize }) + written(
        grid,
        base,
        Coord { col: 1, row: 1 },
    ) + written(grid, base, Coord { col: -1isize, row: -1isize }) + written(
        grid,
        base,
        Coord { col: -1isize, row: 1 },
    )
}

/// `MAS` is written, forward or backward, on the diagonal through `base`
/// that falls to the right.
pub open spec fn pos_diag(grid: Seq<Seq<u8>>, base: Coord) -> bool {
    let before = letter_at(grid, Coord { col: (base.col - 1) as isize, row: (base.row - 1) as isize });
    let after = letter_at(grid, Coord { col: (base.col + 1) as isize, row: (base.row + 1) as isize });
    letter_at(grid, base) == Some(65u8) && ((before == Some(77u8) && after == Some(83u8)) || (before
        == Some(83u8) && after == Some(77u8)))
}

/// `MAS` is written, forward or backward, on the diagonal through `base`
/// that rises to the right.
pub open spec fn neg_diag(grid: Seq<Seq<u8>>, base: Coord) -> bool {
    let before = letter_at(grid, Coord { col: (base.col - 1) as isize, row: (base.row + 1) as isize });
    let after = letter_at(grid, Coord { col: (base.col + 1) as isize, row: (base.row - 1) as isize });
    letter_at(grid, base) == Some(65u8) && ((before == Some(77u8) && after == Some(83u8)) || (before
        == Some(83u8) && after == Some(77u8)))
}

/// Whether two `MAS` cross at `base`, as a number.
pub open spec fn crossed(grid: Seq<Seq<u8>>, base: Coord) -> nat {
    if neg_diag(grid, base) && pos_diag(grid, base) {
        1
    } else {
        0
    }
}

/// What is counted at `base`: the word, or the cross.
pub open spec fn counted(grid: Seq<Seq<u8>>, base: Coord, crosses: bool) -> nat {
    if crosses {
        crossed(grid, base)
    } else {
        written_from(grid, base)
    }
}

/// What is counted in the first `done` rows of column `col`.
pub open spec fn counted_in_col(grid: Seq<Seq<u8>>, col: int, done: nat, crosses: bool) -> nat
    decreases done,
{
    if done == 0 {
        0
    } else {
        counted_in_col(grid, col, (done - 1) as nat, crosses) + counted(
            grid,
            Coord { col: col as isize, row: (done - 1) as isize },
            crosses,
        )
    }
}

/// What is counted in the first `done` columns of a grid of `rows` rows.
pub open spec fn counted_in_cols(grid: Seq<Seq<u8>>, rows: nat, done: nat, crosses: bool) -> nat
    decreases done,
{
    if done == 0 {
        0
    } else {
        counted_in_cols(grid, rows, (done - 1) as nat, crosses) + counted_in_col(
            grid,
            done - 1,
            rows,
            crosses,
        )
    }
}

proof fn lemma_counted_in_col_bound(grid: Seq<Seq<u8>>, col: int, done: nat, crosses: bool)
    ensures
        counted_in_col(grid, col, done, crosses) <= 8 * done,
    decreases done,
{
    if done > 0 {
        lemma_counted_in_col_bound(grid, col, (done - 1) as nat, crosses);
    }
}

proof fn lemma_counted_in_cols_bound(grid: Seq<Seq<u8>>, rows: nat, done: nat, crosses: bool)
    ensures
        counted_in_cols(grid, rows, done, crosses) <= 8 * rows * done,
    decreases done,
{
    if done > 0 {
        lemma_counted_in_cols_bound(grid, rows, (done - 1) as nat, crosses);
        lemma_counted_in_col_bound(grid, done - 1, rows, crosses);
        assert(8 * rows * (done - 1) + 8 * rows == 8 * rows * done) by (nonlinear_arith);
    }
}

/// The grid that `lines` write: `None` where there is no line, the first
/// line is empty, a line is not as long as the first, or the grid has more
/// rows or columns than can be counted with room for three steps beyond.
pub open spec fn grid_of(lines: Seq<Seq<u8>>) -> Option<Seq<Seq<u8>>> {
    if lines.len() > 0 && lines[0].len() > 0 && lines.len() <= isize::MAX - 4 && lines[0].len()
        <= isize::MAX - 4 && (forall|i: int|
        0 <= i < lines.len() ==> (#[trigger] lines[i]).len() == lines[0].len()) {
        Some(lines)
    } else {
        None
    }
}

impl Puzzle {
    /// The letters, row by row.
    pub closed spec fn grid(&self) -> Seq<Seq<u8>> {
        rows(self.lines@)
    }

    pub closed spec fn rows(&self) -> nat {
        self.num_rows as nat
    }

    pub closed spec fn cols(&self) -> nat {
        self.num_cols as nat
    }

    #[verifier::type_invariant]
    closed spec fn wf(&self) -> bool {
        &&& self.num_rows == self.lines.len()
        &&& 0 < self.num_rows <= isize::MAX - 4
        &&& 0 < self.num_cols <= isize::MAX - 4
        &&& forall|i: int| 0 <= i < self.lines.len() ==> (#[trigger] self.lines[i]).len() == self.num_cols
    }

    pub fn from(input: &str) -> (puzzle: Option<Puzzle>)
        ensures
            match puzzle {
                Some(read) => {
                    &&& grid_of(lines_of(bytes_of(input@))) == Some(read.grid())
                    &&& read.rows() == read.grid().len()
                    &&& read.cols() == read.grid()[0].len()
                },
                None => grid_of(lines_of(bytes_of(input@))).is_none(),
            },
    {
        let found = lines(input.as_bytes());
        let num_rows = found.len();
        if num_rows == 0 || num_rows > isize::MAX as usize - 4 {
            return None;
        }
        let num_cols = found[0].len();
        if num_cols == 0 || num_cols > isize::MAX as usize - 4 {
            return None;
        }
        let mut i: usize = 0;
        while i < found.len()
            invariant
                i <= found.len(),
                num_cols == found[0].len(),
                rows(found@) == lines_of(bytes_of(input@)),
                forall|j: int| 0 <= j < i ==> (#[trigger] found[j]).len() == num_cols,
            decreases found.len() - i,
        {
            if found[i].len() != num_cols {
                assert(rows(found@)[i as int].len() != rows(found@)[0].len());
                return None;
            }
            i += 1;
        }
        assert forall|j: int| 0 <= j < rows(found@).len() implies (#[trigger] rows(
            found@,
        )[j]).len() == rows(found@)[0].len() by {
            assert(found[j].len() == num_cols);
        }
        Some(Puzzle { num_rows, num_cols, lines: found })
    }

    pub fn _in_bounds(&self, coord: &Coord) -> (inside: bool)
        ensures
            inside == letter_at(self.grid(), *coord).is_some(),
            inside == (0 <= coord.col < self.cols() && 0 <= coord.row < self.rows()),
    {
        proof {
            use_type_invariant(self);
        }
        let num_cols = self.num_cols as isize;
        let num_rows = self.num_rows as isize;
        let inside = coord.col >= 0 && coord.col < num_cols && coord.row >= 0 && coord.row
            < num_rows;
        proof {
            if inside {
                assert(self.lines[coord.row as int].len() == self.num_cols);
            }
        }
        inside
    }

    pub fn at(&self, coord: &Coord) -> (letter: Option<u8>)
        ensures
            letter == letter_at(self.grid(), *coord),
    {
        proof {
            use_type_invariant(self);
        }
        if self._in_bounds(coord) {
            let col = coord.col as usize;
            let row = coord.row as usize;
            assert(self.lines[row as int].len() == self.num_cols);
            Some(self.lines[row][col])
        } else {
            None
        }
    }

    pub fn find(&self, query: &Query) -> (found: bool)
        ensures
            found == holds(self.grid(), *query),
    {
        match self.at(&query.coord) {
            Some(c) => c == query.value,
            None => false,
        }
    }

    pub fn find_all(&self, queries: &Vec<Query>) -> (found: bool)
        ensures
            found == all_hold(self.grid(), queries@),
    {
        let mut i: usize = 0;
        while i < queries.len()
            invariant
                i <= queries.len(),
                forall|j: int| 0 <= j < i ==> holds(self.grid(), #[trigger] queries[j]),
            decreases queries.len() - i,
        {
            if !self.find(&queries[i]) {
                return false;
            }
            i += 1;
        }
        true
    }

    pub fn num_rows(&self) -> (n: usize)
        ensures
            n == self.rows(),
            0 < n <= isize::MAX - 4,
    {
        proof {
            use_type_invariant(self);
        }
        self.num_rows
    }

    pub fn num_cols(&self) -> (n: usize)
        ensures
            n == self.cols(),
            0 < n <= isize::MAX - 4,
    {
        proof {
            use_type_invariant(self);
        }
        self.num_cols
    }
}

/// The four questions whether the word is written from `base` on, each
/// letter `step` further than the one before.
pub fn build_queries(base: &Coord, step: &Coord) -> (queries: Vec<Query>)
    requires
        -1 <= step.col <= 1,
        -1 <= step.row <= 1,
        0 <= base.col <= isize::MAX - 4,
        0 <= base.row <= isize::MAX - 4,
    ensures
        queries@ == word_queries(*base, *step),
{
    let mut queries: Vec<Query> = Vec::new();
    queries.push(Query { coord: *base, value: 88 });
    queries.push(
        Query { coord: Coord { col: base.col + step.col, row: base.row + step.row }, value: 77 },
    );
    queries.push(
        Query {
            coord: Coord { col: base.col + 2 * step.col, row: base.row + 2 * step.row },
            value: 65,
        },
    );
    queries.push(
        Query {
            coord: Coord { col: base.col + 3 * step.col, row: base.row + 3 * step.row },
            value: 83,
        },
    );
    proof {
        let want = word_queries(*base, *step);
        assert(needle()[0] == 88 && needle()[1] == 77 && needle()[2] == 65 && needle()[3] == 83);
        assert(0 * step.col == 0 && 0 * step.row == 0);
        assert(1 * step.col == step.col && 1 * step.row == step.row);
        assert(want[0] == queries@[0]);
        assert(want[1] == queries@[1]);
        assert(want[2] == queries@[2]);
        assert(want[3] == queries@[3]);
        assert(queries@ =~= want);
    }
    queries
}

/// Whether the word is written from `base` on in the direction `step`, as a
/// number.
pub fn count_direction(puzzle: &Puzzle, base: &Coord, step: &Coord) -> (count: usize)
    requires
        -1 <= step.col <= 1,
        -1 <= step.row <= 1,
        0 <= base.col <= isize::MAX - 4,
        0 <= base.row <= isize::MAX - 4,
    ensures
        count == written(puzzle.grid(), *base, *step),
{
    let queries = build_queries(base, step);
    if puzzle.find_all(&queries) {
        1
    } else {
        0
    }
}

pub fn count_forward(puzzle: &Puzzle, base: &Coord) -> (count: usize)
    requires
        0 <= base.col <= isize::MAX - 4,
        0 <= base.row <= isize::MAX - 4,
    ensures
        count == written(puzzle.grid(), *base, Coord { col: 1, row: 0 }),
{
    count_direction(puzzle, base, &Coord { col: 1, row: 0 })
}

pub fn count_backward(puzzle: &Puzzle, base: &Coord) -> (count: usize)
    requires
        0 <= base.col <= isize::MAX - 4,
        0 <= base.row <= isize::MAX - 4,
    ensures
        count == written(puzzle.grid(), *base, Coord { col: -1isize, row: 0 }),
{
    count_direction(puzzle, base, &Coord { col: -1isize, row: 0 })
}

pub fn count_up(puzzle: &Puzzle, base: &Coord) -> (count: usize)
    requires
        0 <= base.col <= isize::MAX - 4,
        0 <= base.row <= isize::MAX - 4,
    ensures
        count == written(puzzle.grid(), *base, Coord { col: 0, row: -1isize }),
{
    count_direction(puzzle, base, &Coord { col: 0, row: -1isize })
}

pub fn count_down(puzzle: &Puzzle, base: &Coord) -> (count: usize)
    requires
        0 <= base.col <= isize::MAX - 4,
        0 <= base.row <= isize::MAX - 4,
    ensures
        count == written(puzzle.grid(), *base, Coord { col: 0, row: 1 }),
{
    count_direction(puzzle, base, &Coord { col: 0, row: 1 })
}

pub fn count_forward_up(puzzle: &Puzzle, base: &Coord) -> (count: usize)
    requires
        0 <= base.col <= isize::MAX - 4,
        0 <= base.row <= isize::MAX - 4,
    ensures
        count == written(puzzle.grid(), *base, Coord { col: 1, row: -1isize }),
{
    count_direction(puzzle, base, &Coord { col: 1, row: -1isize })
}

pub fn count_forward_down(puzzle: &Puzzle, base: &Coord) -> (count: usize)
    requires
        0 <= base.col <= isize::MAX - 4,
        0 <= base.row <= isize::MAX - 4,
    ensures
        count == written(puzzle.grid(), *base, Coord { col: 1, row: 1 }),
{
    count_direction(puzzle, base, &Coord { col: 1, row: 1 })
}

pub fn count_backward_up(puzzle: &Puzzle, base: &Coord) -> (count: usize)
    requires
        0 <= base.col <= isize::MAX - 4,
        0 <= base.row <= isize::MAX - 4,
    ensures
        count == written(puzzle.grid(), *base, Coord { col: -1isize, row: -1isize }),
{
    count_direction(puzzle, base, &Coord { col: -1isize, row: -1isize })
}

pub fn count_backward_down(puzzle: &Puzzle, base: &Coord) -> (count: usize)
    requires
        0 <= base.col <= isize::MAX - 4,
        0 <= base.row <= isize::MAX - 4,
    ensures
        count == written(puzzle.grid(), *base, Coord { col: -1isize, row: 1 }),
{
    count_direction(puzzle, base, &Coord { col: -1isize, row: 1 })
}

/// Whether every question of one of `query_groups` is answered with yes.
pub fn find_any_query_group(puzzle: &Puzzle, query_groups: &Vec<Vec<Query>>) -> (found: bool)
    ensures
        found == exists|g: int|
            0 <= g < query_groups.len() && all_hold(puzzle.grid(), (#[trigger] query_groups[g])@),
{
    let mut g: usize = 0;
    while g < query_groups.len()
        invariant
            g <= query_groups.len(),
            forall|k: int| 0 <= k < g ==> !all_hold(puzzle.grid(), (#[trigger] query_groups[k])@),
        decreases query_groups.len() - g,
    {
        if puzzle.find_all(&query_groups[g]) {
            return true;
        }
        g += 1;
    }
    false
}

/// The three questions whether `first`, `A`, `last` stand on the diagonal
/// through `base` that has `first` at the row `rise` away.
fn diag_queries(base: &Coord, rise: isize, first: u8, last: u8) -> (queries: Vec<Query>)
    requires
        -1 <= rise <= 1,
        0 <= base.col <= isize::MAX - 4,
        0 <= base.row <= isize::MAX - 4,
    ensures
        queries@ == seq![
            Query {
                coord: Coord { col: (base.col - 1) as isize, row: (base.row + rise) as isize },
                value: first,
            },
            Query { coord: *base, value: 65u8 },
            Query {
                coord: Coord { col: (base.col + 1) as isize, row: (base.row - rise) as isize },
                value: last,
            },
        ],
{
    let mut queries: Vec<Query> = Vec::new();
    queries.push(Query { coord: Coord { col: base.col - 1, row: base.row + rise }, value: first });
    queries.push(Query { coord: *base, value: 65 });
    queries.push(Query { coord: Coord { col: base.col + 1, row: base.row - rise }, value: last });
    queries
}

pub fn has_pos_diag(puzzle: &Puzzle, base: &Coord) -> (found: bool)
    requires
        0 <= base.col <= isize::MAX - 4,
        0 <= base.row <= isize::MAX - 4,
    ensures
        found == pos_diag(puzzle.grid(), *base),
{
    let mut groups: Vec<Vec<Query>> = Vec::new();
    groups.push(diag_queries(base, -1, 77, 83));
    groups.push(diag_queries(base, -1, 83, 77));
    let found = find_any_query_group(puzzle, &groups);
    proof {
        let grid = puzzle.grid();
        let forward = groups[0]@;
        let backward = groups[1]@;
        assert(all_hold(grid, forward) == (holds(grid, forward[0]) && holds(grid, forward[1])
            && holds(grid, forward[2])));
        assert(all_hold(grid, backward) == (holds(grid, backward[0]) && holds(grid, backward[1])
            && holds(grid, backward[2])));
    }
    found
}

pub fn has_neg_diag(puzzle: &Puzzle, base: &Coord) -> (found: bool)
    requires
        0 <= base.col <= isize::MAX - 4,
        0 <= base.row <= isize::MAX - 4,
    ensures
        found == neg_diag(puzzle.grid(), *base),
{
    let mut groups: Vec<Vec<Query>> = Vec::new();
    groups.push(diag_queries(base, 1, 77, 83));
    groups.push(diag_queries(base, 1, 83, 77));
    let found = find_any_query_group(puzzle, &groups);
    proof {
        let grid = puzzle.grid();
        let forward = groups[0]@;
        let backward = groups[1]@;
        assert(all_hold(grid, forward) == (holds(grid, forward[0]) && holds(grid, forward[1])
            && holds(grid, forward[2])));
        assert(all_hold(grid, backward) == (holds(grid, backward[0]) && holds(grid, backward[1])
            && holds(grid, backward[2])));
    }
    found
}

/// What is counted at `base`: the word in its eight directions, or the
/// cross.
fn count_at(puzzle: &Puzzle, base: &Coord, crosses: bool) -> (count: usize)
    requires
        0 <= base.col <= isize::MAX - 4,
        0 <= base.row <= isize::MAX - 4,
    ensures
        count == counted(puzzle.grid(), *base, crosses),
        count <= 8,
{
    if crosses {
        if has_neg_diag(puzzle, base) && has_pos_diag(puzzle, base) {
            1
        } else {
            0
        }
    } else {
        count_forward(puzzle, base) + count_backward(puzzle, base) + count_up(puzzle, base)
            + count_down(puzzle, base) + count_forward_up(puzzle, base) + count_forward_down(
            puzzle,
            base,
        ) + count_backward_up(puzzle, base) + count_backward_down(puzzle, base)
    }
}

fn count_grid(puzzle: &Puzzle, crosses: bool) -> (count: usize)
    requires
        8 * puzzle.rows() * puzzle.cols() <= usize::MAX,
    ensures
        count == counted_in_cols(puzzle.grid(), puzzle.rows(), puzzle.cols(), crosses),
{
    let num_cols = puzzle.num_cols();
    let num_rows = puzzle.num_rows();
    let ghost grid = puzzle.grid();
    let mut count: usize = 0;
    let mut col: usize = 0;
    while col < num_cols
        invariant
            col <= num_cols,
            num_cols == puzzle.cols(),
            num_rows == puzzle.rows(),
            num_cols <= isize::MAX - 4,
            num_rows <= isize::MAX - 4,
            grid == puzzle.grid(),
            8 * num_rows * num_cols <= usize::MAX,
            count == counted_in_cols(grid, num_rows as nat, col as nat, crosses),
        decreases num_cols - col,
    {
        let ghost before = count;
        let mut row: usize = 0;
        proof {
            lemma_counted_in_cols_bound(grid, num_rows as nat, (col + 1) as nat, crosses);
            assert(8 * num_rows * (col + 1) <= 8 * num_rows * num_cols) by (nonlinear_arith)
                requires
                    col + 1 <= num_cols,
                    num_rows >= 0,
            ;
        }
        while row < num_rows
            invariant
                row <= num_rows,
                col < num_cols,
                num_cols <= isize::MAX - 4,
                num_rows <= isize::MAX - 4,
                grid == puzzle.grid(),
                count == before + counted_in_col(grid, col as int, row as nat, crosses),
                before + counted_in_col(grid, col as int, num_rows as nat, crosses) <= usize::MAX,
            decreases num_rows - row,
        {
            let base = Coord { row: row as isize, col: col as isize };
            proof {
                lemma_col_grows(grid, col as int, (row + 1) as nat, num_rows as nat, crosses);
            }
            count += count_at(puzzle, &base, crosses);
            row += 1;
        }
        col += 1;
    }
    count
}

proof fn lemma_col_grows(grid: Seq<Seq<u8>>, col: int, done: nat, all: nat, crosses: bool)
    requires
        done <= all,
    ensures
        counted_in_col(grid, col, done, crosses) <= counted_in_col(grid, col, all, crosses),
    decreases all,
{
    if all > done {
        lemma_col_grows(grid, col, done, (all - 1) as nat, crosses);
    }
}

/// How often the word is written in the grid.
pub fn count_all(puzzle: &Puzzle) -> (count: usize)
    requires
        8 * puzzle.rows() * puzzle.cols() <= usize::MAX,
    ensures
        count == counted_in_cols(puzzle.grid(), puzzle.rows(), puzzle.cols(), false),
{
    count_grid(puzzle, false)
}

/// At how many places two `MAS` cross.
pub fn get_x_count(puzzle: &Puzzle) -> (count: usize)
    requires
        8 * puzzle.rows() * puzzle.cols() <= usize::MAX,
    ensures
        count == counted_in_cols(puzzle.grid(), puzzle.rows(), puzzle.cols(), true),
{
    count_grid(puzzle, true)
}

/// What `count_xmas_str` (`crosses` false) and `count_crosses_str` (true)
/// return for a text with the lines `lines`.
pub open spec fn count_of(lines: Seq<Seq<u8>>, crosses: bool) -> Option<usize> {
    match grid_of(lines) {
        Some(grid) if 8 * grid.len() * grid[0].len() <= usize::MAX => Some(
            counted_in_cols(grid, grid.len(), grid[0].len(), crosses) as usize,
        ),
        _ => None,
    }
}

fn count_str(puzzle: &str, crosses: bool) -> (count: Option<usize>)
    ensures
        count == count_of(lines_of(bytes_of(puzzle@)), crosses),
{
    match Puzzle::from(puzzle) {
        None => None,
        Some(puzzle) => {
            let rows = puzzle.num_rows();
            let cols = puzzle.num_cols();
            match rows.checked_mul(cols) {
                None => {
                    assert(8 * rows * cols > usize::MAX) by (nonlinear_arith)
                        requires
                            rows * cols > usize::MAX,
                    ;
                    None
                },
                Some(cells) => match cells.checked_mul(8) {
                    None => {
                        assert(8 * rows * cols == (rows * cols) * 8) by (nonlinear_arith);
                        None
                    },
                    Some(_) => {
                        assert(8 * rows * cols == (rows * cols) * 8) by (nonlinear_arith);
                        proof {
                            lemma_counted_in_cols_bound(
                                puzzle.grid(),
                                puzzle.rows(),
                                puzzle.cols(),
                                crosses,
                            );
                        }
                        Some(count_grid(&puzzle, crosses))
                    },
                },
            }
        },
    }
}

/// How often `XMAS` is written in the grid `puzzle`; `None` where the text
/// is no grid or the grid is too large to count in.
pub fn count_xmas_str(puzzle: &str) -> (count: Option<usize>)
    ensures
        count == count_of(lines_of(bytes_of(puzzle@)), false),
{
    count_str(puzzle, false)
}

/// At how many places of the grid `puzzle` two `MAS` cross.
pub fn count_crosses_str(puzzle: &str) -> (count: Option<usize>)
    ensures
        count == count_of(lines_of(bytes_of(puzzle@)), true),
{
    count_str(puzzle, true)
}

} // verus!
