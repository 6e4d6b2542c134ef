//! Minesweeper board annotation: every blank cell of a rectangular grid
//! of `'*'` (mine) and `' '` (blank) cells is replaced by the count of
//! mines among its up-to-eight neighbours; mine cells stay as they are.

use vstd::prelude::*;

verus! {

/// A cell a grid may hold on input: blank or mine.
pub open spec fn valid_cell(c: char) -> bool {
    c == ' ' || c == '*'
}

/// Every row of `g` is as long as the first one.
pub open spec fn rectangular(g: Seq<Seq<char>>) -> bool {
    forall|i: int| 0 <= i < g.len() ==> #[trigger] g[i].len() == g[0].len()
}

/// Every cell of `g` is blank or a mine.
pub open spec fn cells_ok(g: Seq<Seq<char>>) -> bool {
    forall|i: int, j: int|
        0 <= i < g.len() && 0 <= j < g[i].len() ==> valid_cell(#[trigger] g[i][j])
}

/// A grid `annotate` accepts: rectangular, blanks and mines only.
pub open spec fn valid_grid(g: Seq<Seq<char>>) -> bool {
    rectangular(g) && cells_ok(g)
}

/// There is a mine at position `(i, j)` of `g` (false outside the grid).
pub open spec fn mine_at(g: Seq<Seq<char>>, i: int, j: int) -> bool {
    0 <= i < g.len() && 0 <= j < g[i].len() && g[i][j] == '*'
}

/// 1 if there is a mine at `(i, j)`, else 0.
pub open spec fn mine_ind(g: Seq<Seq<char>>, i: int, j: int) -> int {
    if mine_at(g, i, j) {
        1
    } else {
        0
    }
}

/// The number of mines among the up-to-eight in-grid neighbours of
/// `(r, c)`: the eight compass directions, clipped at the borders.
pub open spec fn mine_count(g: Seq<Seq<char>>, r: int, c: int) -> int {
    mine_ind(g, r - 1, c - 1) + mine_ind(g, r - 1, c) + mine_ind(g, r - 1, c + 1) + mine_ind(
        g,
        r,
        c - 1,
    ) + mine_ind(g, r, c + 1) + mine_ind(g, r + 1, c - 1) + mine_ind(g, r + 1, c) + mine_ind(
        g,
        r + 1,
        c + 1,
    )
}

/// The character standing for `k` adjacent mines: blank for zero, the
/// decimal digit otherwise (a cell has at most 8 neighbours).
pub open spec fn count_char(k: int) -> char {
    if k == 1 {
        '1'
    } else if k == 2 {
        '2'
    } else if k == 3 {
        '3'
    } else if k == 4 {
        '4'
    } else if k == 5 {
        '5'
    } else if k == 6 {
        '6'
    } else if k == 7 {
        '7'
    } else if k == 8 {
        '8'
    } else {
        ' '
    }
}

/// The neighbour count a `count_char` character stands for.
pub open spec fn count_of_char(ch: char) -> int {
    if ch == '1' {
        1
    } else if ch == '2' {
        2
    } else if ch == '3' {
        3
    } else if ch == '4' {
        4
    } else if ch == '5' {
        5
    } else if ch == '6' {
        6
    } else if ch == '7' {
        7
    } else if ch == '8' {
        8
    } else {
        0
    }
}

/// What the output grid holds at `(r, c)`: a mine stays a mine, any
/// other cell shows its neighbour mine count.
pub open spec fn annotated_char(g: Seq<Seq<char>>, r: int, c: int) -> char {
    if g[r][c] == '*' {
        '*'
    } else {
        count_char(mine_count(g, r, c))
    }
}

/// Row `r` of the annotated grid.
pub open spec fn annotated_row(g: Seq<Seq<char>>, r: int) -> Seq<char> {
    Seq::new(g[r].len(), |c: int| annotated_char(g, r, c))
}

/// The whole annotated grid: same dimensions as `g`.
pub open spec fn annotated(g: Seq<Seq<char>>) -> Seq<Seq<char>> {
    Seq::new(g.len(), |r: int| annotated_row(g, r))
}

/// `(r1, c1)` and `(r2, c2)` are distinct cells at most one row and one
/// column apart.
pub open spec fn adjacent(r1: int, c1: int, r2: int, c2: int) -> bool {
    (r1 != r2 || c1 != c2) && -1 <= r1 - r2 <= 1 && -1 <= c1 - c2 <= 1
}

/// `(i, j)` comes before `(ri, ci)` in row-major order.
pub open spec fn processed(i: int, j: int, ri: int, ci: int) -> bool {
    i < ri || (i == ri && j < ci)
}

/// 1 if there is a mine at `(i, j)` and that cell comes before
/// `(ri, ci)` in row-major order, else 0.
pub open spec fn mine_ind_before(g: Seq<Seq<char>>, i: int, j: int, ri: int, ci: int) -> int {
    if mine_at(g, i, j) && processed(i, j, ri, ci) {
        1
    } else {
        0
    }
}

/// The mines among the neighbours of `(r, c)` that come before
/// `(ri, ci)` in row-major order: the part of `mine_count` that a
/// row-major scan has seen so far.
pub open spec fn mine_count_before(g: Seq<Seq<char>>, r: int, c: int, ri: int, ci: int) -> int {
    mine_ind_before(g, r - 1, c - 1, ri, ci) + mine_ind_before(g, r - 1, c, ri, ci)
        + mine_ind_before(g, r - 1, c + 1, ri, ci) + mine_ind_before(g, r, c - 1, ri, ci)
        + mine_ind_before(g, r, c + 1, ri, ci) + mine_ind_before(g, r + 1, c - 1, ri, ci)
        + mine_ind_before(g, r + 1, c, ri, ci) + mine_ind_before(g, r + 1, c + 1, ri, ci)
}

/// A neighbour count lies between 0 and 8.
pub proof fn lemma_mine_count_bounds(g: Seq<Seq<char>>, r: int, c: int)
    ensures
        0 <= mine_count(g, r, c) <= 8,
{
}

/// Before the scan starts, no mine has been seen.
pub proof fn lemma_count_before_start(g: Seq<Seq<char>>, r: int, c: int)
    ensures
        mine_count_before(g, r, c, 0, 0) == 0,
{
}

/// The partial count never exceeds the full count.
pub proof fn lemma_count_before_le(g: Seq<Seq<char>>, r: int, c: int, ri: int, ci: int)
    ensures
        0 <= mine_count_before(g, r, c, ri, ci) <= mine_count(g, r, c),
{
}

/// Scanning one more cell adds 1 to the partial count of exactly the
/// neighbours of that cell, and only when it holds a mine.
pub proof fn lemma_count_before_step(g: Seq<Seq<char>>, r: int, c: int, ri: int, ci: int)
    requires
        0 <= ri,
        0 <= ci,
    ensures
        mine_count_before(g, r, c, ri, ci + 1) == mine_count_before(g, r, c, ri, ci) + (
        if mine_at(g, ri, ci) && adjacent(r, c, ri, ci) {
            1int
        } else {
            0int
        }),
{
}

/// Moving the scan to the start of the next row does not change the
/// partial count when every row is `cols` long.
pub proof fn lemma_count_before_row_end(g: Seq<Seq<char>>, r: int, c: int, ri: int, cols: int)
    requires
        forall|i: int| 0 <= i < g.len() ==> #[trigger] g[i].len() == cols,
        0 <= ri,
    ensures
        mine_count_before(g, r, c, ri + 1, 0) == mine_count_before(g, r, c, ri, cols),
{
}

/// After the scan has passed every row, the partial count is the full
/// count.
pub proof fn lemma_count_before_done(g: Seq<Seq<char>>, r: int, c: int)
    ensures
        mine_count_before(g, r, c, g.len() as int, 0) == mine_count(g, r, c),
{
}

/// Adds one to a cell of the count grid.
fn increment_cell_value(cell: &mut u8)
    requires
        *old(cell) < 255,
    ensures
        *final(cell) == *old(cell) + 1,
{
    *cell = *cell + 1;
}

/// The dimensions of the count grid: `max_rows` rows of `max_cols`
/// cells each.
pub open spec fn counts_dims(counts: Seq<Vec<u8>>, max_rows: int, max_cols: int) -> bool {
    counts.len() == max_rows && forall|i: int|
        0 <= i < max_rows ==> (#[trigger] counts[i]@.len()) == max_cols
}

/// Adds one to the count of every in-grid cell adjacent to the mine at
/// `(mine_row, mine_col)`; every other count is unchanged.
fn update_adjacent_cells(
    counts: &mut Vec<Vec<u8>>,
    mine_row: usize,
    mine_col: usize,
    max_rows: usize,
    max_cols: usize,
)
    requires
        counts_dims(old(counts)@, max_rows as int, max_cols as int),
        mine_row < max_rows,
        mine_col < max_cols,
        forall|i: int, j: int|
            0 <= i < max_rows && 0 <= j < max_cols ==> (#[trigger] old(counts)@[i]@[j]) < 100,
    ensures
        counts_dims(final(counts)@, max_rows as int, max_cols as int),
        forall|i: int, j: int|
            0 <= i < max_rows && 0 <= j < max_cols ==> (#[trigger] final(counts)@[i]@[j])
                == old(counts)@[i]@[j] + (
            if adjacent(i, j, mine_row as int, mine_col as int) {
                1int
            } else {
                0int
            }),
{
    if mine_row > 0 {
        if mine_col > 0 {
            increment_cell_value(&mut counts[mine_row - 1][mine_col - 1]);
        }
        increment_cell_value(&mut counts[mine_row - 1][mine_col]);
        if mine_col + 1 < max_cols {
            increment_cell_value(&mut counts[mine_row - 1][mine_col + 1]);
        }
    }
    if mine_col > 0 {
        increment_cell_value(&mut counts[mine_row][mine_col - 1]);
    }
    if mine_col + 1 < max_cols {
        increment_cell_value(&mut counts[mine_row][mine_col + 1]);
    }
    if mine_row + 1 < max_rows {
        if mine_col > 0 {
            increment_cell_value(&mut counts[mine_row + 1][mine_col - 1]);
        }
        increment_cell_value(&mut counts[mine_row + 1][mine_col]);
        if mine_col + 1 < max_cols {
            increment_cell_value(&mut counts[mine_row + 1][mine_col + 1]);
        }
    }
}

/// The one-character string for a cell with `k` adjacent mines.
fn count_str(k: u8) -> (r: &'static str)
    requires
        k <= 8,
    ensures
        r@.len() == 1,
        r@[0] == count_char(k as int),
{
    proof {
        reveal_strlit(" ");
        reveal_strlit("1");
        reveal_strlit("2");
        reveal_strlit("3");
        reveal_strlit("4");
        reveal_strlit("5");
        reveal_strlit("6");
        reveal_strlit("7");
        reveal_strlit("8");
    }
    match k {
        0 => " ",
        1 => "1",
        2 => "2",
        3 => "3",
        4 => "4",
        5 => "5",
        6 => "6",
        7 => "7",
        _ => "8",
    }
}

/// Annotates a rectangular minefield of `' '` and `'*'` cells: the
/// result has the same dimensions, keeps every mine, and shows at every
/// other cell the number of adjacent mines (blank for zero). The scan
/// visits each mine once and raises the counts of its neighbours, so
/// its cost is proportional to the number of mines plus the grid area.
#[verifier::rlimit(50)]
pub fn annotate(minefield: &[&str]) -> (r: Vec<String>)
    requires
        valid_grid(minefield.deep_view()),
    ensures
        r@.len() == minefield@.len(),
        r.deep_view() == annotated(minefield.deep_view()),
{
    let ghost g = minefield.deep_view();
    if minefield.len() == 0 {
        let empty: Vec<String> = Vec::new();
        proof {
            assert(empty.deep_view() =~= annotated(g));
        }
        return empty;
    }
    let total_rows = minefield.len();
    let total_cols = minefield[0].unicode_len();
    proof {
        assert(g[0] == minefield@[0]@);
        assert forall|i: int| 0 <= i < g.len() implies (#[trigger] g[i]) == minefield@[i]@ by {}
        assert forall|i: int| 0 <= i < g.len() implies (#[trigger] g[i].len())
            == total_cols as int by {}
    }
    // Phase 1: a count grid of the same dimensions, all zero.
    let mut counts: Vec<Vec<u8>> = Vec::new();
    let mut ri: usize = 0;
    while ri < total_rows
        invariant
            counts@.len() == ri,
            ri <= total_rows,
            forall|p: int|
                0 <= p < ri ==> (#[trigger] counts@[p]@.len()) == total_cols as int,
            forall|p: int, q: int|
                0 <= p < ri && 0 <= q < total_cols ==> (#[trigger] counts@[p]@[q]) == 0,
        decreases total_rows - ri,
    {
        let mut row: Vec<u8> = Vec::new();
        let mut ci: usize = 0;
        while ci < total_cols
            invariant
                row@.len() == ci,
                ci <= total_cols,
                forall|q: int| 0 <= q < ci ==> (#[trigger] row@[q]) == 0,
            decreases total_cols - ci,
        {
            row.push(0u8);
            ci = ci + 1;
        }
        counts.push(row);
        ri = ri + 1;
    }
    // Phase 2: scan the grid in row-major order; at each mine, raise
    // the counts of its neighbours.
    proof {
        assert forall|p: int, q: int|
            0 <= p < total_rows && 0 <= q < total_cols implies (#[trigger] counts@[p]@[q])
            == mine_count_before(g, p, q, 0, 0) by {
            lemma_count_before_start(g, p, q);
        }
    }
    ri = 0;
    while ri < total_rows
        invariant
            ri <= total_rows,
            total_rows == g.len(),
            valid_grid(g),
            g == minefield.deep_view(),
            minefield@.len() == g.len(),
            forall|i: int| 0 <= i < g.len() ==> (#[trigger] g[i]) == minefield@[i]@,
            forall|i: int| 0 <= i < g.len() ==> (#[trigger] g[i].len()) == total_cols as int,
            counts_dims(counts@, total_rows as int, total_cols as int),
            forall|p: int, q: int|
                0 <= p < total_rows && 0 <= q < total_cols ==> (#[trigger] counts@[p]@[q])
                    == mine_count_before(g, p, q, ri as int, 0),
        decreases total_rows - ri,
    {
        let row_str = minefield[ri];
        let mut ci: usize = 0;
        while ci < total_cols
            invariant
                ci <= total_cols,
                ri < total_rows,
                total_rows == g.len(),
                valid_grid(g),
                row_str@ == g[ri as int],
                forall|i: int| 0 <= i < g.len() ==> (#[trigger] g[i].len()) == total_cols as int,
                counts_dims(counts@, total_rows as int, total_cols as int),
                forall|p: int, q: int|
                    0 <= p < total_rows && 0 <= q < total_cols ==> (#[trigger] counts@[p]@[q])
                        == mine_count_before(g, p, q, ri as int, ci as int),
            decreases total_cols - ci,
        {
            let ghost counts_prev = counts@;
            let current_cell = row_str.get_char(ci);
            if current_cell == '*' {
                proof {
                    assert forall|p: int, q: int|
                        0 <= p < total_rows && 0 <= q < total_cols implies (
                    #[trigger] counts@[p]@[q]) < 100 by {
                        lemma_count_before_le(g, p, q, ri as int, ci as int);
                        lemma_mine_count_bounds(g, p, q);
                    }
                }
                update_adjacent_cells(&mut counts, ri, ci, total_rows, total_cols);
            }
            proof {
                assert(mine_at(g, ri as int, ci as int) == (current_cell == '*'));
                assert forall|p: int, q: int|
                    0 <= p < total_rows && 0 <= q < total_cols implies (
                #[trigger] counts@[p]@[q]) == mine_count_before(
                    g,
                    p,
                    q,
                    ri as int,
                    ci + 1 as int,
                ) by {
                    lemma_count_before_step(g, p, q, ri as int, ci as int);
                    if current_cell == '*' {
                        assert(counts@[p]@[q] == counts_prev[p]@[q] + (
                        if adjacent(p, q, ri as int, ci as int) {
                            1int
                        } else {
                            0int
                        }));
                    }
                }
            }
            ci = ci + 1;
        }
        proof {
            assert forall|p: int, q: int|
                0 <= p < total_rows && 0 <= q < total_cols implies (#[trigger] counts@[p]@[q])
                == mine_count_before(g, p, q, ri + 1 as int, 0) by {
                lemma_count_before_row_end(g, p, q, ri as int, total_cols as int);
            }
        }
        ri = ri + 1;
    }
    proof {
        assert forall|p: int, q: int|
            0 <= p < total_rows && 0 <= q < total_cols implies (#[trigger] counts@[p]@[q])
            == mine_count(g, p, q) && 0 <= mine_count(g, p, q) <= 8 by {
            lemma_count_before_done(g, p, q);
            lemma_mine_count_bounds(g, p, q);
        }
    }
    // Phase 3: merge the original grid with the counts.
    let mut result_grid: Vec<String> = Vec::new();
    ri = 0;
    while ri < total_rows
        invariant
            ri <= total_rows,
            total_rows == g.len(),
            valid_grid(g),
            g == minefield.deep_view(),
            minefield@.len() == g.len(),
            forall|i: int| 0 <= i < g.len() ==> (#[trigger] g[i]) == minefield@[i]@,
            forall|i: int| 0 <= i < g.len() ==> (#[trigger] g[i].len()) == total_cols as int,
            counts_dims(counts@, total_rows as int, total_cols as int),
            forall|p: int, q: int|
                0 <= p < total_rows && 0 <= q < total_cols ==> (#[trigger] counts@[p]@[q])
                    == mine_count(g, p, q) && 0 <= mine_count(g, p, q) <= 8,
            result_grid@.len() == ri,
            forall|p: int|
                0 <= p < ri ==> (#[trigger] result_grid@[p]@) == annotated_row(g, p),
        decreases total_rows - ri,
    {
        let row_str = minefield[ri];
        let mut annotated_line = String::new();
        let mut ci: usize = 0;
        while ci < total_cols
            invariant
                ci <= total_cols,
                ri < total_rows,
                total_rows == g.len(),
                valid_grid(g),
                row_str@ == g[ri as int],
                forall|i: int| 0 <= i < g.len() ==> (#[trigger] g[i].len()) == total_cols as int,
                counts_dims(counts@, total_rows as int, total_cols as int),
                forall|p: int, q: int|
                    0 <= p < total_rows && 0 <= q < total_cols ==> (#[trigger] counts@[p]@[q])
                        == mine_count(g, p, q) && 0 <= mine_count(g, p, q) <= 8,
                annotated_line@ == annotated_row(g, ri as int).take(ci as int),
            decreases total_cols - ci,
        {
            let current_cell = row_str.get_char(ci);
            if current_cell == '*' {
                proof {
                    reveal_strlit("*");
                }
                annotated_line.append("*");
                proof {
                    assert(annotated_char(g, ri as int, ci as int) == '*');
                }
            } else {
                let k = counts[ri][ci];
                let piece = count_str(k);
                annotated_line.append(piece);
                proof {
                    assert(annotated_char(g, ri as int, ci as int) == count_char(k as int));
                }
            }
            proof {
                assert(annotated_line@ =~= annotated_row(g, ri as int).take(ci + 1 as int));
            }
            ci = ci + 1;
        }
        proof {
            assert(annotated_line@ =~= annotated_row(g, ri as int));
        }
        result_grid.push(annotated_line);
        ri = ri + 1;
    }
    proof {
        assert(result_grid.deep_view() =~= annotated(g));
    }
    result_grid
}

/// Why a minefield was rejected: rows of unequal length, or a cell
/// other than blank and mine.
#[derive(Clone, Copy, Debug, PartialEq, Eq, Structural)]
pub enum GridError {
    InvalidGrid,
    InvalidCell,
}

/// Checks the minefield before annotating it: rows of unequal length
/// are rejected as `InvalidGrid`, then any cell other than `' '` and
/// `'*'` as `InvalidCell`; a well-formed minefield is annotated as by
/// `annotate`.
pub fn try_annotate(minefield: &[&str]) -> (r: Result<Vec<String>, GridError>)
    ensures
        match r {
            Ok(out) => valid_grid(minefield.deep_view()) && out@.len() == minefield@.len()
                && out.deep_view() == annotated(minefield.deep_view()),
            Err(GridError::InvalidGrid) => !rectangular(minefield.deep_view()),
            Err(GridError::InvalidCell) => rectangular(minefield.deep_view()) && !cells_ok(
                minefield.deep_view(),
            ),
        },
{
    let ghost g = minefield.deep_view();
    proof {
        assert forall|i: int| 0 <= i < g.len() implies (#[trigger] g[i]) == minefield@[i]@ by {}
    }
    let total_rows = minefield.len();
    if total_rows == 0 {
        proof {
            assert(rectangular(g) && cells_ok(g));
        }
        return Ok(annotate(minefield));
    }
    let total_cols = minefield[0].unicode_len();
    let mut ri: usize = 0;
    while ri < total_rows
        invariant
            ri <= total_rows,
            total_rows == g.len(),
            minefield@.len() == g.len(),
            g == minefield.deep_view(),
            total_cols == g[0].len(),
            forall|i: int| 0 <= i < g.len() ==> (#[trigger] g[i]) == minefield@[i]@,
            forall|i: int| 0 <= i < ri ==> (#[trigger] g[i].len()) == total_cols as int,
        decreases total_rows - ri,
    {
        if minefield[ri].unicode_len() != total_cols {
            proof {
                assert(g[ri as int].len() != g[0].len());
                assert(!rectangular(g)) by {
                    if rectangular(g) {
                        assert(g[ri as int].len() == g[0].len());
                        assert(false);
                    }
                }
                assert(!rectangular(minefield.deep_view()));
            }
            return Err(GridError::InvalidGrid);
        }
        ri = ri + 1;
    }
    proof {
        assert(rectangular(g));
    }
    ri = 0;
    while ri < total_rows
        invariant
            ri <= total_rows,
            total_rows == g.len(),
            minefield@.len() == g.len(),
            g == minefield.deep_view(),
            rectangular(g),
            forall|i: int| 0 <= i < g.len() ==> (#[trigger] g[i]) == minefield@[i]@,
            forall|i: int| 0 <= i < g.len() ==> (#[trigger] g[i].len()) == total_cols as int,
            forall|i: int, j: int|
                0 <= i < ri && 0 <= j < g[i].len() ==> valid_cell(#[trigger] g[i][j]),
        decreases total_rows - ri,
    {
        let row_str = minefield[ri];
        let mut ci: usize = 0;
        while ci < total_cols
            invariant
                ci <= total_cols,
                ri < total_rows,
                total_rows == g.len(),
                g == minefield.deep_view(),
                rectangular(g),
                row_str@ == g[ri as int],
                g[ri as int].len() == total_cols as int,
                forall|j: int| 0 <= j < ci ==> valid_cell(#[trigger] g[ri as int][j]),
            decreases total_cols - ci,
        {
            let current_cell = row_str.get_char(ci);
            if current_cell != ' ' && current_cell != '*' {
                proof {
                    assert(!valid_cell(g[ri as int][ci as int]));
                    assert(!cells_ok(g)) by {
                        if cells_ok(g) {
                            assert(valid_cell(g[ri as int][ci as int]));
                            assert(false);
                        }
                    }
                    assert(!cells_ok(minefield.deep_view()));
                }
                return Err(GridError::InvalidCell);
            }
            ci = ci + 1;
        }
        ri = ri + 1;
    }
    proof {
        assert(cells_ok(g));
    }
    Ok(annotate(minefield))
}

/// A minefield with no rows is annotated to itself.
pub proof fn lemma_annotate_empty(g: Seq<Seq<char>>)
    requires
        g.len() == 0,
    ensures
        annotated(g) == g,
{
    assert(annotated(g) =~= g);
}

/// A mine cell is still a mine at the same position of the annotated
/// grid.
pub proof fn lemma_mines_preserved(g: Seq<Seq<char>>, r: int, c: int)
    requires
        0 <= r < g.len(),
        0 <= c < g[r].len(),
        g[r][c] == '*',
    ensures
        annotated(g)[r][c] == '*',
{
}

/// Any other cell of the annotated grid shows exactly the number of
/// mines among its up-to-eight in-grid neighbours, which is at most 8.
pub proof fn lemma_blank_counts(g: Seq<Seq<char>>, r: int, c: int)
    requires
        0 <= r < g.len(),
        0 <= c < g[r].len(),
        g[r][c] != '*',
    ensures
        annotated(g)[r][c] == count_char(mine_count(g, r, c)),
        0 <= mine_count(g, r, c) <= 8,
{
    lemma_mine_count_bounds(g, r, c);
}

/// The digit (or blank) written for a neighbour count decodes back to
/// that count: annotation loses no information about the counts, even
/// though re-annotating the output would not be meaningful (digits are
/// not mines).
pub proof fn lemma_count_char_decodes(k: int)
    requires
        0 <= k <= 8,
    ensures
        count_of_char(count_char(k)) == k,
{
}

/// Read off an annotated non-mine cell, the decoded digit is the
/// neighbour mine count of the original grid.
pub proof fn lemma_decode_annotation(g: Seq<Seq<char>>, r: int, c: int)
    requires
        0 <= r < g.len(),
        0 <= c < g[r].len(),
        g[r][c] != '*',
    ensures
        count_of_char(annotated(g)[r][c]) == mine_count(g, r, c),
{
    lemma_blank_counts(g, r, c);
    lemma_count_char_decodes(mine_count(g, r, c));
}

} // verus!
