//! Tree visibility: a digit grid of heights. A tree is visible when some
//! straight line to an edge holds only strictly lower trees; a viewing score
//! multiplies how far one sees in each of the four directions.

use vstd::prelude::*;

verus! {

use crate::text;

pub open spec fn rect(g: Seq<Seq<u8>>) -> bool {
    &&& g.len() > 0
    &&& g[0].len() > 0
    &&& forall|i: int| 0 <= i < g.len() ==> (#[trigger] g[i]).len() == g[0].len()
}

pub open spec fn grid_view(p: Seq<Vec<u8>>) -> Seq<Seq<u8>> {
    p.map_values(|row: Vec<u8>| row@)
}

pub open spec fn vis_up(g: Seq<Seq<u8>>, row: int, col: int) -> bool {
    forall|r: int| 0 <= r < row ==> #[trigger] g[r][col] < g[row][col]
}

pub open spec fn vis_down(g: Seq<Seq<u8>>, row: int, col: int) -> bool {
    forall|r: int| row < r < g.len() ==> #[trigger] g[r][col] < g[row][col]
}

pub open spec fn vis_left(g: Seq<Seq<u8>>, row: int, col: int) -> bool {
    forall|c: int| 0 <= c < col ==> #[trigger] g[row][c] < g[row][col]
}

pub open spec fn vis_right(g: Seq<Seq<u8>>, row: int, col: int) -> bool {
    forall|c: int| col < c < g[row].len() ==> #[trigger] g[row][c] < g[row][col]
}

/// Visible from at least one edge along its row or column.
pub open spec fn spec_visible(g: Seq<Seq<u8>>, row: int, col: int) -> bool {
    vis_up(g, row, col) || vis_down(g, row, col) || vis_left(g, row, col) || vis_right(g, row, col)
}

pub fn is_visible(puzzle: &Vec<Vec<u8>>, row: usize, col: usize) -> (r: bool)
    requires
        rect(grid_view(puzzle@)),
        row < puzzle@.len(),
        col < grid_view(puzzle@)[0].len(),
    ensures
        r == spec_visible(grid_view(puzzle@), row as int, col as int),
{
    let ghost g = grid_view(puzzle@);
    proof {
        assert forall|i: int| 0 <= i < g.len() implies (#[trigger] puzzle@[i])@ == g[i] by {
            assert(g[i] == puzzle@.map_values(|r2: Vec<u8>| r2@)[i]);
        }
    }
    let rows = puzzle.len();
    let cols = puzzle[0].len();
    if row == 0 || row == rows - 1 {
        return true;
    }
    if col == 0 || col == cols - 1 {
        return true;
    }
    let target = puzzle[row][col];
    let mut visible: bool;

    visible = true;
    let mut r: usize = 0;
    while r < row
        invariant
            r <= row,
            row < g.len(),
            col < g[0].len(),
            rect(g),
            g == grid_view(puzzle@),
            forall|i: int| 0 <= i < g.len() ==> (#[trigger] puzzle@[i])@ == g[i],
            target == g[row as int][col as int],
            visible <==> (forall|k: int| 0 <= k < r ==> #[trigger] g[k][col as int] < target),
        decreases row - r,
    {
        if puzzle[r][col] >= target {
            visible = false;
        }
        r = r + 1;
    }
    if visible {
        return true;
    }

    visible = true;
    let mut r: usize = row + 1;
    while r < rows
        invariant
            row < r <= g.len(),
            row < g.len(),
            col < g[0].len(),
            rect(g),
            g == grid_view(puzzle@),
            rows == g.len(),
            forall|i: int| 0 <= i < g.len() ==> (#[trigger] puzzle@[i])@ == g[i],
            target == g[row as int][col as int],
            visible <==> (forall|k: int| row < k < r ==> #[trigger] g[k][col as int] < target),
        decreases rows - r,
    {
        if puzzle[r][col] >= target {
            visible = false;
        }
        r = r + 1;
    }
    if visible {
        return true;
    }

    visible = true;
    let mut c: usize = 0;
    while c < col
        invariant
            c <= col,
            row < g.len(),
            col < g[0].len(),
            rect(g),
            g == grid_view(puzzle@),
            forall|i: int| 0 <= i < g.len() ==> (#[trigger] puzzle@[i])@ == g[i],
            target == g[row as int][col as int],
            visible <==> (forall|k: int| 0 <= k < c ==> #[trigger] g[row as int][k] < target),
        decreases col - c,
    {
        if puzzle[row][c] >= target {
            visible = false;
        }
        c = c + 1;
    }
    if visible {
        return true;
    }

    visible = true;
    let mut c: usize = col + 1;
    while c < cols
        invariant
            col < c <= g[0].len(),
            row < g.len(),
            col < g[0].len(),
            rect(g),
            g == grid_view(puzzle@),
            cols == g[0].len(),
            forall|i: int| 0 <= i < g.len() ==> (#[trigger] puzzle@[i])@ == g[i],
            target == g[row as int][col as int],
            visible <==> (forall|k: int| col < k < c ==> #[trigger] g[row as int][k] < target),
        decreases cols - c,
    {
        if puzzle[row][c] >= target {
            visible = false;
        }
        c = c + 1;
    }
    if visible {
        return true;
    }

    false
}

/// Trees seen looking up: stop at the first tree at least as tall.
pub open spec fn scan_up(g: Seq<Seq<u8>>, col: int, target: u8, r: int) -> int
    decreases r + 1,
{
    if r < 0 {
        0
    } else if g[r][col] >= target {
        1
    } else {
        1 + scan_up(g, col, target, r - 1)
    }
}

pub open spec fn scan_down(g: Seq<Seq<u8>>, col: int, target: u8, r: int) -> int
    decreases g.len() - r,
{
    if r >= g.len() {
        0
    } else if g[r][col] >= target {
        1
    } else {
        1 + scan_down(g, col, target, r + 1)
    }
}

pub open spec fn scan_left(row: Seq<u8>, target: u8, c: int) -> int
    decreases c + 1,
{
    if c < 0 {
        0
    } else if row[c] >= target {
        1
    } else {
        1 + scan_left(row, target, c - 1)
    }
}

pub open spec fn scan_right(row: Seq<u8>, target: u8, c: int) -> int
    decreases row.len() - c,
{
    if c >= row.len() {
        0
    } else if row[c] >= target {
        1
    } else {
        1 + scan_right(row, target, c + 1)
    }
}

/// The product of the four viewing distances.
pub open spec fn spec_viewing_score(g: Seq<Seq<u8>>, row: int, col: int) -> int {
    scan_up(g, col, g[row][col], row - 1) * scan_down(g, col, g[row][col], row + 1) * scan_left(
        g[row],
        g[row][col],
        col - 1,
    ) * scan_right(g[row], g[row][col], col + 1)
}

proof fn lemma_scan_down_bound(g: Seq<Seq<u8>>, col: int, target: u8, r: int)
    ensures
        0 <= scan_down(g, col, target, r) <= if r < g.len() {
            g.len() - r
        } else {
            0
        },
    decreases g.len() - r + 1,
{
    if r < g.len() && g[r][col] < target {
        lemma_scan_down_bound(g, col, target, r + 1);
    }
}

proof fn lemma_scan_right_bound(row: Seq<u8>, target: u8, c: int)
    ensures
        0 <= scan_right(row, target, c) <= if c < row.len() {
            row.len() - c
        } else {
            0
        },
    decreases row.len() - c + 1,
{
    if c < row.len() && row[c] < target {
        lemma_scan_right_bound(row, target, c + 1);
    }
}

proof fn lemma_scan_up_bound(g: Seq<Seq<u8>>, col: int, target: u8, r: int)
    ensures
        0 <= scan_up(g, col, target, r) <= if r >= 0 {
            r + 1
        } else {
            0
        },
    decreases r + 1,
{
    if r >= 0 && g[r][col] < target {
        lemma_scan_up_bound(g, col, target, r - 1);
    }
}

proof fn lemma_scan_left_bound(row: Seq<u8>, target: u8, c: int)
    ensures
        0 <= scan_left(row, target, c) <= if c >= 0 {
            c + 1
        } else {
            0
        },
    decreases c + 1,
{
    if c >= 0 && row[c] < target {
        lemma_scan_left_bound(row, target, c - 1);
    }
}

pub fn viewing_score(puzzle: &Vec<Vec<u8>>, row: usize, col: usize) -> (r: usize)
    requires
        rect(grid_view(puzzle@)),
        row < puzzle@.len(),
        col < grid_view(puzzle@)[0].len(),
        grid_view(puzzle@).len() * grid_view(puzzle@).len() * grid_view(puzzle@)[0].len()
            * grid_view(puzzle@)[0].len() <= usize::MAX,
    ensures
        r == spec_viewing_score(grid_view(puzzle@), row as int, col as int),
{
    let ghost g = grid_view(puzzle@);
    proof {
        assert forall|i: int| 0 <= i < g.len() implies (#[trigger] puzzle@[i])@ == g[i] by {
            assert(g[i] == puzzle@.map_values(|r2: Vec<u8>| r2@)[i]);
        }
    }
    let ghost rows = g.len();
    let ghost cols = g[0].len();
    let target = puzzle[row][col];

    let mut left: usize = 0;
    let mut r: usize = row;
    let mut stopped = false;
    while r > 0 && !stopped
        invariant
            0 <= r <= row,
            row < g.len(),
            col < g[0].len(),
            rect(g),
            g == grid_view(puzzle@),
            forall|i: int| 0 <= i < g.len() ==> (#[trigger] puzzle@[i])@ == g[i],
            target == g[row as int][col as int],
            left == row - r,
            !stopped ==> scan_up(g, col as int, target, row - 1) == left + scan_up(
                g,
                col as int,
                target,
                r - 1,
            ),
            stopped ==> scan_up(g, col as int, target, row - 1) == left,
        decreases r,
    {
        r = r - 1;
        left = left + 1;
        if puzzle[r][col] >= target {
            stopped = true;
        }
    }
    proof {
        lemma_scan_up_bound(g, col as int, target, row - 1);
        assert(left == scan_up(g, col as int, target, row - 1));
    }

    let mut right: usize = 0;
    let rows_e = puzzle.len();
    let mut r: usize = row + 1;
    let mut stopped = false;
    while r < rows_e && !stopped
        invariant
            row < r <= g.len() || (stopped && row < r <= g.len()),
            row < g.len(),
            col < g[0].len(),
            rect(g),
            rows_e == g.len(),
            g == grid_view(puzzle@),
            forall|i: int| 0 <= i < g.len() ==> (#[trigger] puzzle@[i])@ == g[i],
            target == g[row as int][col as int],
            right == r - row - 1,
            !stopped ==> scan_down(g, col as int, target, row + 1) == right + scan_down(
                g,
                col as int,
                target,
                r as int,
            ),
            stopped ==> scan_down(g, col as int, target, row + 1) == right,
        decreases g.len() - r,
    {
        right = right + 1;
        if puzzle[r][col] >= target {
            stopped = true;
        }
        r = r + 1;
    }
    proof {
        lemma_scan_down_bound(g, col as int, target, row + 1);
        assert(right == scan_down(g, col as int, target, row + 1));
    }

    let mut top: usize = 0;
    let mut c: usize = col;
    let mut stopped = false;
    while c > 0 && !stopped
        invariant
            0 <= c <= col,
            row < g.len(),
            col < g[0].len(),
            rect(g),
            g == grid_view(puzzle@),
            forall|i: int| 0 <= i < g.len() ==> (#[trigger] puzzle@[i])@ == g[i],
            target == g[row as int][col as int],
            top == col - c,
            !stopped ==> scan_left(g[row as int], target, col - 1) == top + scan_left(
                g[row as int],
                target,
                c - 1,
            ),
            stopped ==> scan_left(g[row as int], target, col - 1) == top,
        decreases c,
    {
        c = c - 1;
        top = top + 1;
        if puzzle[row][c] >= target {
            stopped = true;
        }
    }
    proof {
        lemma_scan_left_bound(g[row as int], target, col - 1);
        assert(top == scan_left(g[row as int], target, col - 1));
    }

    let mut bottom: usize = 0;
    let cols_e = puzzle[row].len();
    let mut c: usize = col + 1;
    let mut stopped = false;
    while c < cols_e && !stopped
        invariant
            col < c <= g[0].len(),
            row < g.len(),
            col < g[0].len(),
            rect(g),
            cols_e == g[0].len(),
            g == grid_view(puzzle@),
            forall|i: int| 0 <= i < g.len() ==> (#[trigger] puzzle@[i])@ == g[i],
            target == g[row as int][col as int],
            bottom == c - col - 1,
            !stopped ==> scan_right(g[row as int], target, col + 1) == bottom + scan_right(
                g[row as int],
                target,
                c as int,
            ),
            stopped ==> scan_right(g[row as int], target, col + 1) == bottom,
        decreases g[0].len() - c,
    {
        bottom = bottom + 1;
        if puzzle[row][c] >= target {
            stopped = true;
        }
        c = c + 1;
    }
    proof {
        lemma_scan_right_bound(g[row as int], target, col + 1);
        assert(bottom == scan_right(g[row as int], target, col + 1));
    }

    proof {
        assert(left <= rows && right <= rows && top <= cols && bottom <= cols);
        assert(left * right <= rows * rows) by (nonlinear_arith)
            requires
                0 <= left <= rows,
                0 <= right <= rows,
        ;
        assert(top * bottom <= cols * cols) by (nonlinear_arith)
            requires
                0 <= top <= cols,
                0 <= bottom <= cols,
        ;
        assert((rows * rows) * (cols * cols) == rows * rows * cols * cols) by (nonlinear_arith);
        assert((left * right) * (top * bottom) <= (rows * rows) * (cols * cols))
            by (nonlinear_arith)
            requires
                0 <= left * right <= rows * rows,
                0 <= top * bottom <= cols * cols,
        ;
        assert(cols * cols >= 1) by (nonlinear_arith)
            requires
                cols >= 1,
        ;
        assert(rows * rows <= rows * rows * cols * cols) by (nonlinear_arith)
            requires
                cols >= 1,
                rows >= 0,
        ;
        assert(cols * cols <= rows * rows * cols * cols) by (nonlinear_arith)
            requires
                rows >= 1,
                cols >= 0,
        ;
    }
    let lr = left * right;
    let tb = top * bottom;
    proof {
        assert(lr * tb == spec_viewing_score(g, row as int, col as int)) by (nonlinear_arith)
            requires
                lr == scan_up(g, col as int, target, row - 1) * scan_down(
                    g,
                    col as int,
                    target,
                    row + 1,
                ),
                tb == scan_left(g[row as int], target, col - 1) * scan_right(
                    g[row as int],
                    target,
                    col + 1,
                ),
                spec_viewing_score(g, row as int, col as int) == scan_up(
                    g,
                    col as int,
                    target,
                    row - 1,
                ) * scan_down(g, col as int, target, row + 1) * scan_left(
                    g[row as int],
                    target,
                    col - 1,
                ) * scan_right(g[row as int], target, col + 1),
        ;
    }
    lr * tb
}

/// Every character is a decimal digit.
pub open spec fn parse_ok(s: Seq<char>) -> bool {
    forall|i: int|
        0 <= i < text::spec_lines(s).len() ==> text::all_digits(#[trigger] text::spec_lines(s)[i])
}

pub open spec fn parsed_grid(s: Seq<char>) -> Seq<Seq<u8>> {
    text::spec_lines(s).map_values(
        |l: Seq<char>| l.map_values(|c: char| (text::digit_val(c)) as u8),
    )
}

/// Reads the digit grid, one row per line.
pub fn parse(input: &str) -> (r: Vec<Vec<u8>>)
    requires
        parse_ok(input@),
    ensures
        grid_view(r@) == parsed_grid(input@),
{
    let chars = text::chars_of(input);
    let lines = text::split_lines(&chars);
    let ghost spec = text::spec_lines(input@);
    let mut forest: Vec<Vec<u8>> = Vec::new();
    let mut i: usize = 0;
    proof {
        assert(grid_view(forest@) =~= parsed_grid(input@).take(0));
    }
    while i < lines.len()
        invariant
            i <= lines@.len(),
            lines@.map_values(|l: Vec<char>| l@) == spec,
            spec == text::spec_lines(input@),
            parse_ok(input@),
            grid_view(forest@) == parsed_grid(input@).take(i as int),
        decreases lines@.len() - i,
    {
        let ghost l = spec[i as int];
        assert(lines@[i as int]@ == l);
        let line = &lines[i];
        let mut row: Vec<u8> = Vec::new();
        let mut j: usize = 0;
        while j < line.len()
            invariant
                j <= l.len(),
                line@ == l,
                text::all_digits(l),
                row@ == l.take(j as int).map_values(|c: char| (text::digit_val(c)) as u8),
            decreases l.len() - j,
        {
            let ch = line[j];
            let u = ch as u32;
            assert(text::is_digit(l[j as int]));
            row.push((u - 48) as u8);
            proof {
                assert(row@ =~= l.take((j + 1) as int).map_values(
                    |c: char| (text::digit_val(c)) as u8,
                ));
            }
            j = j + 1;
        }
        forest.push(row);
        proof {
            assert(l.take(l.len() as int) =~= l);
            assert(grid_view(forest@) =~= parsed_grid(input@).take((i + 1) as int));
        }
        i = i + 1;
    }
    proof {
        assert(grid_view(forest@) =~= parsed_grid(input@));
    }
    forest
}

pub open spec fn row_vis_flags(g: Seq<Seq<u8>>, r: int) -> Seq<int> {
    Seq::new(
        g[0].len(),
        |c: int|
            if spec_visible(g, r, c) {
                1int
            } else {
                0int
            },
    )
}

pub open spec fn vis_counts(g: Seq<Seq<u8>>) -> Seq<int> {
    Seq::new(g.len(), |r: int| crate::arith::sum(row_vis_flags(g, r)))
}

/// How many trees are visible from outside the grid.
pub fn part1(puzzle: &Vec<Vec<u8>>) -> (r: usize)
    requires
        rect(grid_view(puzzle@)),
        grid_view(puzzle@).len() * grid_view(puzzle@)[0].len() <= usize::MAX,
    ensures
        r == crate::arith::sum(vis_counts(grid_view(puzzle@))),
{
    let ghost g = grid_view(puzzle@);
    let rows = puzzle.len();
    let cols = puzzle[0].len();
    proof {
        assert(g[0] == puzzle@.map_values(|r2: Vec<u8>| r2@)[0]);
    }
    let mut visible: usize = 0;
    let mut row: usize = 0;
    proof {
        assert(vis_counts(g).take(0) =~= Seq::<int>::empty());
    }
    while row < rows
        invariant
            row <= rows,
            rows == g.len(),
            cols == g[0].len(),
            rect(g),
            g == grid_view(puzzle@),
            rows * cols <= usize::MAX,
            visible == crate::arith::sum(vis_counts(g).take(row as int)),
            0 <= visible <= row * cols,
        decreases rows - row,
    {
        let mut rowcount: usize = 0;
        let mut col: usize = 0;
        proof {
            assert(row_vis_flags(g, row as int).take(0) =~= Seq::<int>::empty());
        }
        while col < cols
            invariant
                col <= cols,
                row < rows,
                rows == g.len(),
                cols == g[0].len(),
                rect(g),
                g == grid_view(puzzle@),
                rows * cols <= usize::MAX,
                visible == crate::arith::sum(vis_counts(g).take(row as int)),
                0 <= visible <= row * cols,
                rowcount == crate::arith::sum(row_vis_flags(g, row as int).take(col as int)),
                0 <= rowcount <= col,
            decreases cols - col,
        {
            proof {
                crate::arith::lemma_sum_take_step(row_vis_flags(g, row as int), col as int);
            }
            if is_visible(puzzle, row, col) {
                proof {
                    assert(row * cols + col < rows * cols) by (nonlinear_arith)
                        requires
                            row < rows,
                            col < cols,
                            0 <= row,
                            0 <= col,
                    ;
                }
                rowcount = rowcount + 1;
            }
            col = col + 1;
        }
        proof {
            assert(row_vis_flags(g, row as int).take(cols as int) =~= row_vis_flags(
                g,
                row as int,
            ));
            crate::arith::lemma_sum_take_step(vis_counts(g), row as int);
            assert((row + 1) * cols == row * cols + cols) by (nonlinear_arith);
            assert(row * cols + cols <= rows * cols) by (nonlinear_arith)
                requires
                    row + 1 <= rows,
                    0 <= cols,
            ;
        }
        visible = visible + rowcount;
        row = row + 1;
    }
    proof {
        assert(vis_counts(g).take(rows as int) =~= vis_counts(g));
    }
    visible
}

/// The best viewing score over all trees.
pub fn part2(puzzle: &Vec<Vec<u8>>) -> (r: usize)
    requires
        rect(grid_view(puzzle@)),
        grid_view(puzzle@).len() * grid_view(puzzle@).len() * grid_view(puzzle@)[0].len()
            * grid_view(puzzle@)[0].len() <= usize::MAX,
    ensures
        forall|row: int, col: int|
            0 <= row < grid_view(puzzle@).len() && 0 <= col < grid_view(puzzle@)[0].len()
                ==> #[trigger] spec_viewing_score(grid_view(puzzle@), row, col) <= r,
        r == 0 || exists|row: int, col: int|
            0 <= row < grid_view(puzzle@).len() && 0 <= col < grid_view(puzzle@)[0].len()
                && #[trigger] spec_viewing_score(grid_view(puzzle@), row, col) == r,
{
    let ghost g = grid_view(puzzle@);
    let rows = puzzle.len();
    let cols = puzzle[0].len();
    proof {
        assert(g[0] == puzzle@.map_values(|r2: Vec<u8>| r2@)[0]);
    }
    let mut best: usize = 0;
    let mut row: usize = 0;
    while row < rows
        invariant
            row <= rows,
            rows == g.len(),
            cols == g[0].len(),
            rect(g),
            g == grid_view(puzzle@),
            g.len() * g.len() * g[0].len() * g[0].len() <= usize::MAX,
            forall|r2: int, c2: int|
                0 <= r2 < row && 0 <= c2 < cols ==> #[trigger] spec_viewing_score(g, r2, c2)
                    <= best,
            best == 0 || exists|r2: int, c2: int|
                0 <= r2 < g.len() && 0 <= c2 < cols && #[trigger] spec_viewing_score(g, r2, c2)
                    == best,
        decreases rows - row,
    {
        let mut col: usize = 0;
        while col < cols
            invariant
                col <= cols,
                row < rows,
                rows == g.len(),
                cols == g[0].len(),
                rect(g),
                g == grid_view(puzzle@),
                g.len() * g.len() * g[0].len() * g[0].len() <= usize::MAX,
                forall|r2: int, c2: int|
                    0 <= r2 < row && 0 <= c2 < cols ==> #[trigger] spec_viewing_score(g, r2, c2)
                        <= best,
                forall|c2: int|
                    0 <= c2 < col ==> #[trigger] spec_viewing_score(g, row as int, c2) <= best,
                best == 0 || exists|r2: int, c2: int|
                    0 <= r2 < g.len() && 0 <= c2 < cols && #[trigger] spec_viewing_score(g, r2, c2)
                        == best,
            decreases cols - col,
        {
            let score = viewing_score(puzzle, row, col);
            if score > best {
                best = score;
            }
            col = col + 1;
        }
        row = row + 1;
    }
    best
}

} // verus!
