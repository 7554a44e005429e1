use vstd::prelude::*;
use vstd::set_lib::lemma_len_subset;
use vstd::set_lib::lemma_int_range;
use vstd::set_lib::set_int_range;
use crate::backtracker::Config;

verus! {

/// One step in solving the N-Queens puzzle: a square board of cells
/// (`true` marks a queen) together with the position of the most recently
/// placed queen. Snapshots are immutable: a successor is always a fresh
/// copy of the board with one more queen.
pub struct QueensConfig {
    /// The board, row-major; `map[r][c]` is true iff a queen stands there.
    pub map: Vec<Vec<bool>>,
    /// Row of the most recently placed queen.
    pub row: usize,
    /// Column of the most recently placed queen.
    pub col: usize,
}

/// The board is square, non-degenerate, and small enough that column
/// arithmetic cannot overflow a `usize`.
pub open spec fn board_wf(b: Seq<Seq<bool>>) -> bool {
    &&& b.len() >= 1
    &&& 2 * b.len() <= usize::MAX
    &&& forall|r: int| 0 <= r < b.len() ==> (#[trigger] b[r]).len() == b.len()
}

/// Two board cells threaten each other: same row, same column, or a
/// shared diagonal.
pub open spec fn attacks(r1: int, c1: int, r2: int, c2: int) -> bool {
    ||| r1 == r2
    ||| c1 == c2
    ||| r1 + c1 == r2 + c2
    ||| r1 - c1 == r2 - c2
}

/// The queen at `(row, col)` is threatened by no other queen on the board.
pub open spec fn board_valid(b: Seq<Seq<bool>>, row: int, col: int) -> bool {
    forall|r: int, c: int|
        0 <= r < b.len() && 0 <= c < b.len() && #[trigger] b[r][c] && !(r == row && c == col)
            ==> !attacks(row, col, r, c)
}

/// No two queens anywhere on the board threaten each other.
pub open spec fn all_safe(b: Seq<Seq<bool>>) -> bool {
    forall|r1: int, c1: int, r2: int, c2: int|
        0 <= r1 < b.len() && 0 <= c1 < b.len() && 0 <= r2 < b.len() && 0 <= c2 < b.len()
            && #[trigger] b[r1][c1] && #[trigger] b[r2][c2] && !(r1 == r2 && c1 == c2)
            ==> !attacks(r1, c1, r2, c2)
}

/// Row `r` holds at least one queen.
pub open spec fn row_occupied(b: Seq<Seq<bool>>, r: int) -> bool {
    exists|c: int| 0 <= c < b.len() && #[trigger] b[r][c]
}

/// Every cell of the board's leftmost column is free.
pub open spec fn col0_empty(b: Seq<Seq<bool>>) -> bool {
    forall|r: int| 0 <= r < b.len() ==> !(#[trigger] b[r][0])
}

/// The board is valid for its newest queen and every row holds a queen.
pub open spec fn board_goal(b: Seq<Seq<bool>>, row: int, col: int) -> bool {
    &&& board_valid(b, row, col)
    &&& forall|r: int| 0 <= r < b.len() ==> row_occupied(b, r)
}

/// Whether successor generation has a column to move to after `col`:
/// either the next column to the right, or a wrap to column 0 when that
/// column is still free.
pub open spec fn has_next(b: Seq<Seq<bool>>, col: int) -> bool {
    col < b.len() - 1 || col0_empty(b)
}

/// The column successors are generated in (meaningful when `has_next`).
pub open spec fn next_col(b: Seq<Seq<bool>>, col: int) -> int {
    if col < b.len() - 1 {
        col + 1
    } else {
        0
    }
}

/// The board with one more queen at `(r, c)`.
pub open spec fn place(b: Seq<Seq<bool>>, r: int, c: int) -> Seq<Seq<bool>> {
    b.update(r, b[r].update(c, true))
}

/// Bound on the remaining search depth: how many columns are left before
/// the generation order runs out, counting the single wrap to column 0
/// while that column is still free.
pub open spec fn q_measure(b: Seq<Seq<bool>>, col: int) -> nat {
    ((b.len() - col) + if col0_empty(b) {
        b.len() as int
    } else {
        0
    }) as nat
}

/// Placing a queen in the generation column strictly shrinks the measure.
pub proof fn lemma_next_measure(b: Seq<Seq<bool>>, col: int, r: int)
    requires
        board_wf(b),
        0 <= col < b.len(),
        0 <= r < b.len(),
        has_next(b, col),
    ensures
        q_measure(place(b, r, next_col(b, col)), next_col(b, col)) < q_measure(b, col),
{
    let nc = next_col(b, col);
    let b2 = place(b, r, nc);
    assert(b2.len() == b.len());
    if col < b.len() - 1 {
        assert(nc == col + 1 && nc >= 1);
        assert forall|i: int| 0 <= i < b2.len() implies b2[i][0] == b[i][0] by {
            if i == r {
                assert(b2[r] == b[r].update(nc, true));
            }
        }
        if col0_empty(b) {
            assert(col0_empty(b2));
        } else {
            let w = choose|i: int| 0 <= i < b.len() && b[i][0];
            assert(b2[w][0]);
            assert(!col0_empty(b2));
        }
    } else {
        assert(nc == 0 && col0_empty(b));
        assert(b2[r] == b[r].update(0, true));
        assert(b2[r][0]);
        assert(!col0_empty(b2));
        assert(q_measure(b2, 0) == b.len());
        assert(q_measure(b, col) == 1 + b.len());
    }
}

/// Whether a depth-first search from this board state, pruning invalid
/// placements, can reach a goal. Mirrors exactly the tree the engine
/// walks: one column per step, `b.len()` candidate rows.
pub open spec fn board_solvable(b: Seq<Seq<bool>>, row: int, col: int) -> bool
    decreases q_measure(b, col),
        when board_wf(b) && 0 <= row < b.len() && 0 <= col < b.len()
{
    proof {
        if board_wf(b) && 0 <= col < b.len() && has_next(b, col) {
            assert forall|r: int| 0 <= r < b.len() implies q_measure(
                place(b, r, next_col(b, col)),
                next_col(b, col),
            ) < q_measure(b, col) by {
                lemma_next_measure(b, col, r);
            }
        }
    }
    ||| board_goal(b, row, col)
    ||| (has_next(b, col) && exists|r: int|
        0 <= r < b.len() && board_valid(place(b, r, next_col(b, col)), r, next_col(b, col))
            && board_solvable(place(b, r, next_col(b, col)), r, next_col(b, col)))
}

impl QueensConfig {
    /// Abstract view of the board.
    pub open spec fn board(&self) -> Seq<Seq<bool>> {
        Seq::new(self.map@.len(), |i: int| self.map@[i]@)
    }

    /// Board side length.
    pub open spec fn side(&self) -> int {
        self.board().len() as int
    }

    /// Create a new config for an `n` by `n` board with a single queen in
    /// the specified row and column.
    pub fn new(n: usize, row: usize, col: usize) -> (c: QueensConfig)
        requires
            1 <= n,
            2 * n <= usize::MAX,
            row < n,
            col < n,
        ensures
            c.wf(),
            c.inv(),
            c.spec_valid(),
            c.side() == n,
            c.row == row,
            c.col == col,
            forall|r: int, k: int|
                0 <= r < n && 0 <= k < n ==> (#[trigger] c.board()[r][k] <==> (r == row && k
                    == col)),
    {
        let mut map: Vec<Vec<bool>> = Vec::new();
        let mut r: usize = 0;
        while r < n
            invariant
                r <= n,
                map@.len() == r,
                forall|i: int| 0 <= i < r ==> (#[trigger] map@[i])@.len() == n,
                forall|i: int, j: int|
                    0 <= i < r && 0 <= j < n ==> !(#[trigger] map@[i]@[j]),
            decreases n - r,
        {
            let mut line: Vec<bool> = Vec::new();
            let mut k: usize = 0;
            while k < n
                invariant
                    k <= n,
                    line@.len() == k,
                    forall|j: int| 0 <= j < k ==> !(#[trigger] line@[j]),
                decreases n - k,
            {
                line.push(false);
                k += 1;
            }
            map.push(line);
            r += 1;
        }
        // Start with one queen
        let mut start_row: Vec<bool> = copy_row(&map[row]);
        start_row.set(col, true);
        map.set(row, start_row);
        let c = QueensConfig { map, row, col };
        proof {
            assert forall|i: int, j: int|
                0 <= i < n && 0 <= j < n implies (#[trigger] c.board()[i][j] <==> (i == row as int
                && j == col as int)) by {
                assert(c.board()[i] == c.map@[i]@);
            }
            assert(c.wf());
            assert(c.inv());
            assert(c.spec_valid());
        }
        c
    }

    /// Create a new config using the map of the old config, with a new
    /// queen in the specified row and column.
    fn from(old_config: &QueensConfig, row: usize, col: usize) -> (c: QueensConfig)
        requires
            old_config.wf(),
            row < old_config.side(),
            col < old_config.side(),
        ensures
            c.board() == place(old_config.board(), row as int, col as int),
            c.row == row,
            c.col == col,
    {
        proof {
            assert(old_config.board()[row as int] == old_config.map@[row as int]@);
        }
        let mut new_map = copy_board(&old_config.map);
        let mut line: Vec<bool> = copy_row(&new_map[row]);
        line.set(col, true);
        new_map.set(row, line);
        let c = QueensConfig { map: new_map, row, col };
        proof {
            let b2 = place(old_config.board(), row as int, col as int);
            assert forall|i: int| 0 <= i < c.board().len() implies c.board()[i] == b2[i] by {
                assert(c.board()[i] == c.map@[i]@);
            }
            assert(c.board() =~= b2);
        }
        c
    }
}

/// `child` is `parent` with one more queen, placed in row `r` of the
/// column the generation order moves to next.
pub open spec fn placement(parent: &QueensConfig, child: QueensConfig, r: int) -> bool {
    let nc = next_col(parent.board(), parent.col as int);
    &&& child.board() == place(parent.board(), r, nc)
    &&& child.row as int == r
    &&& child.col as int == nc
}

/// Cells on either diagonal through `(row, col)` in board line `j` are
/// free (whenever they lie on the board).
spec fn diag_clear(b: Seq<Seq<bool>>, row: int, col: int, j: int) -> bool {
    &&& (0 <= col - row + j < b.len() ==> !b[j][col - row + j])
    &&& (0 <= col + row - j < b.len() ==> !b[j][col + row - j])
}

/// Adding a queen that the local validity check accepts keeps the whole
/// board free of threats.
proof fn lemma_safe_step(b: Seq<Seq<bool>>, r: int, c: int)
    requires
        board_wf(b),
        0 <= r < b.len(),
        0 <= c < b.len(),
        all_safe(b),
        board_valid(place(b, r, c), r, c),
    ensures
        all_safe(place(b, r, c)),
{
    let b2 = place(b, r, c);
    assert forall|x: int, y: int|
        0 <= x < b2.len() && 0 <= y < b2.len() implies #[trigger] b2[x][y] == (b[x][y] || (x == r
        && y == c)) by {
        if x == r {
            assert(b2[x] == b[x].update(c, true));
        }
    }
    assert forall|r1: int, c1: int, r2: int, c2: int|
        0 <= r1 < b2.len() && 0 <= c1 < b2.len() && 0 <= r2 < b2.len() && 0 <= c2 < b2.len()
            && #[trigger] b2[r1][c1] && #[trigger] b2[r2][c2] && !(r1 == r2 && c1 == c2) implies
        !attacks(r1, c1, r2, c2) by {
        if r1 == r && c1 == c {
            if !(r2 == r && c2 == c) {
                assert(b2[r2][c2] && b[r2][c2]);
                assert(!attacks(r, c, r2, c2));
            }
        } else if r2 == r && c2 == c {
            assert(b[r1][c1]);
            assert(!attacks(r, c, r1, c1));
        } else {
            assert(b[r1][c1] && b[r2][c2]);
        }
    }
}

impl Config for QueensConfig {
    open spec fn wf(&self) -> bool {
        &&& board_wf(self.board())
        &&& (self.row as int) < self.side()
        &&& (self.col as int) < self.side()
    }

    open spec fn measure(&self) -> nat {
        q_measure(self.board(), self.col as int)
    }

    open spec fn inv(&self) -> bool {
        all_safe(self.board())
    }

    open spec fn extends(&self, ancestor: &Self) -> bool {
        &&& self.side() == ancestor.side()
        &&& forall|r: int, c: int|
            0 <= r < ancestor.side() && 0 <= c < ancestor.side()
                && #[trigger] ancestor.board()[r][c] ==> self.board()[r][c]
    }

    open spec fn spec_valid(&self) -> bool {
        board_valid(self.board(), self.row as int, self.col as int)
    }

    open spec fn spec_goal(&self) -> bool {
        board_goal(self.board(), self.row as int, self.col as int)
    }

    open spec fn spec_solvable(&self) -> bool {
        board_solvable(self.board(), self.row as int, self.col as int)
    }

    open spec fn successors_post(&self, succs: Seq<Self>) -> bool {
        if has_next(self.board(), self.col as int) {
            &&& succs.len() == self.side()
            &&& forall|r: int| 0 <= r < succs.len() ==> placement(self, #[trigger] succs[r], r)
        } else {
            succs.len() == 0
        }
    }

    /// Get all the successive configs from the current config. The new
    /// configs have queens positioned in the next column, wrapping around
    /// to column 0 only while that column is still free.
    #[verifier::loop_isolation(false)]
    fn successors(&self) -> (succs: Vec<QueensConfig>) {
        let ghost b = self.board();
        let n = self.map.len();
        proof {
            assert forall|x: int| 0 <= x < n implies (#[trigger] self.map@[x])@.len() == n by {
                assert(b[x] == self.map@[x]@);
            }
        }
        // Get the next column to generate successors in
        let new_col: usize;
        if self.col == n - 1 {
            // At the right edge: wrap back only if the left-most column
            // holds no queen in any row
            let mut r: usize = 0;
            while r < n
                invariant
                    r <= n,
                    forall|j: int| 0 <= j < r ==> !(#[trigger] b[j][0]),
                decreases n - r,
            {
                if self.map[r][0] {
                    proof {
                        assert(b[r as int][0]);
                        assert(!has_next(b, self.col as int));
                    }
                    return Vec::new();
                }
                r += 1;
            }
            assert(col0_empty(b));
            new_col = 0;
        } else {
            // Keep moving right
            new_col = self.col + 1;
        }
        proof {
            assert(has_next(b, self.col as int));
            assert(new_col as int == next_col(b, self.col as int));
        }
        // Create the successors, one per row
        let mut succs: Vec<QueensConfig> = Vec::new();
        let mut row: usize = 0;
        while row < n
            invariant
                row <= n,
                succs@.len() == row,
                forall|i: int| 0 <= i < row ==> placement(self, #[trigger] succs@[i], i),
            decreases n - row,
        {
            succs.push(QueensConfig::from(self, row, new_col));
            row += 1;
        }
        proof {
            let nc = next_col(b, self.col as int);
            assert forall|i: int|
                0 <= i < succs@.len() implies (#[trigger] succs@[i]).wf() && succs@[i].measure()
                < self.measure() && succs@[i].extends(self) by {
                let child = succs@[i];
                assert(placement(self, child, i));
                assert(child.board() == place(b, i, nc));
                assert forall|x: int|
                    0 <= x < child.board().len() implies (#[trigger] child.board()[x]).len()
                    == child.board().len() by {
                    if x == i {
                        assert(child.board()[x] == b[x].update(nc, true));
                    }
                }
                lemma_next_measure(b, self.col as int, i);
                assert forall|rr: int, cc: int|
                    0 <= rr < n && 0 <= cc < n && #[trigger] b[rr][cc] implies
                    child.board()[rr][cc] by {
                    if rr == i {
                        assert(child.board()[i] == b[i].update(nc, true));
                    }
                }
            }
        }
        succs
    }

    /// Check if the config is valid. This assumes past queens are valid,
    /// and only checks the most recently added queen against the others.
    #[verifier::loop_isolation(false)]
    fn is_valid(&self) -> (r: bool) {
        let ghost b = self.board();
        let ghost qrow = self.row as int;
        let ghost qcol = self.col as int;
        let n = self.map.len();
        proof {
            assert forall|x: int| 0 <= x < n implies (#[trigger] self.map@[x])@.len() == n by {
                assert(b[x] == self.map@[x]@);
            }
        }
        // Check vertical
        let mut i: usize = 0;
        while i < n
            invariant
                i <= n,
                forall|j: int| 0 <= j < i && j != qrow ==> !(#[trigger] b[j][qcol]),
            decreases n - i,
        {
            if i != self.row && self.map[i][self.col] {
                proof {
                    assert(b[i as int][qcol]);
                    assert(attacks(qrow, qcol, i as int, qcol));
                }
                return false;
            }
            i += 1;
        }
        // Check horizontal
        let mut j: usize = 0;
        while j < n
            invariant
                j <= n,
                forall|k: int| 0 <= k < j && k != qcol ==> !(#[trigger] b[qrow][k]),
            decreases n - j,
        {
            if j != self.col && self.map[self.row][j] {
                proof {
                    assert(b[qrow][j as int]);
                    assert(attacks(qrow, qcol, qrow, j as int));
                }
                return false;
            }
            j += 1;
        }
        // Check diagonals
        let mut k: usize = 0;
        while k < n
            invariant
                k <= n,
                forall|j2: int| 0 <= j2 < k && j2 != qrow ==> diag_clear(b, qrow, qcol, j2),
            decreases n - k,
        {
            if k != self.row {
                // The cell of the first diagonal in this line, if it is
                // on the board
                if self.col + k >= self.row {
                    let d1 = self.col + k - self.row;
                    if d1 < n && self.map[k][d1] {
                        proof {
                            assert(b[k as int][d1 as int]);
                            assert(attacks(qrow, qcol, k as int, d1 as int));
                        }
                        return false;
                    }
                }
                // The cell of the second diagonal in this line
                if self.col + self.row >= k {
                    let d2 = self.col + self.row - k;
                    if d2 < n && self.map[k][d2] {
                        proof {
                            assert(b[k as int][d2 as int]);
                            assert(attacks(qrow, qcol, k as int, d2 as int));
                        }
                        return false;
                    }
                }
            }
            k += 1;
        }
        proof {
            assert forall|r2: int, c2: int|
                0 <= r2 < n && 0 <= c2 < n && #[trigger] b[r2][c2] && !(r2 == qrow && c2 == qcol)
                    implies !attacks(qrow, qcol, r2, c2) by {
                if attacks(qrow, qcol, r2, c2) {
                    if r2 == qrow {
                        assert(!b[qrow][c2]);
                    } else if c2 == qcol {
                        assert(!b[r2][qcol]);
                    } else if qrow + qcol == r2 + c2 {
                        assert(c2 == qcol + qrow - r2);
                        assert(diag_clear(b, qrow, qcol, r2));
                    } else {
                        assert(c2 == qcol - qrow + r2);
                        assert(diag_clear(b, qrow, qcol, r2));
                    }
                }
            }
        }
        true
    }

    /// Check if the config is the final/goal config: it must be valid and
    /// have a queen in each row.
    #[verifier::loop_isolation(false)]
    fn is_goal(&self) -> (r: bool) {
        // Has to be valid
        if !self.is_valid() {
            return false;
        }
        let ghost b = self.board();
        let n = self.map.len();
        proof {
            assert forall|x: int| 0 <= x < n implies (#[trigger] self.map@[x])@.len() == n by {
                assert(b[x] == self.map@[x]@);
            }
        }
        // Check for a queen in each row
        let mut row: usize = 0;
        while row < n
            invariant
                row <= n,
                forall|i: int| 0 <= i < row ==> row_occupied(b, i),
            decreases n - row,
        {
            let mut col: usize = 0;
            let mut found = false;
            while col < n
                invariant
                    col <= n,
                    found ==> row_occupied(b, row as int),
                    !found ==> forall|j: int| 0 <= j < col ==> !(#[trigger] b[row as int][j]),
                decreases n - col,
            {
                if self.map[row][col] {
                    proof {
                        assert(b[row as int][col as int]);
                    }
                    found = true;
                }
                col += 1;
            }
            if !found {
                proof {
                    assert(!row_occupied(b, row as int));
                }
                return false;
            }
            row += 1;
        }
        true
    }

    proof fn goal_ok(&self) {
        assert(board_solvable(self.board(), self.row as int, self.col as int));
    }

    proof fn step_solvable(&self, succs: Seq<Self>, i: int) {
        let b = self.board();
        let col = self.col as int;
        if !has_next(b, col) {
            assert(succs.len() == 0);
        }
        let nc = next_col(b, col);
        let child = succs[i];
        assert(placement(self, child, i));
        assert(board_valid(place(b, i, nc), i, nc));
        assert(board_solvable(place(b, i, nc), i, nc));
        assert(exists|r: int|
            0 <= r < b.len() && board_valid(place(b, r, nc), r, nc) && board_solvable(
                place(b, r, nc),
                r,
                nc,
            ));
        assert(board_solvable(b, self.row as int, col));
    }

    proof fn exhausted_unsolvable(&self, succs: Seq<Self>) {
        let b = self.board();
        let row = self.row as int;
        let col = self.col as int;
        if board_solvable(b, row, col) {
            assert(has_next(b, col));
            let nc = next_col(b, col);
            let r = choose|r: int|
                0 <= r < b.len() && board_valid(place(b, r, nc), r, nc) && board_solvable(
                    place(b, r, nc),
                    r,
                    nc,
                );
            assert(placement(self, succs[r], r));
            assert(succs[r].spec_valid());
            assert(succs[r].spec_solvable());
            assert(false);
        }
    }

    proof fn step_inv(&self, succs: Seq<Self>, i: int) {
        let b = self.board();
        let col = self.col as int;
        if !has_next(b, col) {
            assert(succs.len() == 0);
        }
        let nc = next_col(b, col);
        let child = succs[i];
        assert(placement(self, child, i));
        lemma_safe_step(b, i, nc);
    }

    proof fn extends_refl(&self) {
    }

    proof fn extends_trans(x: Self, y: Self, z: Self) {
        assert forall|r: int, c: int|
            0 <= r < x.side() && 0 <= c < x.side() && #[trigger] x.board()[r][c] implies
            z.board()[r][c] by {
            assert(y.board()[r][c]);
        }
    }
}

/// Column `c` holds at least one queen.
pub open spec fn col_occupied(b: Seq<Seq<bool>>, c: int) -> bool {
    exists|r: int| 0 <= r < b.len() && #[trigger] b[r][c]
}

/// Placing a queen anywhere on a well-formed board keeps it well-formed.
proof fn lemma_place_wf(b: Seq<Seq<bool>>, r: int, c: int)
    requires
        board_wf(b),
        0 <= r < b.len(),
        0 <= c < b.len(),
    ensures
        board_wf(place(b, r, c)),
        place(b, r, c).len() == b.len(),
{
    let b2 = place(b, r, c);
    assert forall|x: int| 0 <= x < b2.len() implies (#[trigger] b2[x]).len() == b2.len() by {
        if x == r {
            assert(b2[x] == b[x].update(c, true));
        }
    }
}

/// The column of the queen standing in row `r` (meaningful when the row
/// holds one).
spec fn queen_col(b: Seq<Seq<bool>>, r: int) -> int {
    choose|c: int| 0 <= c < b.len() && #[trigger] b[r][c]
}

/// The set of columns used by the queens of the first `k` rows.
spec fn cols_used(b: Seq<Seq<bool>>, k: int) -> Set<int>
    decreases k,
{
    if k <= 0 {
        Set::empty()
    } else {
        cols_used(b, k - 1).insert(queen_col(b, k - 1))
    }
}

/// On a threat-free board with a queen in each of the first `k` rows,
/// those queens use `k` distinct columns.
proof fn lemma_cols_used(b: Seq<Seq<bool>>, k: int)
    requires
        board_wf(b),
        all_safe(b),
        forall|r: int| 0 <= r < b.len() ==> row_occupied(b, r),
        0 <= k <= b.len(),
    ensures
        cols_used(b, k).finite(),
        cols_used(b, k).len() == k,
        forall|c: int| #[trigger]
            cols_used(b, k).contains(c) ==> 0 <= c < b.len() && exists|r: int|
                0 <= r < k && #[trigger] b[r][c],
    decreases k,
{
    if k > 0 {
        lemma_cols_used(b, k - 1);
        assert(row_occupied(b, k - 1));
        let qc = queen_col(b, k - 1);
        assert(0 <= qc < b.len() && b[k - 1][qc]);
        if cols_used(b, k - 1).contains(qc) {
            let r0 = choose|r: int| 0 <= r < k - 1 && #[trigger] b[r][qc];
            assert(b[r0][qc] && b[k - 1][qc]);
            assert(attacks(r0, qc, k - 1, qc));
            assert(false);
        }
        assert(cols_used(b, k) == cols_used(b, k - 1).insert(qc));
        assert forall|c: int| #[trigger]
            cols_used(b, k).contains(c) implies 0 <= c < b.len() && exists|r: int|
            0 <= r < k && #[trigger] b[r][c] by {
            if c == qc {
                assert(b[k - 1][c]);
            } else {
                assert(cols_used(b, k - 1).contains(c));
            }
        }
    }
}

/// Structure of any threat-free goal board: every row and every column
/// holds exactly one queen, and no two queens share a diagonal.
proof fn lemma_goal_structure_board(b: Seq<Seq<bool>>, row: int, col: int)
    requires
        board_wf(b),
        0 <= row < b.len(),
        0 <= col < b.len(),
        all_safe(b),
        board_goal(b, row, col),
    ensures
        forall|r: int| 0 <= r < b.len() ==> row_occupied(b, r),
        forall|y: int| 0 <= y < b.len() ==> col_occupied(b, y),
        forall|r: int, y1: int, y2: int|
            0 <= r < b.len() && 0 <= y1 < b.len() && 0 <= y2 < b.len() && #[trigger] b[r][y1]
                && #[trigger] b[r][y2] ==> y1 == y2,
        forall|x1: int, x2: int, y: int|
            0 <= x1 < b.len() && 0 <= x2 < b.len() && 0 <= y < b.len() && #[trigger] b[x1][y]
                && #[trigger] b[x2][y] ==> x1 == x2,
        forall|x1: int, y1: int, x2: int, y2: int|
            0 <= x1 < b.len() && 0 <= y1 < b.len() && 0 <= x2 < b.len() && 0 <= y2 < b.len()
                && #[trigger] b[x1][y1] && #[trigger] b[x2][y2] && !(x1 == x2 && y1 == y2)
                ==> x1 + y1 != x2 + y2 && x1 - y1 != x2 - y2,
{
    let n = b.len() as int;
    assert forall|r: int, y1: int, y2: int|
        0 <= r < n && 0 <= y1 < n && 0 <= y2 < n && #[trigger] b[r][y1] && #[trigger] b[r][y2]
            implies y1 == y2 by {
        if y1 != y2 {
            assert(attacks(r, y1, r, y2));
        }
    }
    assert forall|x1: int, x2: int, y: int|
        0 <= x1 < n && 0 <= x2 < n && 0 <= y < n && #[trigger] b[x1][y] && #[trigger] b[x2][y]
            implies x1 == x2 by {
        if x1 != x2 {
            assert(attacks(x1, y, x2, y));
        }
    }
    // Pigeonhole: the rows' queens use all the board's columns.
    lemma_cols_used(b, n);
    lemma_int_range(0, n);
    assert forall|y: int| 0 <= y < n implies col_occupied(b, y) by {
        if !cols_used(b, n).contains(y) {
            assert forall|c: int| #[trigger]
                cols_used(b, n).contains(c) implies set_int_range(0, n).remove(y).contains(
                c,
            ) by {}
            lemma_len_subset(cols_used(b, n), set_int_range(0, n).remove(y));
            assert(set_int_range(0, n).remove(y).len() == n - 1);
            assert(false);
        }
        let r = choose|r: int| 0 <= r < n && #[trigger] b[r][y];
        assert(b[r][y]);
    }
}

/// In any goal configuration reached from a threat-free start, every row
/// and every column holds exactly one queen and no two queens share a
/// diagonal: the classic N-Queens solution invariant.
pub proof fn lemma_goal_structure(cfg: QueensConfig)
    requires
        cfg.wf(),
        cfg.inv(),
        cfg.spec_goal(),
    ensures
        forall|r: int| 0 <= r < cfg.side() ==> row_occupied(cfg.board(), r),
        forall|y: int| 0 <= y < cfg.side() ==> col_occupied(cfg.board(), y),
        forall|r: int, y1: int, y2: int|
            0 <= r < cfg.side() && 0 <= y1 < cfg.side() && 0 <= y2 < cfg.side()
                && #[trigger] cfg.board()[r][y1] && #[trigger] cfg.board()[r][y2] ==> y1 == y2,
        forall|x1: int, x2: int, y: int|
            0 <= x1 < cfg.side() && 0 <= x2 < cfg.side() && 0 <= y < cfg.side()
                && #[trigger] cfg.board()[x1][y] && #[trigger] cfg.board()[x2][y] ==> x1 == x2,
        forall|x1: int, y1: int, x2: int, y2: int|
            0 <= x1 < cfg.side() && 0 <= y1 < cfg.side() && 0 <= x2 < cfg.side() && 0 <= y2
                < cfg.side() && #[trigger] cfg.board()[x1][y1] && #[trigger] cfg.board()[x2][y2]
                && !(x1 == x2 && y1 == y2) ==> x1 + y1 != x2 + y2 && x1 - y1 != x2 - y2,
{
    lemma_goal_structure_board(cfg.board(), cfg.row as int, cfg.col as int);
}

/// The search preserves freedom from threats, so from a threat-free
/// position it can only ever reach a threat-free goal board of the same
/// size.
proof fn lemma_solvable_reaches_goal(b: Seq<Seq<bool>>, row: int, col: int)
    requires
        board_wf(b),
        0 <= row < b.len(),
        0 <= col < b.len(),
        all_safe(b),
        board_solvable(b, row, col),
    ensures
        exists|g: Seq<Seq<bool>>, r: int, c: int|
            board_wf(g) && g.len() == b.len() && 0 <= r < g.len() && 0 <= c < g.len() && all_safe(
                g,
            ) && #[trigger] board_goal(g, r, c),
    decreases q_measure(b, col),
{
    if board_goal(b, row, col) {
        assert(board_goal(b, row, col));
    } else {
        let nc = next_col(b, col);
        let r0 = choose|r: int|
            0 <= r < b.len() && board_valid(place(b, r, nc), r, nc) && board_solvable(
                place(b, r, nc),
                r,
                nc,
            );
        lemma_place_wf(b, r0, nc);
        lemma_safe_step(b, r0, nc);
        lemma_next_measure(b, col, r0);
        lemma_solvable_reaches_goal(place(b, r0, nc), r0, nc);
    }
}

/// Boards of side 2 or 3 admit no solution: from any threat-free
/// position on such a board the search must report failure.
pub proof fn lemma_small_board_unsolvable(cfg: QueensConfig)
    requires
        cfg.wf(),
        cfg.inv(),
        2 <= cfg.side() <= 3,
    ensures
        !cfg.spec_solvable(),
{
    if cfg.spec_solvable() {
        lemma_solvable_reaches_goal(cfg.board(), cfg.row as int, cfg.col as int);
        let (g, r, c) = choose|g: Seq<Seq<bool>>, r: int, c: int|
            board_wf(g) && g.len() == cfg.board().len() && 0 <= r < g.len() && 0 <= c < g.len()
                && all_safe(g) && #[trigger] board_goal(g, r, c);
        // A goal needs a queen in each row, yet on a small board the
        // queens of any two rows always threaten each other somewhere.
        let n = g.len() as int;
        assert(row_occupied(g, 0));
        assert(row_occupied(g, 1));
        let q0 = choose|y: int| 0 <= y < g.len() && #[trigger] g[0][y];
        let q1 = choose|y: int| 0 <= y < g.len() && #[trigger] g[1][y];
        assert(g[0][q0] && g[1][q1]);
        assert(!attacks(0, q0, 1, q1));
        if n == 2 {
            assert(false);
        } else {
            assert(row_occupied(g, 2));
            let q2 = choose|y: int| 0 <= y < g.len() && #[trigger] g[2][y];
            assert(g[2][q2]);
            assert(!attacks(0, q0, 2, q2));
            assert(!attacks(1, q1, 2, q2));
            assert(false);
        }
    }
}

/// Glyphs of one board line: `Q` for a queen, `-` for a free cell, every
/// cell followed by a space.
pub open spec fn row_glyphs(line: Seq<bool>) -> Seq<char>
    decreases line.len(),
{
    if line.len() == 0 {
        Seq::empty()
    } else {
        row_glyphs(line.drop_last()) + seq![
            if line.last() {
                'Q'
            } else {
                '-'
            },
            ' ',
        ]
    }
}

/// Glyphs of the whole board, one line per row.
pub open spec fn board_glyphs(b: Seq<Seq<bool>>) -> Seq<char>
    decreases b.len(),
{
    if b.len() == 0 {
        Seq::empty()
    } else {
        board_glyphs(b.drop_last()) + row_glyphs(b.last()) + seq!['\n']
    }
}

impl QueensConfig {
    /// Display the board as a grid of `Q` and `-` glyphs, one line per
    /// row, space-separated.
    #[verifier::loop_isolation(false)]
    pub fn render(&self) -> (r: Vec<char>)
        ensures
            r@ == board_glyphs(self.board()),
    {
        let ghost b = self.board();
        let mut out: Vec<char> = Vec::new();
        let n = self.map.len();
        let mut i: usize = 0;
        while i < n
            invariant
                i <= n,
                out@ == board_glyphs(b.take(i as int)),
            decreases n - i,
        {
            let m = self.map[i].len();
            let mut j: usize = 0;
            while j < m
                invariant
                    j <= m,
                    out@ == board_glyphs(b.take(i as int)) + row_glyphs(b[i as int].take(j as int)),
                decreases m - j,
            {
                if self.map[i][j] {
                    out.push('Q');
                } else {
                    out.push('-');
                }
                out.push(' ');
                proof {
                    assert(b[i as int].take(j as int + 1).drop_last() =~= b[i as int].take(
                        j as int,
                    ));
                    assert(b[i as int].take(j as int + 1).last() == b[i as int][j as int]);
                    assert(out@ =~= board_glyphs(b.take(i as int)) + row_glyphs(b[i as int].take(
                        j as int + 1,
                    )));
                }
                j += 1;
            }
            out.push('\n');
            proof {
                assert(b[i as int].take(b[i as int].len() as int) =~= b[i as int]);
                assert(b.take(i as int + 1).drop_last() =~= b.take(i as int));
                assert(b.take(i as int + 1).last() == b[i as int]);
                assert(out@ =~= board_glyphs(b.take(i as int + 1)));
            }
            i += 1;
        }
        proof {
            assert(b.take(b.len() as int) =~= b);
        }
        out
    }
}

/// A fresh copy of one board line.
fn copy_row(v: &Vec<bool>) -> (r: Vec<bool>)
    ensures
        r@ == v@,
{
    let mut r: Vec<bool> = Vec::new();
    let mut i: usize = 0;
    while i < v.len()
        invariant
            i <= v@.len(),
            r@ == v@.take(i as int),
        decreases v@.len() - i,
    {
        r.push(v[i]);
        i += 1;
    }
    proof {
        assert(v@.take(v@.len() as int) =~= v@);
    }
    r
}

/// A fresh deep copy of a whole board.
fn copy_board(m: &Vec<Vec<bool>>) -> (r: Vec<Vec<bool>>)
    ensures
        r@.len() == m@.len(),
        forall|i: int| 0 <= i < m@.len() ==> (#[trigger] r@[i])@ == m@[i]@,
{
    let mut r: Vec<Vec<bool>> = Vec::new();
    let mut i: usize = 0;
    while i < m.len()
        invariant
            i <= m@.len(),
            r@.len() == i,
            forall|j: int| 0 <= j < i ==> (#[trigger] r@[j])@ == m@[j]@,
        decreases m@.len() - i,
    {
        r.push(copy_row(&m[i]));
        i += 1;
    }
    r
}

} // verus!
