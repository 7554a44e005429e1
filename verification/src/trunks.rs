use vstd::prelude::*;
use vstd::arithmetic::div_mod::lemma_fundamental_div_mod_converse_div;
use vstd::arithmetic::div_mod::lemma_fundamental_div_mod_converse_mod;
use vstd::pervasive::VecAdditionalExecFns;
use crate::backtracker::Config;

verus! {

/// Default cell char which designates an empty cell
pub const DEFAULT_CELL: char = '-';

/// This struct holds data about a suitcase which will be added to a Trunk
#[derive(Debug, Clone, Copy, PartialEq, Eq, Structural)]
pub struct Suitcase {
    pub width: usize,
    pub height: usize,
    pub name: char,
}

impl Suitcase {
    /// A suitcase that fits the model: positive sides, and a label that
    /// cannot be mistaken for an empty cell.
    pub open spec fn wf(&self) -> bool {
        &&& self.width >= 1
        &&& self.height >= 1
        &&& self.name != DEFAULT_CELL
    }

    /// Number of grid cells the suitcase covers.
    pub open spec fn area(&self) -> int {
        self.width * self.height
    }

    /// The suitcase rotated by 90 degrees.
    pub open spec fn spec_flip(&self) -> Suitcase {
        Suitcase { width: self.height, height: self.width, name: self.name }
    }

    /// Get a new suitcase flipped by 90 degrees
    fn flip(&self) -> (s: Suitcase)
        ensures
            s == self.spec_flip(),
    {
        Suitcase { width: self.height, height: self.width, name: self.name }
    }
}

/// This struct holds the configuration of a step in solving the Trunks
/// problem: a grid of cells, each one empty or holding the label of the
/// suitcase standing on it, and the suitcases still to be placed, kept
/// sorted ascending by area so the largest is taken from the end.
pub struct Trunk {
    pub width: usize,
    pub height: usize,
    pub grid: Vec<Vec<char>>,
    pub suitcases_remaining: Vec<Suitcase>,
}

/// Abstract view of a grid held as a vector of lines.
pub open spec fn view_grid(g: Seq<Vec<char>>) -> Seq<Seq<char>> {
    Seq::new(g.len(), |i: int| g[i]@)
}

/// A suitcase of size `w` by `h` fits at `(row, col)`: its footprint lies
/// within the grid bounds and covers only empty cells.
pub open spec fn fits(
    g: Seq<Seq<char>>,
    width: int,
    row: int,
    col: int,
    w: int,
    h: int,
) -> bool {
    &&& 0 <= row
    &&& 0 <= col
    &&& row + h <= g.len()
    &&& col + w <= width
    &&& forall|i: int, j: int|
        row <= i < row + h && col <= j < col + w ==> #[trigger] g[i][j] == DEFAULT_CELL
}

/// One grid line with the cells of `[col, col + w)` overwritten by `name`.
pub open spec fn stamp_row(line: Seq<char>, col: int, w: int, name: char) -> Seq<char> {
    Seq::new(
        line.len(),
        |j: int|
            if col <= j < col + w {
                name
            } else {
                line[j]
            },
    )
}

/// The grid with a `w` by `h` rectangle of `name` stamped at `(row, col)`.
pub open spec fn stamp(
    g: Seq<Seq<char>>,
    row: int,
    col: int,
    w: int,
    h: int,
    name: char,
) -> Seq<Seq<char>> {
    Seq::new(
        g.len(),
        |i: int|
            if row <= i < row + h {
                stamp_row(g[i], col, w, name)
            } else {
                g[i]
            },
    )
}

/// The current suitcase (the last remaining one) in the orientation a
/// move selects.
pub open spec fn oriented(items: Seq<Suitcase>, flipped: bool) -> Suitcase {
    if flipped {
        items.last().spec_flip()
    } else {
        items.last()
    }
}

/// A move is possible: there is a suitcase left, a flipped move is only
/// offered for non-square suitcases, and the chosen orientation fits.
pub open spec fn placement_ok(
    g: Seq<Seq<char>>,
    width: int,
    items: Seq<Suitcase>,
    row: int,
    col: int,
    flipped: bool,
) -> bool {
    let s = oriented(items, flipped);
    &&& items.len() > 0
    &&& (flipped ==> items.last().width != items.last().height)
    &&& fits(g, width, row, col, s.width as int, s.height as int)
}

/// The grid after carrying out a move.
pub open spec fn place_item(
    g: Seq<Seq<char>>,
    items: Seq<Suitcase>,
    row: int,
    col: int,
    flipped: bool,
) -> Seq<Seq<char>> {
    let s = oriented(items, flipped);
    stamp(g, row, col, s.width as int, s.height as int, s.name)
}

/// Whether all remaining suitcases can be placed, taking them from the
/// end of the sequence one at a time. This is precisely the tree the
/// search engine explores.
pub open spec fn packable(g: Seq<Seq<char>>, width: int, items: Seq<Suitcase>) -> bool
    decreases items.len(),
{
    if items.len() == 0 {
        true
    } else {
        exists|row: int, col: int, flipped: bool|
            #[trigger] placement_ok(g, width, items, row, col, flipped) && packable(
                place_item(g, items, row, col, flipped),
                width,
                items.drop_last(),
            )
    }
}

/// The moves offered at one grid cell, unrotated before rotated.
pub open spec fn cell_moves(
    g: Seq<Seq<char>>,
    width: int,
    items: Seq<Suitcase>,
    row: int,
    col: int,
) -> Seq<(int, int, bool)> {
    (if placement_ok(g, width, items, row, col, false) {
        seq![(row, col, false)]
    } else {
        Seq::empty()
    }) + (if placement_ok(g, width, items, row, col, true) {
        seq![(row, col, true)]
    } else {
        Seq::empty()
    })
}

/// The moves offered at the first `k` grid cells, scanned in row-major
/// order.
pub open spec fn moves_up_to(
    g: Seq<Seq<char>>,
    width: int,
    items: Seq<Suitcase>,
    k: int,
) -> Seq<(int, int, bool)>
    decreases k,
{
    if k <= 0 {
        Seq::empty()
    } else {
        moves_up_to(g, width, items, k - 1) + cell_moves(
            g,
            width,
            items,
            (k - 1) / width,
            (k - 1) % width,
        )
    }
}

/// Number of occupied cells in one grid line.
pub open spec fn row_load(line: Seq<char>) -> int
    decreases line.len(),
{
    if line.len() == 0 {
        0
    } else {
        row_load(line.drop_last()) + if line.last() != DEFAULT_CELL {
            1int
        } else {
            0int
        }
    }
}

/// Number of occupied cells in the whole grid.
pub open spec fn grid_load(g: Seq<Seq<char>>) -> int
    decreases g.len(),
{
    if g.len() == 0 {
        0
    } else {
        grid_load(g.drop_last()) + row_load(g.last())
    }
}

/// Total area of a sequence of suitcases.
pub open spec fn items_area(items: Seq<Suitcase>) -> int
    decreases items.len(),
{
    if items.len() == 0 {
        0
    } else {
        items_area(items.drop_last()) + items.last().area()
    }
}

/// A sorted run with `x` inserted after every element whose area does not
/// exceed `x`'s, as a stable insertion sort does.
pub open spec fn insert_by_area(sorted: Seq<Suitcase>, x: Suitcase) -> Seq<Suitcase>
    decreases sorted.len(),
{
    if sorted.len() == 0 {
        seq![x]
    } else if x.area() < sorted.last().area() {
        insert_by_area(sorted.drop_last(), x).push(sorted.last())
    } else {
        sorted.push(x)
    }
}

/// The items sorted ascending by area, equal areas kept in input order.
pub open spec fn sort_items(items: Seq<Suitcase>) -> Seq<Suitcase>
    decreases items.len(),
{
    if items.len() == 0 {
        Seq::empty()
    } else {
        insert_by_area(sort_items(items.drop_last()), items.last())
    }
}

/// `child` is `parent` after carrying out the move `m`.
pub open spec fn is_move_result(parent: Trunk, child: Trunk, m: (int, int, bool)) -> bool {
    &&& placement_ok(parent.grid_at(), parent.width as int, parent.items(), m.0, m.1, m.2)
    &&& child.width == parent.width
    &&& child.height == parent.height
    &&& child.items() == parent.items().drop_last()
    &&& child.grid_at() == place_item(parent.grid_at(), parent.items(), m.0, m.1, m.2)
}

/// `succs` carries out exactly the moves of `ms`, in order.
pub open spec fn matches_moves(parent: Trunk, succs: Seq<Trunk>, ms: Seq<(int, int, bool)>) -> bool {
    &&& succs.len() == ms.len()
    &&& forall|i: int| 0 <= i < succs.len() ==> is_move_result(parent, #[trigger] succs[i], ms[i])
}

impl Trunk {
    /// Abstract view of the grid.
    pub open spec fn grid_at(&self) -> Seq<Seq<char>> {
        view_grid(self.grid@)
    }

    /// Abstract view of the remaining suitcases.
    pub open spec fn items(&self) -> Seq<Suitcase> {
        self.suitcases_remaining@
    }

    /// The full list of moves offered from this state, scanning the grid
    /// cells in row-major order.
    pub open spec fn spec_moves(&self) -> Seq<(int, int, bool)> {
        moves_up_to(
            self.grid_at(),
            self.width as int,
            self.items(),
            (self.height as int) * (self.width as int),
        )
    }
}

/// One grid line holds at most as many labels as cells, and none when
/// every cell is empty.
proof fn lemma_row_load_bounds(line: Seq<char>)
    ensures
        0 <= row_load(line) <= line.len(),
    decreases line.len(),
{
    if line.len() > 0 {
        lemma_row_load_bounds(line.drop_last());
    }
}

/// The grid holds at most as many labels as cells.
proof fn lemma_grid_load_bounds(g: Seq<Seq<char>>, width: int)
    requires
        0 <= width,
        forall|i: int| 0 <= i < g.len() ==> (#[trigger] g[i]).len() == width,
    ensures
        0 <= grid_load(g) <= g.len() * width,
    decreases g.len(),
{
    if g.len() == 0 {
        assert(g.len() * width == 0) by (nonlinear_arith)
            requires
                g.len() == 0,
        ;
    } else {
        lemma_grid_load_bounds(g.drop_last(), width);
        lemma_row_load_bounds(g.last());
        assert((g.len() - 1) * width + width == g.len() * width) by (nonlinear_arith);
    }
}

/// An all-empty line carries no load.
proof fn lemma_blank_row_load(line: Seq<char>)
    requires
        forall|j: int| 0 <= j < line.len() ==> #[trigger] line[j] == DEFAULT_CELL,
    ensures
        row_load(line) == 0,
    decreases line.len(),
{
    if line.len() > 0 {
        lemma_blank_row_load(line.drop_last());
    }
}

/// An all-empty grid carries no load.
proof fn lemma_blank_grid_load(g: Seq<Seq<char>>)
    requires
        forall|i: int, j: int|
            0 <= i < g.len() && 0 <= j < g[i].len() ==> #[trigger] g[i][j] == DEFAULT_CELL,
    ensures
        grid_load(g) == 0,
    decreases g.len(),
{
    if g.len() > 0 {
        lemma_blank_grid_load(g.drop_last());
        lemma_blank_row_load(g.last());
    }
}

/// Stamping a run of `w` labels over empty cells raises the line's load
/// by exactly `w`.
proof fn lemma_stamp_row_load(line: Seq<char>, col: int, w: int, name: char)
    requires
        0 <= col,
        0 <= w,
        col + w <= line.len(),
        name != DEFAULT_CELL,
        forall|j: int| col <= j < col + w ==> #[trigger] line[j] == DEFAULT_CELL,
    ensures
        row_load(stamp_row(line, col, w, name)) == row_load(line) + w,
    decreases line.len(),
{
    let s2 = stamp_row(line, col, w, name);
    if w == 0 {
        assert(s2 =~= line);
    } else {
        let l = line.len() - 1;
        if col + w <= l {
            assert(s2.last() == line[l]);
            assert(s2.drop_last() =~= stamp_row(line.drop_last(), col, w, name));
            lemma_stamp_row_load(line.drop_last(), col, w, name);
        } else {
            assert(l == col + w - 1);
            assert(s2.last() == name);
            assert(line[l] == DEFAULT_CELL);
            assert(s2.drop_last() =~= stamp_row(line.drop_last(), col, w - 1, name));
            lemma_stamp_row_load(line.drop_last(), col, w - 1, name);
        }
    }
}

/// Stamping a `w` by `h` rectangle over empty cells raises the grid's
/// load by exactly the rectangle's area.
proof fn lemma_stamp_load(
    g: Seq<Seq<char>>,
    width: int,
    row: int,
    col: int,
    w: int,
    h: int,
    name: char,
)
    requires
        forall|i: int| 0 <= i < g.len() ==> (#[trigger] g[i]).len() == width,
        0 <= row,
        0 <= col,
        0 <= w,
        0 <= h,
        row + h <= g.len(),
        col + w <= width,
        name != DEFAULT_CELL,
        forall|i: int, j: int|
            row <= i < row + h && col <= j < col + w ==> #[trigger] g[i][j] == DEFAULT_CELL,
    ensures
        grid_load(stamp(g, row, col, w, h, name)) == grid_load(g) + w * h,
    decreases g.len(),
{
    let g2 = stamp(g, row, col, w, h, name);
    if h == 0 {
        assert(g2 =~= g);
        assert(w * 0 == 0) by (nonlinear_arith);
    } else {
        let l = g.len() - 1;
        if row + h <= l {
            assert(g2.last() == g[l]);
            assert(g2.drop_last() =~= stamp(g.drop_last(), row, col, w, h, name));
            lemma_stamp_load(g.drop_last(), width, row, col, w, h, name);
        } else {
            assert(l == row + h - 1);
            assert(g2.last() == stamp_row(g[l], col, w, name));
            lemma_stamp_row_load(g[l], col, w, name);
            assert(g2.drop_last() =~= stamp(g.drop_last(), row, col, w, h - 1, name));
            lemma_stamp_load(g.drop_last(), width, row, col, w, h - 1, name);
            assert(w * h == w * (h - 1) + w) by (nonlinear_arith);
        }
    }
}

/// Inserting a well-formed suitcase into a run of well-formed suitcases
/// yields a run of well-formed suitcases, one element longer.
proof fn lemma_insert_by_area_wf(sorted: Seq<Suitcase>, x: Suitcase)
    requires
        forall|i: int| 0 <= i < sorted.len() ==> (#[trigger] sorted[i]).wf(),
        x.wf(),
    ensures
        insert_by_area(sorted, x).len() == sorted.len() + 1,
        forall|i: int|
            0 <= i < insert_by_area(sorted, x).len() ==> (#[trigger] insert_by_area(sorted, x)[
                i
            ]).wf(),
    decreases sorted.len(),
{
    if sorted.len() == 0 {
    } else if x.area() < sorted.last().area() {
        lemma_insert_by_area_wf(sorted.drop_last(), x);
    }
}

/// Sorting keeps every suitcase well-formed and the count unchanged.
proof fn lemma_sort_items_wf(items: Seq<Suitcase>)
    requires
        forall|i: int| 0 <= i < items.len() ==> (#[trigger] items[i]).wf(),
    ensures
        sort_items(items).len() == items.len(),
        forall|i: int|
            0 <= i < sort_items(items).len() ==> (#[trigger] sort_items(items)[i]).wf(),
    decreases items.len(),
{
    if items.len() > 0 {
        lemma_sort_items_wf(items.drop_last());
        lemma_insert_by_area_wf(sort_items(items.drop_last()), items.last());
    }
}

/// The suitcases stand in ascending order of area.
pub open spec fn ascending_by_area(items: Seq<Suitcase>) -> bool {
    forall|i: int, j: int|
        0 <= i < j < items.len() ==> (#[trigger] items[i]).area() <= (#[trigger] items[j]).area()
}

/// Every element of an insertion's result is the inserted element or one
/// of the run's own.
proof fn lemma_insert_by_area_elems(sorted: Seq<Suitcase>, x: Suitcase)
    ensures
        insert_by_area(sorted, x).len() == sorted.len() + 1,
        forall|i: int|
            0 <= i < insert_by_area(sorted, x).len() ==> (#[trigger] insert_by_area(sorted, x)[i]
                == x || sorted.contains(insert_by_area(sorted, x)[i])),
    decreases sorted.len(),
{
    let r = insert_by_area(sorted, x);
    if sorted.len() == 0 {
    } else if x.area() < sorted.last().area() {
        lemma_insert_by_area_elems(sorted.drop_last(), x);
        assert forall|i: int|
            0 <= i < r.len() implies (#[trigger] r[i] == x || sorted.contains(r[i])) by {
            if i < r.len() - 1 {
                if r[i] != x {
                    let j = choose|j: int|
                        0 <= j < sorted.drop_last().len() && sorted.drop_last()[j] == r[i];
                    assert(sorted[j] == r[i]);
                }
            } else {
                assert(r[i] == sorted.last());
                assert(sorted[sorted.len() - 1] == r[i]);
            }
        }
    } else {
        assert forall|i: int|
            0 <= i < r.len() implies (#[trigger] r[i] == x || sorted.contains(r[i])) by {
            if i < sorted.len() {
                assert(sorted[i] == r[i]);
            }
        }
    }
}

/// Inserting into an ascending run keeps it ascending.
proof fn lemma_insert_by_area_order(sorted: Seq<Suitcase>, x: Suitcase)
    requires
        ascending_by_area(sorted),
    ensures
        ascending_by_area(insert_by_area(sorted, x)),
    decreases sorted.len(),
{
    let r = insert_by_area(sorted, x);
    if sorted.len() == 0 {
    } else if x.area() < sorted.last().area() {
        lemma_insert_by_area_order(sorted.drop_last(), x);
        lemma_insert_by_area_elems(sorted.drop_last(), x);
        let inner = insert_by_area(sorted.drop_last(), x);
        assert forall|i: int, j: int|
            0 <= i < j < r.len() implies (#[trigger] r[i]).area() <= (#[trigger] r[j]).area() by {
            if j < r.len() - 1 {
                assert(r[i] == inner[i] && r[j] == inner[j]);
            } else {
                assert(r[j] == sorted.last());
                assert(r[i] == inner[i]);
                if inner[i] != x {
                    let m = choose|m: int|
                        0 <= m < sorted.drop_last().len() && sorted.drop_last()[m] == inner[i];
                    assert(sorted[m] == inner[i]);
                    assert(sorted[m].area() <= sorted[sorted.len() - 1].area());
                }
            }
        }
    } else {
        assert forall|i: int, j: int|
            0 <= i < j < r.len() implies (#[trigger] r[i]).area() <= (#[trigger] r[j]).area() by {
            if j == r.len() - 1 {
                assert(r[j] == x);
                assert(r[i] == sorted[i]);
                assert(sorted[i].area() <= sorted[sorted.len() - 1].area());
            } else {
                assert(r[i] == sorted[i] && r[j] == sorted[j]);
            }
        }
    }
}

/// The ordering policy of the remaining stack: `sort_items` yields the
/// suitcases ascending by area, so the largest is always taken next.
pub proof fn lemma_sort_items_sorted(items: Seq<Suitcase>)
    ensures
        ascending_by_area(sort_items(items)),
    decreases items.len(),
{
    if items.len() > 0 {
        lemma_sort_items_sorted(items.drop_last());
        lemma_insert_by_area_order(sort_items(items.drop_last()), items.last());
    }
}

/// Inserting adds exactly the one element to the run's contents.
proof fn lemma_insert_by_area_multiset(sorted: Seq<Suitcase>, x: Suitcase)
    ensures
        insert_by_area(sorted, x).to_multiset() == sorted.to_multiset().insert(x),
    decreases sorted.len(),
{
    broadcast use vstd::seq_lib::group_to_multiset_ensures;

    if sorted.len() == 0 {
        assert(insert_by_area(sorted, x) =~= sorted.push(x));
    } else if x.area() < sorted.last().area() {
        lemma_insert_by_area_multiset(sorted.drop_last(), x);
        assert(sorted.drop_last().push(sorted.last()) =~= sorted);
        assert(sorted.drop_last().to_multiset().insert(x).insert(sorted.last())
            =~= sorted.drop_last().to_multiset().insert(sorted.last()).insert(x));
    }
}

/// Sorting is a permutation: the sorted stack holds exactly the given
/// suitcases, with their multiplicities.
pub proof fn lemma_sort_items_permutes(items: Seq<Suitcase>)
    ensures
        sort_items(items).to_multiset() == items.to_multiset(),
    decreases items.len(),
{
    broadcast use vstd::seq_lib::group_to_multiset_ensures;

    if items.len() > 0 {
        lemma_sort_items_permutes(items.drop_last());
        lemma_insert_by_area_multiset(sort_items(items.drop_last()), items.last());
        assert(items.drop_last().push(items.last()) =~= items);
    }
}

/// Where the backward scan of an insertion step stops is exactly where
/// `insert_by_area` puts the new element.
proof fn lemma_insert_position(s: Seq<Suitcase>, x: Suitcase, pos: int)
    requires
        0 <= pos <= s.len(),
        forall|j: int| pos <= j < s.len() ==> x.area() < (#[trigger] s[j]).area(),
        pos > 0 ==> !(x.area() < s[pos - 1].area()),
    ensures
        insert_by_area(s, x) == s.insert(pos, x),
    decreases s.len(),
{
    if s.len() == 0 {
        assert(insert_by_area(s, x) =~= s.insert(0, x));
    } else if pos == s.len() {
        assert(!(x.area() < s.last().area()));
        assert(s.push(x) =~= s.insert(pos, x));
    } else {
        assert(x.area() < s.last().area());
        lemma_insert_position(s.drop_last(), x, pos);
        assert(insert_by_area(s.drop_last(), x).push(s.last()) =~= s.drop_last().insert(
            pos,
            x,
        ).push(s.last()));
        assert(s.drop_last().insert(pos, x).push(s.last()) =~= s.insert(pos, x));
    }
}

/// Every possible move of a scanned cell stands in the move list.
proof fn lemma_move_listed(
    g: Seq<Seq<char>>,
    width: int,
    items: Seq<Suitcase>,
    row: int,
    col: int,
    flipped: bool,
    k: int,
)
    requires
        width >= 1,
        placement_ok(g, width, items, row, col, flipped),
        0 <= row,
        0 <= col < width,
        row * width + col < k,
    ensures
        exists|i: int|
            0 <= i < moves_up_to(g, width, items, k).len() && moves_up_to(g, width, items, k)[i]
                == (row, col, flipped),
    decreases k,
{
    let ms = moves_up_to(g, width, items, k);
    let prev = moves_up_to(g, width, items, k - 1);
    let cm = cell_moves(g, width, items, (k - 1) / width, (k - 1) % width);
    assert(ms == prev + cm);
    if row * width + col == k - 1 {
        lemma_fundamental_div_mod_converse_div(k - 1, width, row, col);
        lemma_fundamental_div_mod_converse_mod(k - 1, width, row, col);
        assert(cm == cell_moves(g, width, items, row, col));
        if flipped {
            let base: int = if placement_ok(g, width, items, row, col, false) {
                1int
            } else {
                0int
            };
            assert(cm[base] == (row, col, true));
            assert(ms[prev.len() + base] == (row, col, flipped));
        } else {
            assert(cm[0] == (row, col, false));
            assert(ms[prev.len() as int] == (row, col, flipped));
        }
    } else {
        lemma_move_listed(g, width, items, row, col, flipped, k - 1);
        let i = choose|i: int| 0 <= i < prev.len() && prev[i] == (row, col, flipped);
        assert(ms[i] == (row, col, flipped));
    }
}

/// What one move does to a well-formed trunk: the successor is
/// well-formed, one suitcase shorter, and extends its parent (labels are
/// only ever stamped onto empty cells, and the load plus the remaining
/// area is conserved).
proof fn lemma_child_props(parent: Trunk, child: Trunk, m: (int, int, bool))
    requires
        parent.wf(),
        is_move_result(parent, child, m),
    ensures
        child.wf(),
        child.measure() < parent.measure(),
        child.extends(&parent),
{
    let g = parent.grid_at();
    let w = parent.width as int;
    let items = parent.items();
    let s = oriented(items, m.2);
    let g2 = place_item(g, items, m.0, m.1, m.2);
    assert(items[items.len() - 1].wf());
    assert forall|i: int| 0 <= i < g2.len() implies (#[trigger] g2[i]).len() == w by {
        if m.0 <= i < m.0 + s.height {
            assert(g2[i] == stamp_row(g[i], m.1, s.width as int, s.name));
        }
    }
    assert forall|i: int, j: int|
        0 <= i < g.len() && 0 <= j < g[i].len() && (#[trigger] g[i][j]) != DEFAULT_CELL implies g2[
        i
    ][j] == g[i][j] by {
        if m.0 <= i < m.0 + s.height {
            assert(g2[i] == stamp_row(g[i], m.1, s.width as int, s.name));
            if m.1 <= j < m.1 + s.width {
                assert(g[i][j] == DEFAULT_CELL);
            }
        }
    }
    assert(child.items() =~= items.take(items.len() - 1));
    lemma_stamp_load(g, w, m.0, m.1, s.width as int, s.height as int, s.name);
    if m.2 {
        assert((items.last().height as int) * (items.last().width as int) == (
        items.last().width as int) * (items.last().height as int)) by (nonlinear_arith);
    }
    assert(items_area(items) == items_area(items.drop_last()) + items.last().area());
    assert forall|i: int| 0 <= i < child.items().len() implies (#[trigger] child.items()[
    i]).wf() by {
        assert(child.items()[i] == items[i]);
    }
}

/// A fresh copy of one grid line.
fn copy_line(v: &Vec<char>) -> (r: Vec<char>)
    ensures
        r@ == v@,
{
    let mut r: Vec<char> = Vec::new();
    let mut i: usize = 0;
    while i < v.len()
        invariant
            i <= v@.len(),
            r@ == v@.take(i as int),
        decreases v@.len() - i,
    {
        r.push(v[i]);
        i += 1;
    }
    proof {
        assert(v@.take(v@.len() as int) =~= v@);
    }
    r
}

/// A fresh copy of a suitcase list.
fn copy_suitcases(v: &Vec<Suitcase>) -> (r: Vec<Suitcase>)
    ensures
        r@ == v@,
{
    let mut r: Vec<Suitcase> = Vec::new();
    let mut i: usize = 0;
    while i < v.len()
        invariant
            i <= v@.len(),
            r@ == v@.take(i as int),
        decreases v@.len() - i,
    {
        r.push(v[i]);
        i += 1;
    }
    proof {
        assert(v@.take(v@.len() as int) =~= v@);
    }
    r
}

/// Compare two suitcases by area; the products are taken wide enough
/// that they cannot overflow.
fn area_lt(a: &Suitcase, b: &Suitcase) -> (r: bool)
    ensures
        r == (a.area() < b.area()),
{
    proof {
        assert(a.width as int <= 0xffff_ffff_ffff_ffff && a.height as int <= 0xffff_ffff_ffff_ffff
            && b.width as int <= 0xffff_ffff_ffff_ffff && b.height as int
            <= 0xffff_ffff_ffff_ffff);
        assert((a.width as int) * (a.height as int) <= 0xffff_ffff_ffff_ffff
            * 0xffff_ffff_ffff_ffff && (b.width as int) * (b.height as int)
            <= 0xffff_ffff_ffff_ffff * 0xffff_ffff_ffff_ffff) by (nonlinear_arith)
            requires
                a.width as int <= 0xffff_ffff_ffff_ffff,
                a.height as int <= 0xffff_ffff_ffff_ffff,
                b.width as int <= 0xffff_ffff_ffff_ffff,
                b.height as int <= 0xffff_ffff_ffff_ffff,
        ;
    }
    let aa = (a.width as u128) * (a.height as u128);
    let bb = (b.width as u128) * (b.height as u128);
    aa < bb
}

/// The suitcases sorted ascending by area, as a stable insertion sort:
/// equal areas keep their input order.
fn sorted_by_area(suitcases: &[Suitcase]) -> (r: Vec<Suitcase>)
    ensures
        r@ == sort_items(suitcases@),
{
    let mut out: Vec<Suitcase> = Vec::new();
    let mut idx: usize = 0;
    while idx < suitcases.len()
        invariant
            idx <= suitcases@.len(),
            out@ == sort_items(suitcases@.take(idx as int)),
        decreases suitcases@.len() - idx,
    {
        let x = suitcases[idx];
        let mut pos: usize = out.len();
        while pos > 0 && area_lt(&x, &out[pos - 1])
            invariant
                pos <= out@.len(),
                forall|j: int| pos <= j < out@.len() ==> x.area() < (#[trigger] out@[j]).area(),
            decreases pos,
        {
            pos -= 1;
        }
        proof {
            lemma_insert_position(out@, x, pos as int);
            assert(suitcases@.take(idx as int + 1).drop_last() =~= suitcases@.take(idx as int));
            assert(suitcases@.take(idx as int + 1).last() == suitcases@[idx as int]);
        }
        out.insert(pos, x);
        idx += 1;
    }
    proof {
        assert(suitcases@.take(suitcases@.len() as int) =~= suitcases@);
    }
    out
}

impl Trunk {
    /// Create a starting Trunk config. The suitcases must have positive
    /// sides and labels distinct from the empty-cell marker; they are
    /// sorted once, ascending by area, so the largest is processed first.
    ///
    /// # Arguments
    /// * `width` - the width of the trunk
    /// * `height` - the height of the trunk
    /// * `suitcases` - the suitcases to add to the trunk
    pub fn new(width: usize, height: usize, suitcases: &[Suitcase]) -> (t: Trunk)
        requires
            forall|i: int| 0 <= i < suitcases@.len() ==> (#[trigger] suitcases@[i]).wf(),
        ensures
            t.wf(),
            t.width == width,
            t.height == height,
            t.items() == sort_items(suitcases@),
            forall|i: int, j: int|
                0 <= i < height && 0 <= j < width ==> #[trigger] t.grid_at()[i][j] == DEFAULT_CELL,
            grid_load(t.grid_at()) == 0,
    {
        let suitcases_remaining = sorted_by_area(suitcases);
        let mut grid: Vec<Vec<char>> = Vec::new();
        let mut r: usize = 0;
        while r < height
            invariant
                r <= height,
                grid@.len() == r,
                forall|i: int| 0 <= i < r ==> (#[trigger] grid@[i])@.len() == width,
                forall|i: int, j: int|
                    0 <= i < r && 0 <= j < width ==> #[trigger] grid@[i]@[j] == DEFAULT_CELL,
            decreases height - r,
        {
            let mut line: Vec<char> = Vec::new();
            let mut k: usize = 0;
            while k < width
                invariant
                    k <= width,
                    line@.len() == k,
                    forall|j: int| 0 <= j < k ==> #[trigger] line@[j] == DEFAULT_CELL,
                decreases width - k,
            {
                line.push(DEFAULT_CELL);
                k += 1;
            }
            grid.push(line);
            r += 1;
        }
        let t = Trunk { width, height, grid, suitcases_remaining };
        proof {
            lemma_sort_items_wf(suitcases@);
            assert forall|i: int, j: int|
                0 <= i < height && 0 <= j < width implies #[trigger] t.grid_at()[i][j]
                == DEFAULT_CELL by {
                assert(t.grid_at()[i] == t.grid@[i]@);
            }
            assert forall|i: int|
                0 <= i < t.grid_at().len() implies (#[trigger] t.grid_at()[i]).len()
                == width by {
                assert(t.grid_at()[i] == t.grid@[i]@);
            }
            lemma_blank_grid_load(t.grid_at());
        }
        t
    }

    /// Create a Trunk from an existing one: it keeps the dimensions,
    /// takes the given grid, and drops the suitcase just placed from the
    /// copied remaining stack.
    ///
    /// # Arguments
    /// * `trunk` - the base Trunk
    /// * `grid` - the grid for the new Trunk
    fn from(trunk: &Trunk, grid: Vec<Vec<char>>) -> (t: Trunk)
        requires
            trunk.items().len() > 0,
        ensures
            t.width == trunk.width,
            t.height == trunk.height,
            t.grid@ == grid@,
            t.items() == trunk.items().drop_last(),
    {
        let mut suitcases_remaining = copy_suitcases(&trunk.suitcases_remaining);
        suitcases_remaining.pop();
        proof {
            assert(suitcases_remaining@ =~= trunk.items().drop_last());
        }
        Trunk { width: trunk.width, height: trunk.height, grid, suitcases_remaining }
    }

    /// Check if the suitcase will fit in the grid, starting from a
    /// certain row and column: its footprint must lie within the bounds
    /// and cover only empty cells.
    ///
    /// # Arguments
    /// * `grid` - the grid to check against
    /// * `start_row` - the starting row
    /// * `start_col` - the starting column
    /// * `suitcase` - the Suitcase to check with
    #[verifier::loop_isolation(false)]
    fn will_fit(
        grid: &Vec<Vec<char>>,
        start_row: usize,
        start_col: usize,
        suitcase: &Suitcase,
    ) -> (r: bool)
        requires
            grid@.len() > 0,
            forall|i: int| 0 <= i < grid@.len() ==> (#[trigger] grid@[i])@.len() == grid@[0]@.len(),
            start_row <= grid@.len(),
            start_col <= grid@[0]@.len(),
        ensures
            r == fits(
                view_grid(grid@),
                grid@[0]@.len() as int,
                start_row as int,
                start_col as int,
                suitcase.width as int,
                suitcase.height as int,
            ),
    {
        let ghost g = view_grid(grid@);
        let width = grid[0].len();
        // Simple bounds check as a heuristic
        if suitcase.height > grid.len() - start_row || suitcase.width > width - start_col {
            return false;
        }
        // Make sure there's no suitcases in the way
        let row_end = start_row + suitcase.height;
        let col_end = start_col + suitcase.width;
        let mut row = start_row;
        while row < row_end
            invariant
                start_row <= row <= row_end,
                forall|i: int, j: int|
                    start_row <= i < row && start_col <= j < col_end ==> #[trigger] g[i][j]
                        == DEFAULT_CELL,
            decreases row_end - row,
        {
            let mut col = start_col;
            while col < col_end
                invariant
                    start_col <= col <= col_end,
                    forall|j: int|
                        start_col <= j < col ==> #[trigger] g[row as int][j] == DEFAULT_CELL,
                decreases col_end - col,
            {
                if grid[row][col] != DEFAULT_CELL {
                    proof {
                        assert(g[row as int][col as int] != DEFAULT_CELL);
                    }
                    return false;
                }
                proof {
                    assert(g[row as int][col as int] == DEFAULT_CELL);
                }
                col += 1;
            }
            row += 1;
        }
        true
    }

    /// Add a Suitcase to a grid (does not check if it fits, use
    /// [will_fit](Trunk::will_fit) for that). Ownership of `grid` is
    /// returned in the return value.
    ///
    /// # Arguments
    /// * `grid` - the grid to modify (ownership is returned at the end)
    /// * `start_row` - the starting row
    /// * `start_col` - the starting column
    /// * `suitcase` - the [Suitcase](Suitcase) to add
    #[verifier::loop_isolation(false)]
    fn add_suitcase(
        grid: Vec<Vec<char>>,
        start_row: usize,
        start_col: usize,
        suitcase: &Suitcase,
    ) -> (g2: Vec<Vec<char>>)
        requires
            (start_row as int) + (suitcase.height as int) <= grid@.len(),
            forall|i: int|
                0 <= i < grid@.len() ==> (start_col as int) + (suitcase.width as int) <= (
                #[trigger] grid@[i])@.len(),
        ensures
            view_grid(g2@) == stamp(
                view_grid(grid@),
                start_row as int,
                start_col as int,
                suitcase.width as int,
                suitcase.height as int,
                suitcase.name,
            ),
    {
        let ghost g0 = view_grid(grid@);
        let mut grid = grid;
        // The region ends inside the grid, so its bounds fit a usize
        let n_rows = grid.len();
        proof {
            assert(start_row + suitcase.height <= n_rows);
        }
        let row_end = start_row + suitcase.height;
        let mut row = start_row;
        while row < row_end
            invariant
                start_row <= row <= row_end,
                grid@.len() == g0.len(),
                forall|i: int|
                    0 <= i < grid@.len() && !(start_row <= i < row) ==> (#[trigger] grid@[i])@
                        == g0[i],
                forall|i: int|
                    start_row <= i < row ==> (#[trigger] grid@[i])@ == stamp_row(
                        g0[i],
                        start_col as int,
                        suitcase.width as int,
                        suitcase.name,
                    ),
            decreases row_end - row,
        {
            let mut line: Vec<char> = copy_line(&grid[row]);
            // The region ends inside the line, so its bounds fit a usize
            let line_len = line.len();
            proof {
                assert(start_col + suitcase.width <= line_len);
            }
            let col_end = start_col + suitcase.width;
            let mut col = start_col;
            while col < col_end
                invariant
                    start_col <= col <= col_end,
                    line@.len() == g0[row as int].len(),
                    forall|j: int|
                        0 <= j < line@.len() ==> #[trigger] line@[j] == (if start_col <= j < col {
                            suitcase.name
                        } else {
                            g0[row as int][j]
                        }),
                decreases col_end - col,
            {
                line.set(col, suitcase.name);
                col += 1;
            }
            proof {
                assert(line@ =~= stamp_row(
                    g0[row as int],
                    start_col as int,
                    suitcase.width as int,
                    suitcase.name,
                ));
            }
            grid.set(row, line);
            row += 1;
        }
        proof {
            assert(view_grid(grid@) =~~= stamp(
                g0,
                start_row as int,
                start_col as int,
                suitcase.width as int,
                suitcase.height as int,
                suitcase.name,
            ));
        }
        grid
    }

    /// Return a copy of the grid
    fn copy_grid(&self) -> (g: Vec<Vec<char>>)
        ensures
            g@.len() == self.grid@.len(),
            forall|i: int| 0 <= i < g@.len() ==> (#[trigger] g@[i])@ == self.grid@[i]@,
            view_grid(g@) == self.grid_at(),
    {
        let mut g: Vec<Vec<char>> = Vec::new();
        let mut i: usize = 0;
        while i < self.grid.len()
            invariant
                i <= self.grid@.len(),
                g@.len() == i,
                forall|j: int| 0 <= j < i ==> (#[trigger] g@[j])@ == self.grid@[j]@,
            decreases self.grid@.len() - i,
        {
            g.push(copy_line(&self.grid[i]));
            i += 1;
        }
        proof {
            assert(view_grid(g@) =~~= self.grid_at());
        }
        g
    }
}

impl Config for Trunk {
    open spec fn wf(&self) -> bool {
        &&& self.grid_at().len() == self.height
        &&& forall|i: int|
            0 <= i < self.grid_at().len() ==> (#[trigger] self.grid_at()[i]).len() == self.width
        &&& forall|i: int| 0 <= i < self.items().len() ==> (#[trigger] self.items()[i]).wf()
    }

    open spec fn measure(&self) -> nat {
        self.items().len()
    }

    open spec fn inv(&self) -> bool {
        true
    }

    open spec fn extends(&self, ancestor: &Self) -> bool {
        &&& self.width == ancestor.width
        &&& self.height == ancestor.height
        &&& self.grid_at().len() == ancestor.grid_at().len()
        &&& forall|i: int|
            0 <= i < self.grid_at().len() ==> (#[trigger] self.grid_at()[i]).len()
                == ancestor.grid_at()[i].len()
        &&& self.items().len() <= ancestor.items().len()
        &&& self.items() == ancestor.items().take(self.items().len() as int)
        &&& forall|i: int, j: int|
            0 <= i < ancestor.grid_at().len() && 0 <= j < ancestor.grid_at()[i].len() && (
            #[trigger] ancestor.grid_at()[i][j]) != DEFAULT_CELL ==> self.grid_at()[i][j]
                == ancestor.grid_at()[i][j]
        &&& grid_load(self.grid_at()) + items_area(self.items()) == grid_load(ancestor.grid_at())
            + items_area(ancestor.items())
    }

    open spec fn spec_valid(&self) -> bool {
        true
    }

    open spec fn spec_goal(&self) -> bool {
        self.items().len() == 0
    }

    open spec fn spec_solvable(&self) -> bool {
        packable(self.grid_at(), self.width as int, self.items())
    }

    open spec fn successors_post(&self, succs: Seq<Trunk>) -> bool {
        if self.items().len() == 0 {
            succs.len() == 0
        } else {
            matches_moves(*self, succs, self.spec_moves())
        }
    }

    /// All the ways to place the current largest remaining suitcase: the
    /// grid cells are scanned in row-major order, and at each cell the
    /// given orientation is tried before the rotated one; a square
    /// suitcase is never flipped, which would only duplicate a successor.
    #[verifier::loop_isolation(false)]
    fn successors(&self) -> (succs: Vec<Trunk>) {
        let ghost g = self.grid_at();
        let ghost w = self.width as int;
        let ghost items = self.items();
        if self.suitcases_remaining.len() == 0 {
            return Vec::new();
        }
        let s = self.suitcases_remaining[self.suitcases_remaining.len() - 1];
        proof {
            assert(s == items.last());
            assert forall|x: int| 0 <= x < g.len() implies (#[trigger] self.grid@[x])@.len()
                == w by {
                assert(g[x] == self.grid@[x]@);
            }
        }
        let mut succs: Vec<Trunk> = Vec::new();
        let mut row: usize = 0;
        while row < self.height
            invariant
                row <= self.height,
                matches_moves(*self, succs@, moves_up_to(g, w, items, (row as int) * w)),
            decreases self.height - row,
        {
            let mut col: usize = 0;
            while col < self.width
                invariant
                    col <= self.width,
                    matches_moves(
                        *self,
                        succs@,
                        moves_up_to(g, w, items, (row as int) * w + (col as int)),
                    ),
                decreases self.width - col,
            {
                let ghost k = (row as int) * w + (col as int);
                let ghost succs0 = succs@;
                // Check both orientations against the untouched grid;
                // a square suitcase is only tried as it is
                let fit_plain = Trunk::will_fit(&self.grid, row, col, &s);
                let flipped = s.flip();
                let fit_flip = if s.width != s.height {
                    Trunk::will_fit(&self.grid, row, col, &flipped)
                } else {
                    false
                };
                proof {
                    assert(fit_plain == placement_ok(g, w, items, row as int, col as int, false));
                    assert(fit_flip == placement_ok(g, w, items, row as int, col as int, true));
                }
                if fit_plain {
                    succs.push(
                        Trunk::from(self, Trunk::add_suitcase(self.copy_grid(), row, col, &s)),
                    );
                    proof {
                        assert(is_move_result(
                            *self,
                            succs@[succs0.len() as int],
                            (row as int, col as int, false),
                        ));
                    }
                }
                if fit_flip {
                    succs.push(
                        Trunk::from(
                            self,
                            Trunk::add_suitcase(self.copy_grid(), row, col, &flipped),
                        ),
                    );
                    proof {
                        let at: int = if fit_plain {
                            succs0.len() + 1int
                        } else {
                            succs0.len() as int
                        };
                        assert(is_move_result(*self, succs@[at], (row as int, col as int, true)));
                    }
                }
                proof {
                    lemma_fundamental_div_mod_converse_div(k, w, row as int, col as int);
                    lemma_fundamental_div_mod_converse_mod(k, w, row as int, col as int);
                    let ms = moves_up_to(g, w, items, k + 1);
                    let cm = cell_moves(g, w, items, row as int, col as int);
                    assert(ms == moves_up_to(g, w, items, k) + cm);
                    assert(succs@.len() == ms.len());
                    assert forall|i: int|
                        0 <= i < succs@.len() implies is_move_result(
                        *self,
                        #[trigger] succs@[i],
                        ms[i],
                    ) by {
                        if i < succs0.len() {
                            assert(succs@[i] == succs0[i]);
                            assert(ms[i] == moves_up_to(g, w, items, k)[i]);
                        } else if i == succs0.len() {
                            if fit_plain {
                                assert(cm[0] == (row as int, col as int, false));
                            } else {
                                assert(cm[0] == (row as int, col as int, true));
                            }
                        } else {
                            assert(i == succs0.len() + 1);
                            assert(cm[1] == (row as int, col as int, true));
                        }
                    }
                }
                col += 1;
            }
            proof {
                assert((row as int) * w + w == ((row as int) + 1) * w) by (nonlinear_arith);
            }
            row += 1;
        }
        proof {
            assert(matches_moves(*self, succs@, self.spec_moves()));
            let ms = self.spec_moves();
            assert forall|i: int|
                0 <= i < succs@.len() implies (#[trigger] succs@[i]).wf() && succs@[i].measure()
                < self.measure() && succs@[i].extends(self) by {
                lemma_child_props(*self, succs@[i], ms[i]);
            }
        }
        succs
    }

    fn is_valid(&self) -> (r: bool) {
        true
    }

    fn is_goal(&self) -> (r: bool) {
        self.suitcases_remaining.is_empty()
    }

    proof fn goal_ok(&self) {
        assert(packable(self.grid_at(), self.width as int, self.items()));
    }

    proof fn step_solvable(&self, succs: Seq<Self>, i: int) {
        let g = self.grid_at();
        let w = self.width as int;
        let items = self.items();
        if items.len() == 0 {
            assert(succs.len() == 0);
        }
        let ms = self.spec_moves();
        let m = ms[i];
        assert(is_move_result(*self, succs[i], m));
        assert(placement_ok(g, w, items, m.0, m.1, m.2) && packable(
            place_item(g, items, m.0, m.1, m.2),
            w,
            items.drop_last(),
        ));
        assert(packable(g, w, items));
    }

    proof fn exhausted_unsolvable(&self, succs: Seq<Self>) {
        let g = self.grid_at();
        let w = self.width as int;
        let h = self.height as int;
        let items = self.items();
        if packable(g, w, items) {
            let (row, col, flipped) = choose|row: int, col: int, flipped: bool|
                #[trigger] placement_ok(g, w, items, row, col, flipped) && packable(
                    place_item(g, items, row, col, flipped),
                    w,
                    items.drop_last(),
                );
            let s = oriented(items, flipped);
            assert(items.last().wf());
            assert(s.width >= 1 && s.height >= 1);
            assert(0 <= row && row + s.height <= h);
            assert(0 <= col && col + s.width <= w);
            assert(row * w + col < h * w) by (nonlinear_arith)
                requires
                    0 <= row < h,
                    0 <= col < w,
            ;
            lemma_move_listed(g, w, items, row, col, flipped, h * w);
            let i = choose|i: int|
                0 <= i < self.spec_moves().len() && self.spec_moves()[i] == (row, col, flipped);
            assert(is_move_result(*self, succs[i], (row, col, flipped)));
            assert(succs[i].spec_valid() && succs[i].spec_solvable());
            assert(false);
        }
    }

    proof fn step_inv(&self, succs: Seq<Self>, i: int) {
    }

    proof fn extends_refl(&self) {
        assert(self.items().take(self.items().len() as int) =~= self.items());
    }

    proof fn extends_trans(x: Self, y: Self, z: Self) {
        assert(z.items() =~= x.items().take(z.items().len() as int));
        assert forall|i: int, j: int|
            0 <= i < x.grid_at().len() && 0 <= j < x.grid_at()[i].len() && (
            #[trigger] x.grid_at()[i][j]) != DEFAULT_CELL implies z.grid_at()[i][j]
            == x.grid_at()[i][j] by {
            assert(y.grid_at()[i][j] == x.grid_at()[i][j]);
        }
    }
}

/// Glyphs of the whole grid: the cells' labels themselves, one line per
/// row, with no separator.
pub open spec fn trunk_glyphs(g: Seq<Seq<char>>) -> Seq<char>
    decreases g.len(),
{
    if g.len() == 0 {
        Seq::empty()
    } else {
        trunk_glyphs(g.drop_last()) + g.last() + seq!['\n']
    }
}

impl Trunk {
    /// Display the grid as its item labels with `-` for empty cells, one
    /// line per row.
    #[verifier::loop_isolation(false)]
    pub fn render(&self) -> (r: Vec<char>)
        ensures
            r@ == trunk_glyphs(self.grid_at()),
    {
        let ghost g = self.grid_at();
        let mut out: Vec<char> = Vec::new();
        let n = self.grid.len();
        let mut i: usize = 0;
        while i < n
            invariant
                i <= n,
                out@ == trunk_glyphs(g.take(i as int)),
            decreases n - i,
        {
            let m = self.grid[i].len();
            let mut j: usize = 0;
            while j < m
                invariant
                    j <= m,
                    out@ == trunk_glyphs(g.take(i as int)) + g[i as int].take(j as int),
                decreases m - j,
            {
                out.push(self.grid[i][j]);
                proof {
                    assert(g[i as int].take(j as int + 1) =~= g[i as int].take(j as int).push(
                        g[i as int][j as int],
                    ));
                    assert(out@ =~= trunk_glyphs(g.take(i as int)) + g[i as int].take(
                        j as int + 1,
                    ));
                }
                j += 1;
            }
            out.push('\n');
            proof {
                assert(g[i as int].take(g[i as int].len() as int) =~= g[i as int]);
                assert(g.take(i as int + 1).drop_last() =~= g.take(i as int));
                assert(g.take(i as int + 1).last() == g[i as int]);
                assert(out@ =~= trunk_glyphs(g.take(i as int + 1)));
            }
            i += 1;
        }
        proof {
            assert(g.take(g.len() as int) =~= g);
        }
        out
    }
}

/// In any state the occupied cells never number more than the grid's
/// area: placed suitcases cannot exceed the room there is.
pub proof fn lemma_load_bounded(t: Trunk)
    requires
        t.wf(),
    ensures
        0 <= grid_load(t.grid_at()) <= (t.height as int) * (t.width as int),
{
    lemma_grid_load_bounds(t.grid_at(), t.width as int);
}

/// In any solvable state there is room for everything: the occupied
/// cells plus the total area of the remaining suitcases fit within the
/// grid's area.
pub proof fn lemma_packable_area(g: Seq<Seq<char>>, width: int, items: Seq<Suitcase>)
    requires
        0 <= width,
        forall|i: int| 0 <= i < g.len() ==> (#[trigger] g[i]).len() == width,
        forall|i: int| 0 <= i < items.len() ==> (#[trigger] items[i]).wf(),
        packable(g, width, items),
    ensures
        grid_load(g) + items_area(items) <= g.len() * width,
    decreases items.len(),
{
    if items.len() == 0 {
        lemma_grid_load_bounds(g, width);
    } else {
        let (row, col, flipped) = choose|row: int, col: int, flipped: bool|
            #[trigger] placement_ok(g, width, items, row, col, flipped) && packable(
                place_item(g, items, row, col, flipped),
                width,
                items.drop_last(),
            );
        let s = oriented(items, flipped);
        let g2 = place_item(g, items, row, col, flipped);
        assert(items[items.len() - 1].wf());
        lemma_stamp_load(g, width, row, col, s.width as int, s.height as int, s.name);
        assert forall|i: int| 0 <= i < g2.len() implies (#[trigger] g2[i]).len() == width by {
            if row <= i < row + s.height {
                assert(g2[i] == stamp_row(g[i], col, s.width as int, s.name));
            }
        }
        assert forall|i: int|
            0 <= i < items.drop_last().len() implies (#[trigger] items.drop_last()[i]).wf() by {
            assert(items.drop_last()[i] == items[i]);
        }
        lemma_packable_area(g2, width, items.drop_last());
        if flipped {
            assert((items.last().height as int) * (items.last().width as int) == (
            items.last().width as int) * (items.last().height as int)) by (nonlinear_arith);
        }
        assert(items_area(items) == items_area(items.drop_last()) + items.last().area());
    }
}

/// A trunk whose remaining suitcases outsize the room left on its grid
/// admits no solution: the search must report failure.
pub proof fn lemma_overfull_unsolvable(t: Trunk)
    requires
        t.wf(),
        grid_load(t.grid_at()) + items_area(t.items()) > (t.height as int) * (t.width as int),
    ensures
        !t.spec_solvable(),
{
    if t.spec_solvable() {
        lemma_packable_area(t.grid_at(), t.width as int, t.items());
    }
}

} // verus!
