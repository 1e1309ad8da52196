use vstd::prelude::*;

verus! {

/// `2^h`.
pub open spec fn pow2(h: nat) -> nat
    decreases h,
{
    if h == 0 {
        1
    } else {
        2 * pow2((h - 1) as nat)
    }
}

/// `h` is the height of a complete binary tree of `n` nodes: the least `h`
/// with `2^h > n`.
pub open spec fn is_height(n: nat, h: nat) -> bool {
    pow2(h) > n && (h == 0 || pow2((h - 1) as nat) <= n)
}

/// The number of grid rows for a tree of height `h`: a row of values per
/// level and a row of edges between levels.
pub open spec fn rows_for(h: nat) -> nat {
    if h == 0 {
        0
    } else {
        (2 * h - 1) as nat
    }
}

/// The number of grid columns for a tree of height `h`.
pub open spec fn cols_for(h: nat) -> nat {
    (pow2(h) - 1) as nat
}

/// What one cell of the drawing shows.
#[derive(Debug, Clone, Copy)]
pub enum Shown<T> {
    /// An element of the first half of the array (an inner node).
    Value(T),
    /// An element of the second half of the array (a leaf).
    Leaf(T),
    /// A horizontal stroke between a node and a child.
    Dash,
    /// The edge down to a left child.
    Slash,
    /// The edge down to a right child.
    BackSlash,
    /// Nothing.
    Empty,
}

/// How element `k` of `s` is tagged: inner node in the first half of the
/// array, leaf in the second half.
pub open spec fn tag<T>(s: Seq<T>, k: int) -> Shown<T> {
    if k < s.len() / 2 {
        Shown::Value(s[k])
    } else {
        Shown::Leaf(s[k])
    }
}

/// Node `k` lies in the subtree rooted at node `c` of the level-order tree.
pub open spec fn in_subtree(k: int, c: int) -> bool
    decreases k,
{
    if k == c {
        true
    } else if k < c || k <= 0 {
        false
    } else {
        in_subtree((k - 1) / 2, c)
    }
}

/// Where the drawing of the subtree rooted at node `c`, with `c` at row `i`,
/// column `j` and its children `s` columns to either side, puts node `k`:
/// each step down goes two rows down and `s` columns left (left child) or
/// right (right child), with `s` halved for the next step.
pub open spec fn place(k: int, c: int, i: int, j: int, s: int) -> (int, int)
    decreases k - c,
{
    if k <= c || c < 0 {
        (i, j)
    } else if k >= 2 * c + 1 && in_subtree(k, 2 * c + 1) {
        place(k, 2 * c + 1, i + 2, j - s, s / 2)
    } else if k >= 2 * c + 2 {
        place(k, 2 * c + 2, i + 2, j + s, s / 2)
    } else {
        (i, j)
    }
}

proof fn lemma_in_subtree_root(k: int)
    requires
        k >= 0,
    ensures
        in_subtree(k, 0),
    decreases k,
{
    if k > 0 {
        lemma_in_subtree_root((k - 1) / 2);
    }
}

/// A node strictly below `c` lies below one of the two children of `c`.
pub proof fn lemma_in_subtree_child(k: int, c: int)
    requires
        c >= 0,
        k != c,
        in_subtree(k, c),
    ensures
        in_subtree(k, 2 * c + 1) || in_subtree(k, 2 * c + 2),
    decreases k,
{
    let p = (k - 1) / 2;
    if p != c {
        lemma_in_subtree_child(p, c);
    }
}

/// Cell `(r, c)` is one that the drawing of the subtree rooted at node `k`
/// (with `k` at row `i`, column `j`, children `s` columns to either side,
/// nodes below `n` only) writes: the node's own cell, and for each child the
/// dashes on the node's row, the edge cell below and the child's subtree.
pub open spec fn covered(n: int, k: int, i: int, j: int, s: int, r: int, c: int) -> bool
    decreases n - k,
{
    if k < 0 || k >= n {
        false
    } else {
        ||| (r == i && c == j)
        ||| (2 * k + 1 < n && ((r == i && j - s < c < j) || (r == i + 1 && c == j - s) || covered(
            n,
            2 * k + 1,
            i + 2,
            j - s,
            s / 2,
            r,
            c,
        )))
        ||| (2 * k + 2 < n && ((r == i && j < c < j + s) || (r == i + 1 && c == j + s) || covered(
            n,
            2 * k + 2,
            i + 2,
            j + s,
            s / 2,
            r,
            c,
        )))
    }
}

/// The edge drawn just above node `k`: `Slash` to a left child (odd
/// index), `BackSlash` to a right child (even index).
pub open spec fn edge_to<T>(k: int) -> Shown<T> {
    if k % 2 == 1 {
        Shown::Slash
    } else {
        Shown::BackSlash
    }
}

/// A rectangular grid of cells, stored row by row.
pub struct TreeGrid<T> {
    rows: usize,
    cols: usize,
    cells: Vec<Shown<T>>,
}

proof fn lemma_index_bound(r: int, c: int, rows: int, cols: int)
    requires
        0 <= r < rows,
        0 <= c < cols,
    ensures
        0 <= r * cols + c < rows * cols,
{
    assert(r * cols + c < rows * cols) by (nonlinear_arith)
        requires
            0 <= r < rows,
            0 <= c < cols,
    ;
    assert(0 <= r * cols) by (nonlinear_arith)
        requires
            0 <= r,
            0 <= c < cols,
    ;
}

proof fn lemma_index_distinct(r: int, c: int, r2: int, c2: int, cols: int)
    requires
        0 <= r,
        0 <= r2,
        0 <= c < cols,
        0 <= c2 < cols,
        r != r2 || c != c2,
    ensures
        r * cols + c != r2 * cols + c2,
{
    if r == r2 {
    } else if r < r2 {
        assert(r * cols + c < r2 * cols + c2) by (nonlinear_arith)
            requires
                0 <= r < r2,
                0 <= c < cols,
                0 <= c2,
        ;
    } else {
        assert(r2 * cols + c2 < r * cols + c) by (nonlinear_arith)
            requires
                0 <= r2 < r,
                0 <= c2 < cols,
                0 <= c,
        ;
    }
}

impl<T: Copy> TreeGrid<T> {
    /// The number of rows.
    pub closed spec fn spec_rows(&self) -> nat {
        self.rows as nat
    }

    /// The number of columns.
    pub closed spec fn spec_cols(&self) -> nat {
        self.cols as nat
    }

    /// The cell at row `r`, column `c`.
    pub closed spec fn cell(&self, r: int, c: int) -> Shown<T> {
        self.cells@[r * self.cols + c]
    }

    /// Row `p.0` holds dashes at every column strictly between `p.1` and `c`.
    pub open spec fn dashed(&self, p: (int, int), c: int) -> bool {
        forall|x: int| (p.1 < x < c || c < x < p.1) ==> #[trigger] self.cell(p.0, x) == Shown::<T>::Dash
    }

    /// The storage holds exactly one cell per row and column.
    pub closed spec fn wf(&self) -> bool {
        self.cells@.len() == self.rows * self.cols && self.rows * self.cols <= usize::MAX
    }

    /// The number of rows.
    pub fn rows(&self) -> (r: usize)
        ensures
            r == self.spec_rows(),
    {
        self.rows
    }

    /// The number of columns.
    pub fn cols(&self) -> (r: usize)
        ensures
            r == self.spec_cols(),
    {
        self.cols
    }

    /// The cell at row `r`, column `c`.
    pub fn get(&self, r: usize, c: usize) -> (x: Shown<T>)
        requires
            self.wf(),
            r < self.spec_rows(),
            c < self.spec_cols(),
        ensures
            x == self.cell(r as int, c as int),
    {
        proof {
            lemma_index_bound(r as int, c as int, self.rows as int, self.cols as int);
        }
        self.cells[r * self.cols + c]
    }

    /// A grid of `rows` by `cols` empty cells.
    fn empty(rows: usize, cols: usize) -> (g: Self)
        requires
            rows * cols <= usize::MAX,
        ensures
            g.wf(),
            g.spec_rows() == rows,
            g.spec_cols() == cols,
            forall|r: int, c: int|
                0 <= r < rows && 0 <= c < cols ==> #[trigger] g.cell(r, c) == Shown::<T>::Empty,
    {
        let total = rows * cols;
        let mut cells: Vec<Shown<T>> = Vec::new();
        let mut k: usize = 0;
        while k < total
            invariant
                k <= total,
                cells@.len() == k,
                forall|m: int| 0 <= m < k ==> #[trigger] cells@[m] == Shown::<T>::Empty,
            decreases total - k,
        {
            cells.push(Shown::Empty);
            k = k + 1;
        }
        let g = TreeGrid { rows, cols, cells };
        proof {
            assert forall|r: int, c: int|
                0 <= r < rows && 0 <= c < cols implies #[trigger] g.cell(r, c) == Shown::<T>::Empty by {
                lemma_index_bound(r, c, rows as int, cols as int);
            }
        }
        g
    }

    /// Writes `x` at row `r`, column `c`; every other cell stays.
    fn set(&mut self, r: usize, c: usize, x: Shown<T>)
        requires
            old(self).wf(),
            r < old(self).spec_rows(),
            c < old(self).spec_cols(),
        ensures
            final(self).wf(),
            final(self).spec_rows() == old(self).spec_rows(),
            final(self).spec_cols() == old(self).spec_cols(),
            final(self).cell(r as int, c as int) == x,
            forall|r2: int, c2: int|
                0 <= r2 < old(self).spec_rows() && 0 <= c2 < old(self).spec_cols() && (r2 != r || c2
                    != c) ==> #[trigger] final(self).cell(r2, c2) == old(self).cell(r2, c2),
    {
        proof {
            lemma_index_bound(r as int, c as int, self.rows as int, self.cols as int);
        }
        let ghost before = *self;
        let idx = r * self.cols + c;
        self.cells.set(idx, x);
        proof {
            assert forall|r2: int, c2: int|
                0 <= r2 < before.spec_rows() && 0 <= c2 < before.spec_cols() && (r2 != r || c2
                    != c) implies #[trigger] self.cell(r2, c2) == before.cell(r2, c2) by {
                lemma_index_distinct(r as int, c as int, r2, c2, self.cols as int);
                lemma_index_bound(r2, c2, self.rows as int, self.cols as int);
            }
        }
    }
}

/// The height of a complete binary tree of `n` nodes, `ceil(log2(n + 1))`,
/// with `2^h`; `None` when `2^h` does not fit in a `usize`.
fn height_of(n: usize) -> (r: Option<(usize, usize)>)
    ensures
        r matches Some((h, p)) ==> is_height(n as nat, h as nat) && p == pow2(h as nat),
        r is None ==> exists|h: nat| is_height(n as nat, h) && pow2(h) > usize::MAX,
{
    let mut h: usize = 0;
    let mut p: usize = 1;
    while p <= n
        invariant
            p == pow2(h as nat),
            1 <= p,
            h < p,
            h == 0 || pow2((h - 1) as nat) <= n,
        decreases usize::MAX - p,
    {
        if p > usize::MAX / 2 {
            assert(is_height(n as nat, (h + 1) as nat));
            return None;
        }
        p = p * 2;
        h = h + 1;
    }
    Some((h, p))
}

proof fn lemma_pow2_ge_double(h: nat)
    ensures
        h >= 1 ==> pow2(h) >= 2 * h,
        pow2(h) >= 1,
    decreases h,
{
    if h >= 1 {
        lemma_pow2_ge_double((h - 1) as nat);
    }
}

/// Fills row `i` with dashes strictly between columns `j` and `l`.
fn set_dash<T: Copy>(grid: &mut TreeGrid<T>, i: usize, j: usize, l: usize)
    requires
        old(grid).wf(),
        i < old(grid).spec_rows(),
        j <= old(grid).spec_cols(),
        l <= old(grid).spec_cols(),
    ensures
        final(grid).wf(),
        final(grid).spec_rows() == old(grid).spec_rows(),
        final(grid).spec_cols() == old(grid).spec_cols(),
        forall|r: int, c: int|
            0 <= r < old(grid).spec_rows() && 0 <= c < old(grid).spec_cols() ==> #[trigger] final(grid).cell(r, c)
                == (if r == i && (j < c < l || l < c < j) { Shown::<T>::Dash } else { old(grid).cell(r, c) }),
{
    let (lo, hi) = if j > l {
        (l, j)
    } else {
        (j, l)
    };
    let ghost g0 = *grid;
    if lo == hi {
        return;
    }
    let mut k = lo + 1;
    while k < hi
        invariant
            grid.wf(),
            grid.spec_rows() == g0.spec_rows(),
            grid.spec_cols() == g0.spec_cols(),
            i < g0.spec_rows(),
            lo < k <= hi,
            hi <= g0.spec_cols(),
            forall|r: int, c: int|
                0 <= r < g0.spec_rows() && 0 <= c < g0.spec_cols() ==> #[trigger] grid.cell(r, c)
                    == (if r == i && lo < c < k { Shown::<T>::Dash } else { g0.cell(r, c) }),
        decreases hi - k,
    {
        grid.set(i, k, Shown::Dash);
        k = k + 1;
    }
}

/// A node with a child at index `child` below `cols` has a level below
/// it, and the bound that ties levels to indices passes on to the child.
proof fn lemma_child_level(lev: nat, current: int, child: int, cols: int)
    requires
        0 <= current,
        child + 1 >= 2 * (current + 1),
        child < cols,
        pow2(lev + 1) * (current + 1) >= cols + 1,
    ensures
        lev >= 1,
        lev == 1 ==> pow2((lev - 1) as nat) == 1,
        lev >= 2 ==> pow2((lev - 1) as nat) == 2 * pow2((lev - 2) as nat),
        pow2(lev) * (child + 1) >= cols + 1,
{
    reveal_with_fuel(pow2, 2);
    assert(pow2(lev + 1) == 2 * pow2(lev));
    assert(pow2(lev) * (child + 1) >= pow2(lev + 1) * (current + 1)) by (nonlinear_arith)
        requires
            child + 1 >= 2 * (current + 1),
            pow2(lev + 1) == 2 * pow2(lev),
    ;
}

/// Draws the subtree rooted at node `current` with its label at row `i`,
/// column `j`, and its children `s` columns to either side, two rows down.
/// `lev` counts the levels of the tree below the one of `current`; the
/// bounds in `requires` keep every cell drawn inside the grid. Rows above
/// `i` are left as they were.
#[verifier::spinoff_prover]
#[verifier::rlimit(100)]
fn navigate<T: Copy>(
    arr: &Vec<T>,
    grid: &mut TreeGrid<T>,
    current: usize,
    i: usize,
    j: usize,
    s: usize,
    Ghost(lev): Ghost<nat>,
)
    requires
        old(grid).wf(),
        arr@.len() <= old(grid).spec_cols(),
        2 * old(grid).spec_cols() <= usize::MAX,
        i + 2 * lev + 1 == old(grid).spec_rows(),
        j < old(grid).spec_cols(),
        s == (if lev == 0 { 0 } else { pow2((lev - 1) as nat) }),
        lev >= 1 ==> 2 * s - 1 <= j && j + 2 * s <= old(grid).spec_cols(),
        pow2(lev + 1) * (current + 1) >= old(grid).spec_cols() + 1,
    ensures
        final(grid).wf(),
        final(grid).spec_rows() == old(grid).spec_rows(),
        final(grid).spec_cols() == old(grid).spec_cols(),
        forall|r: int, c: int|
            0 <= r < i && 0 <= c < old(grid).spec_cols() ==> #[trigger] final(grid).cell(r, c)
                == old(grid).cell(r, c),
        forall|k: int|
            0 <= k < arr@.len() && in_subtree(k, current as int) ==> {
                let (r, c) = #[trigger] place(k, current as int, i as int, j as int, s as int);
                &&& final(grid).cell(r, c) == tag(arr@, k)
                &&& i <= r < old(grid).spec_rows()
                &&& (k != current ==> i + 2 <= r)
                &&& (k != current ==> final(grid).cell(r - 1, c) == edge_to::<T>(k))
                &&& (k != current ==> final(grid).dashed(
                    place((k - 1) / 2, current as int, i as int, j as int, s as int),
                    c,
                ))
                &&& (lev >= 1 ==> j - 2 * s < c < j + 2 * s)
                &&& (lev == 0 ==> c == j)
            },
        current >= arr@.len() ==> *final(grid) == *old(grid),
        forall|r: int, c: int|
            0 <= r < old(grid).spec_rows() && 0 <= c < old(grid).spec_cols() && !covered(
                arr@.len() as int,
                current as int,
                i as int,
                j as int,
                s as int,
                r,
                c,
            ) ==> #[trigger] final(grid).cell(r, c) == old(grid).cell(r, c),
        forall|r: int, c: int|
            0 <= r < old(grid).spec_rows() && 0 <= c < old(grid).spec_cols() && (r < i || (lev
                >= 1 && (c <= j - 2 * s || c >= j + 2 * s)) || (lev == 0 && (r != i || c != j)))
                ==> #[trigger] final(grid).cell(r, c) == old(grid).cell(r, c),
    decreases arr@.len() - current,
{
    let n = arr.len();
    if current >= n {
        return;
    }
    proof {
        lemma_pow2_ge_double(lev);
    }
    let x = if current < n / 2 {
        Shown::Value(arr[current])
    } else {
        Shown::Leaf(arr[current])
    };
    let ghost g0 = *grid;
    grid.set(i, j, x);
    let ghost g1 = *grid;
    let child = 2 * current + 1;
    proof {
        if child < n {
            lemma_child_level(lev, current as int, child as int, grid.spec_cols() as int);
        }
    }
    if child < n {
        set_dash(grid, i, j, j - s);
        let ghost ga = *grid;
        grid.set(i + 1, j - s, Shown::Slash);
        let ghost gb = *grid;
        navigate(arr, grid, child, i + 2, j - s, s / 2, Ghost((lev - 1) as nat));
        proof {
            assert forall|r: int, c: int|
                0 <= r < g0.spec_rows() && 0 <= c < g0.spec_cols() && !(r == i && j - s < c < j)
                    && !(r == i + 1 && c == j - s) && !covered(
                    n as int,
                    child as int,
                    i + 2,
                    j - s,
                    (s / 2) as int,
                    r,
                    c,
                ) implies #[trigger] grid.cell(r, c) == g1.cell(r, c) by {
                assert(grid.cell(r, c) == gb.cell(r, c));
                assert(gb.cell(r, c) == ga.cell(r, c));
                assert(ga.cell(r, c) == g1.cell(r, c));
            }
        }
    }
    let ghost g2 = *grid;
    let child = child + 1;
    proof {
        if child < n {
            lemma_child_level(lev, current as int, child as int, grid.spec_cols() as int);
        }
    }
    if child < n {
        set_dash(grid, i, j, j + s);
        let ghost ga = *grid;
        grid.set(i + 1, j + s, Shown::BackSlash);
        let ghost gb = *grid;
        navigate(arr, grid, child, i + 2, j + s, s / 2, Ghost((lev - 1) as nat));
        proof {
            assert forall|r: int, c: int|
                0 <= r < g0.spec_rows() && 0 <= c < g0.spec_cols() && !(r == i && j < c < j + s)
                    && !(r == i + 1 && c == j + s) && !covered(
                    n as int,
                    child as int,
                    i + 2,
                    j + s,
                    (s / 2) as int,
                    r,
                    c,
                ) implies #[trigger] grid.cell(r, c) == g2.cell(r, c) by {
                assert(grid.cell(r, c) == gb.cell(r, c));
                assert(gb.cell(r, c) == ga.cell(r, c));
                assert(ga.cell(r, c) == g2.cell(r, c));
            }
        }
    }
    proof {
        assert forall|r: int, c: int|
            0 <= r < g0.spec_rows() && 0 <= c < g0.spec_cols() && !covered(
                n as int,
                current as int,
                i as int,
                j as int,
                s as int,
                r,
                c,
            ) implies #[trigger] grid.cell(r, c) == g0.cell(r, c) by {
            assert(grid.cell(r, c) == g2.cell(r, c));
            assert(g2.cell(r, c) == g1.cell(r, c));
        }
    }
    proof {
        let c0 = current as int;
        lemma_pow2_ge_double(lev);
        assert(lev >= 1 ==> s >= 1);
        assert forall|k: int|
            0 <= k < n && in_subtree(k, c0) implies {
                let (r, c) = #[trigger] place(k, c0, i as int, j as int, s as int);
                &&& grid.cell(r, c) == tag(arr@, k)
                &&& i <= r < old(grid).spec_rows()
                &&& (k != current ==> i + 2 <= r)
                &&& (k != current ==> final(grid).cell(r - 1, c) == edge_to::<T>(k))
                &&& (k != current ==> final(grid).dashed(
                    place((k - 1) / 2, current as int, i as int, j as int, s as int),
                    c,
                ))
                &&& (lev >= 1 ==> j - 2 * s < c < j + 2 * s)
                &&& (lev == 0 ==> c == j)
            } by {
            if k != c0 {
                lemma_in_subtree_child(k, c0);
                let p = (k - 1) / 2;
                if in_subtree(k, 2 * c0 + 1) {
                    assert(place(k, c0, i as int, j as int, s as int) == place(
                        k,
                        2 * c0 + 1,
                        i + 2,
                        j - s,
                        (s / 2) as int,
                    ));
                    if p != c0 {
                        assert(in_subtree(p, 2 * c0 + 1));
                        assert(place(p, c0, i as int, j as int, s as int) == place(
                            p,
                            2 * c0 + 1,
                            i + 2,
                            j - s,
                            (s / 2) as int,
                        ));
                    }
                } else {
                    assert(place(k, c0, i as int, j as int, s as int) == place(
                        k,
                        2 * c0 + 2,
                        i + 2,
                        j + s,
                        (s / 2) as int,
                    ));
                    if p != c0 {
                        assert(in_subtree(p, 2 * c0 + 2));
                        assert(!in_subtree(p, 2 * c0 + 1));
                        assert(place(p, c0, i as int, j as int, s as int) == place(
                            p,
                            2 * c0 + 2,
                            i + 2,
                            j + s,
                            (s / 2) as int,
                        ));
                    }
                }
            }
        }
    }
}

/// Lays out the array as a complete binary tree on a grid: one row of
/// labels per level, with a row of edges between, `2^h - 1` columns for a
/// tree of height `h`, and the root in the middle column of the top row.
/// Every node `k` stands where `place` puts it, starting from the root with
/// children a quarter of the width to either side; elements of the first
/// half of the array are tagged `Value`, those of the second half `Leaf`.
/// Edges are drawn with `Dash`, `Slash` and `BackSlash` cells. `None` when
/// the grid would not fit in memory.
pub fn layout_tree<T: Copy>(arr: &Vec<T>) -> (r: Option<TreeGrid<T>>)
    ensures
        r is None ==> exists|h: nat|
            is_height(arr@.len(), h) && (pow2(h) > usize::MAX || rows_for(h) * cols_for(h)
                > usize::MAX),
        r matches Some(g) ==> g.wf() && exists|h: nat|
            is_height(arr@.len(), h) && g.spec_rows() == rows_for(h) && g.spec_cols() == cols_for(
                h,
            ),
        arr@.len() == 0 ==> (r matches Some(g) && g.wf() && g.spec_rows() == 0 && g.spec_cols() == 0),
        r matches Some(g) ==> (arr@.len() > 0 ==> g.cell(0, (g.spec_cols() / 2) as int) == tag(arr@, 0)),
        r matches Some(g) ==> forall|row: int, col: int|
            0 <= row < g.spec_rows() && 0 <= col < g.spec_cols() && !covered(
                arr@.len() as int,
                0,
                0,
                (g.spec_cols() / 2) as int,
                ((g.spec_cols() + 1) / 4) as int,
                row,
                col,
            ) ==> #[trigger] g.cell(row, col) == Shown::<T>::Empty,
        r matches Some(g) ==> forall|k: int|
            0 <= k < arr@.len() ==> {
                let (row, col) = #[trigger] place(
                    k,
                    0,
                    0,
                    (g.spec_cols() / 2) as int,
                    ((g.spec_cols() + 1) / 4) as int,
                );
                &&& 0 <= row < g.spec_rows()
                &&& 0 <= col < g.spec_cols()
                &&& g.cell(row, col) == tag(arr@, k)
                &&& (k > 0 ==> g.cell(row - 1, col) == edge_to::<T>(k))
                &&& (k > 0 ==> g.dashed(
                    place(
                        (k - 1) / 2,
                        0,
                        0,
                        (g.spec_cols() / 2) as int,
                        ((g.spec_cols() + 1) / 4) as int,
                    ),
                    col,
                ))
            },
{
    let n = arr.len();
    let (h, p) = match height_of(n) {
        Some(hp) => hp,
        None => {
            return None;
        },
    };
    proof {
        lemma_pow2_ge_double(h as nat);
    }
    let cols = p - 1;
    let rows = if h == 0 {
        0
    } else {
        2 * h - 1
    };
    if cols > 0 && rows > usize::MAX / cols {
        proof {
            assert(rows * cols > usize::MAX) by (nonlinear_arith)
                requires
                    cols > 0,
                    rows > usize::MAX / cols,
            ;
        }
        return None;
    }
    proof {
        if cols > 0 {
            assert(rows * cols <= usize::MAX) by (nonlinear_arith)
                requires
                    cols > 0,
                    rows <= usize::MAX / cols,
            ;
        }
    }
    let mut grid = TreeGrid::empty(rows, cols);
    if n > 0 {
        proof {
            assert(pow2(1) == 2) by {
                reveal_with_fuel(pow2, 2);
            }
            assert(pow2(h as nat) == 2 * pow2((h - 1) as nat));
            if h >= 2 {
                assert(pow2((h - 1) as nat) == 2 * pow2((h - 2) as nat));
                assert(rows >= 3);
                assert(3 * cols <= usize::MAX) by (nonlinear_arith)
                    requires
                        rows >= 3,
                        rows * cols <= usize::MAX,
                        cols >= 0,
                ;
            }
        }
        navigate(arr, &mut grid, 0, 0, cols / 2, (cols + 1) / 4, Ghost((h - 1) as nat));
        proof {
            assert forall|k: int| 0 <= k < n implies #[trigger] in_subtree(k, 0) by {
                lemma_in_subtree_root(k);
            }
            let root = place(0, 0, 0, (cols / 2) as int, ((cols + 1) / 4) as int);
            assert(root == (0int, (cols / 2) as int));
            assert(in_subtree(0, 0));
        }
    }
    assert(is_height(n as nat, h as nat) && grid.spec_rows() == rows_for(h as nat)
        && grid.spec_cols() == cols_for(h as nat));
    Some(grid)
}

} // verus!
