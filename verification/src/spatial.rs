//! The bucket grid behind the soft-body collision spatial hash: entries
//! staged at integer cell coordinates are sorted into a dense grid of cells
//! by a stable counting sort, and queried by 3x3 cell neighborhoods.

use vstd::prelude::*;

verus! {

/// A staged entry: cell column, cell row, body index, edge index.
pub type Staged = (i32, i32, usize, usize);

/// Smallest cell column among the nonempty `s`.
pub open spec fn min_x(s: Seq<Staged>) -> int
    decreases s.len(),
{
    if s.len() <= 1 {
        s[0].0 as int
    } else {
        let m = min_x(s.drop_last());
        if (s.last().0 as int) < m {
            s.last().0 as int
        } else {
            m
        }
    }
}

/// Largest cell column among the nonempty `s`.
pub open spec fn max_x(s: Seq<Staged>) -> int
    decreases s.len(),
{
    if s.len() <= 1 {
        s[0].0 as int
    } else {
        let m = max_x(s.drop_last());
        if (s.last().0 as int) > m {
            s.last().0 as int
        } else {
            m
        }
    }
}

/// Smallest cell row among the nonempty `s`.
pub open spec fn min_y(s: Seq<Staged>) -> int
    decreases s.len(),
{
    if s.len() <= 1 {
        s[0].1 as int
    } else {
        let m = min_y(s.drop_last());
        if (s.last().1 as int) < m {
            s.last().1 as int
        } else {
            m
        }
    }
}

/// Largest cell row among the nonempty `s`.
pub open spec fn max_y(s: Seq<Staged>) -> int
    decreases s.len(),
{
    if s.len() <= 1 {
        s[0].1 as int
    } else {
        let m = max_y(s.drop_last());
        if (s.last().1 as int) > m {
            s.last().1 as int
        } else {
            m
        }
    }
}

/// Index in the dense grid of the cell of `e`, for a grid whose lowest cell
/// is `(mx, my)` and which has `cols` columns.
pub open spec fn cell_of(e: Staged, mx: int, my: int, cols: int) -> int {
    (e.1 - my) * cols + (e.0 - mx)
}

/// How many entries of `s` lie in cells before cell `c`.
pub open spec fn count_below(s: Seq<Staged>, mx: int, my: int, cols: int, c: int) -> nat
    decreases s.len(),
{
    if s.len() == 0 {
        0
    } else {
        count_below(s.drop_last(), mx, my, cols, c) + if cell_of(s.last(), mx, my, cols) < c {
            1nat
        } else {
            0nat
        }
    }
}

/// The `(body, edge)` pairs of the entries of `s` in cell `c`, in staging order.
pub open spec fn bucket(s: Seq<Staged>, mx: int, my: int, cols: int, c: int) -> Seq<(usize, usize)>
    decreases s.len(),
{
    if s.len() == 0 {
        Seq::empty()
    } else {
        let b = bucket(s.drop_last(), mx, my, cols, c);
        if cell_of(s.last(), mx, my, cols) == c {
            b.push((s.last().2, s.last().3))
        } else {
            b
        }
    }
}

/// The grid spans of `s` fit: its column and row spans fit `i32`, the
/// number of cells fits `usize`, and the number of entries fits `u32`.
pub open spec fn grid_fits(s: Seq<Staged>) -> bool {
    &&& s.len() <= u32::MAX
    &&& s.len() > 0 ==> {
        &&& max_x(s) - min_x(s) + 1 <= i32::MAX
        &&& max_y(s) - min_y(s) + 1 <= i32::MAX
        &&& (max_x(s) - min_x(s) + 1) * (max_y(s) - min_y(s) + 1) <= usize::MAX
    }
}

proof fn lemma_bounds(s: Seq<Staged>)
    requires
        s.len() > 0,
    ensures
        forall|i: int|
            0 <= i < s.len() ==> min_x(s) <= #[trigger] s[i].0 <= max_x(s) && min_y(s) <= s[i].1
                <= max_y(s),
        i32::MIN <= min_x(s) <= max_x(s) <= i32::MAX,
        i32::MIN <= min_y(s) <= max_y(s) <= i32::MAX,
    decreases s.len(),
{
    if s.len() > 1 {
        lemma_bounds(s.drop_last());
        assert forall|i: int| 0 <= i < s.len() implies min_x(s) <= #[trigger] s[i].0 <= max_x(s)
            && min_y(s) <= s[i].1 <= max_y(s) by {
            if i < s.len() - 1 {
                assert(s[i] == s.drop_last()[i]);
            }
        }
    }
}

proof fn lemma_index_in_range(lx: int, ly: int, cols: int, rows: int)
    requires
        0 <= lx < cols,
        0 <= ly < rows,
    ensures
        0 <= ly * cols + lx < cols * rows,
{
    assert(0 <= ly * cols + lx < cols * rows) by (nonlinear_arith)
        requires
            0 <= lx < cols,
            0 <= ly < rows,
    ;
}

proof fn lemma_cell_in_range(e: Staged, mx: int, my: int, cols: int, rows: int)
    requires
        mx <= e.0 < mx + cols,
        my <= e.1 < my + rows,
    ensures
        0 <= cell_of(e, mx, my, cols) < cols * rows,
{
    let lx = e.0 - mx;
    let ly = e.1 - my;
    assert(0 <= ly * cols + lx < cols * rows) by (nonlinear_arith)
        requires
            0 <= lx < cols,
            0 <= ly < rows,
    ;
}

proof fn lemma_count_step(s: Seq<Staged>, mx: int, my: int, cols: int, c: int)
    ensures
        count_below(s, mx, my, cols, c + 1) == count_below(s, mx, my, cols, c) + bucket(
            s,
            mx,
            my,
            cols,
            c,
        ).len(),
    decreases s.len(),
{
    if s.len() > 0 {
        lemma_count_step(s.drop_last(), mx, my, cols, c);
    }
}

proof fn lemma_count_mono(s: Seq<Staged>, mx: int, my: int, cols: int, c1: int, c2: int)
    requires
        c1 <= c2,
    ensures
        count_below(s, mx, my, cols, c1) <= count_below(s, mx, my, cols, c2),
    decreases s.len(),
{
    if s.len() > 0 {
        lemma_count_mono(s.drop_last(), mx, my, cols, c1, c2);
    }
}

proof fn lemma_count_all(s: Seq<Staged>, mx: int, my: int, cols: int, c: int)
    requires
        forall|i: int| 0 <= i < s.len() ==> cell_of(#[trigger] s[i], mx, my, cols) < c,
    ensures
        count_below(s, mx, my, cols, c) == s.len(),
    decreases s.len(),
{
    if s.len() > 0 {
        assert forall|i: int| 0 <= i < s.drop_last().len() implies cell_of(
            #[trigger] s.drop_last()[i],
            mx,
            my,
            cols,
        ) < c by {
            assert(s.drop_last()[i] == s[i]);
        }
        lemma_count_all(s.drop_last(), mx, my, cols, c);
        assert(s[s.len() - 1] == s.last());
    }
}

proof fn lemma_count_none(s: Seq<Staged>, mx: int, my: int, cols: int)
    requires
        forall|i: int| 0 <= i < s.len() ==> cell_of(#[trigger] s[i], mx, my, cols) >= 0,
    ensures
        count_below(s, mx, my, cols, 0) == 0,
    decreases s.len(),
{
    if s.len() > 0 {
        assert forall|i: int| 0 <= i < s.drop_last().len() implies cell_of(
            #[trigger] s.drop_last()[i],
            mx,
            my,
            cols,
        ) >= 0 by {
            assert(s.drop_last()[i] == s[i]);
        }
        lemma_count_none(s.drop_last(), mx, my, cols);
        assert(s[s.len() - 1] == s.last());
    }
}

proof fn lemma_bucket_step(s: Seq<Staged>, i: int, mx: int, my: int, cols: int, c: int)
    requires
        0 <= i < s.len(),
    ensures
        bucket(s.take(i + 1), mx, my, cols, c) == if cell_of(s[i], mx, my, cols) == c {
            bucket(s.take(i), mx, my, cols, c).push((s[i].2, s[i].3))
        } else {
            bucket(s.take(i), mx, my, cols, c)
        },
{
    assert(s.take(i + 1).drop_last() =~= s.take(i));
    assert(s.take(i + 1).last() == s[i]);
}

/// The entries of a staging prefix in a cell are no more than those of the
/// whole staging sequence.
proof fn lemma_bucket_prefix_le(s: Seq<Staged>, i: int, mx: int, my: int, cols: int, c: int)
    requires
        0 <= i <= s.len(),
    ensures
        bucket(s.take(i), mx, my, cols, c).len() <= bucket(s, mx, my, cols, c).len(),
    decreases s.len() - i,
{
    if i < s.len() {
        lemma_bucket_prefix_le(s, i + 1, mx, my, cols, c);
        assert(s.take(i + 1).drop_last() =~= s.take(i));
    } else {
        assert(s.take(i) =~= s);
    }
}

/// Whether some entry of `s` lies in cell `(x, y)` with pair `p`.
pub open spec fn staged_at(s: Seq<Staged>, x: int, y: int, p: (usize, usize)) -> bool {
    exists|i: int|
        0 <= i < s.len() && #[trigger] s[i].0 == x && s[i].1 == y && s[i].2 == p.0 && s[i].3 == p.1
}

proof fn lemma_bucket_members(s: Seq<Staged>, mx: int, my: int, cols: int, c: int, p: (usize, usize))
    ensures
        bucket(s, mx, my, cols, c).contains(p) <==> exists|i: int|
            0 <= i < s.len() && #[trigger] cell_of(s[i], mx, my, cols) == c && s[i].2 == p.0 && s[i].3
                == p.1,
    decreases s.len(),
{
    broadcast use vstd::seq_lib::lemma_seq_contains_after_push;

    if s.len() > 0 {
        let t = s.drop_last();
        lemma_bucket_members(t, mx, my, cols, c, p);
        let n = s.len() - 1;
        if exists|i: int|
            0 <= i < s.len() && #[trigger] cell_of(s[i], mx, my, cols) == c && s[i].2 == p.0 && s[i].3
                == p.1 {
            let i = choose|i: int|
                0 <= i < s.len() && #[trigger] cell_of(s[i], mx, my, cols) == c && s[i].2 == p.0
                    && s[i].3 == p.1;
            if i < n {
                assert(t[i] == s[i]);
                assert(cell_of(t[i], mx, my, cols) == c);
            }
        }
        if exists|i: int|
            0 <= i < t.len() && #[trigger] cell_of(t[i], mx, my, cols) == c && t[i].2 == p.0 && t[i].3
                == p.1 {
            let i = choose|i: int|
                0 <= i < t.len() && #[trigger] cell_of(t[i], mx, my, cols) == c && t[i].2 == p.0
                    && t[i].3 == p.1;
            assert(t[i] == s[i]);
            assert(cell_of(s[i], mx, my, cols) == c);
        }
        assert(s[n] == s.last());
        assert(cell_of(s[n], mx, my, cols) == cell_of(s.last(), mx, my, cols));
    }
}

proof fn lemma_index_unique(lx1: int, ly1: int, lx2: int, ly2: int, cols: int)
    requires
        0 <= lx1 < cols,
        0 <= lx2 < cols,
        0 <= ly1,
        0 <= ly2,
        ly1 * cols + lx1 == ly2 * cols + lx2,
    ensures
        lx1 == lx2,
        ly1 == ly2,
{
    if ly1 < ly2 {
        assert(ly2 * cols >= (ly1 + 1) * cols) by (nonlinear_arith)
            requires
                ly1 + 1 <= ly2,
                0 <= cols,
        ;
        assert((ly1 + 1) * cols == ly1 * cols + cols) by (nonlinear_arith);
    } else if ly2 < ly1 {
        assert(ly1 * cols >= (ly2 + 1) * cols) by (nonlinear_arith)
            requires
                ly2 + 1 <= ly1,
                0 <= cols,
        ;
        assert((ly2 + 1) * cols == ly2 * cols + cols) by (nonlinear_arith);
    }
}

/// The dense cell grid of a spatial hash.
pub struct CellGrid {
    min_cx: i32,
    min_cy: i32,
    cols: usize,
    rows: usize,
    cell_ranges: Vec<(u32, u32)>,
    entries: Vec<(usize, usize)>,
    staged: Vec<Staged>,
}

impl CellGrid {
    /// Entries staged since the last clear, in staging order.
    pub closed spec fn staged(&self) -> Seq<Staged> {
        self.staged@
    }

    /// Lowest cell column of the grid.
    pub closed spec fn min_cx(&self) -> int {
        self.min_cx as int
    }

    /// Lowest cell row of the grid.
    pub closed spec fn min_cy(&self) -> int {
        self.min_cy as int
    }

    /// Number of cell columns.
    pub closed spec fn cols(&self) -> int {
        self.cols as int
    }

    /// Number of cell rows.
    pub closed spec fn rows(&self) -> int {
        self.rows as int
    }

    /// The `(body, edge)` pairs stored for grid cell `c`.
    pub closed spec fn cell_contents(&self, c: int) -> Seq<(usize, usize)> {
        self.entries@.subrange(self.cell_ranges@[c].0 as int, self.cell_ranges@[c].1 as int)
    }

    /// Every cell's range lies within the stored entries.
    pub closed spec fn wf(&self) -> bool {
        &&& self.cols * self.rows <= usize::MAX
        &&& self.cell_ranges@.len() >= self.cols * self.rows
        &&& forall|c: int|
            0 <= c < self.cols * self.rows ==> #[trigger] self.cell_ranges@[c].0
                <= self.cell_ranges@[c].1 <= self.entries@.len()
    }

    /// The grid holds exactly the entries of `s`: with no entries it has no
    /// cells; otherwise it spans the cells of `s` and each cell holds the
    /// entries staged in it, in staging order.
    pub open spec fn built_from(&self, s: Seq<Staged>) -> bool {
        if s.len() == 0 {
            self.cols() == 0 && self.rows() == 0
        } else {
            &&& self.min_cx() == min_x(s)
            &&& self.min_cy() == min_y(s)
            &&& self.cols() == max_x(s) - min_x(s) + 1
            &&& self.rows() == max_y(s) - min_y(s) + 1
            &&& forall|c: int|
                0 <= c < self.cols() * self.rows() ==> #[trigger] self.cell_contents(c) == bucket(
                    s,
                    self.min_cx(),
                    self.min_cy(),
                    self.cols(),
                    c,
                )
        }
    }

    /// Whether cell `(x, y)` lies in the grid.
    pub open spec fn in_grid(&self, x: int, y: int) -> bool {
        &&& self.min_cx() <= x < self.min_cx() + self.cols()
        &&& self.min_cy() <= y < self.min_cy() + self.rows()
    }

    /// Index in the dense grid of cell `(x, y)`.
    pub open spec fn cell_at(&self, x: int, y: int) -> int {
        (y - self.min_cy()) * self.cols() + (x - self.min_cx())
    }

    /// The `(body, edge)` pairs stored for cell `(x, y)`; none outside the grid.
    pub open spec fn cell_entries(&self, x: int, y: int) -> Seq<(usize, usize)> {
        if self.in_grid(x, y) {
            self.cell_contents(self.cell_at(x, y))
        } else {
            Seq::empty()
        }
    }

    /// The pairs of cells `(x - 1, y)`, `(x, y)` and `(x + 1, y)`, in that order.
    pub open spec fn row_entries(&self, x: int, y: int) -> Seq<(usize, usize)> {
        self.cell_entries(x - 1, y) + self.cell_entries(x, y) + self.cell_entries(x + 1, y)
    }

    /// The pairs of the 3x3 block of cells around `(x, y)`, row by row from
    /// `y - 1` up, each row from `x - 1` on.
    pub open spec fn neighborhood(&self, x: int, y: int) -> Seq<(usize, usize)> {
        self.row_entries(x, y - 1) + self.row_entries(x, y) + self.row_entries(x, y + 1)
    }

    /// The pairs of cells `(x - 1, y)` up to but not including `(x + d, y)`.
    spec fn cells_up_to(&self, x: int, y: int, d: int) -> Seq<(usize, usize)>
        decreases d + 1,
    {
        if d <= -1 {
            Seq::empty()
        } else {
            self.cells_up_to(x, y, d - 1) + self.cell_entries(x + d - 1, y)
        }
    }

    /// The rows of the block around `(x, y)` from `y - 1` up to but not
    /// including row `y + d`.
    spec fn rows_up_to(&self, x: int, y: int, d: int) -> Seq<(usize, usize)>
        decreases d + 1,
    {
        if d <= -1 {
            Seq::empty()
        } else {
            self.rows_up_to(x, y, d - 1) + self.row_entries(x, y + d - 1)
        }
    }

    /// A grid built from `s` holds in cell `(x, y)` exactly the pairs of
    /// the entries of `s` staged in that cell.
    pub proof fn lemma_cell_entries_members(&self, s: Seq<Staged>, x: int, y: int, p: (usize, usize))
        requires
            self.built_from(s),
        ensures
            self.cell_entries(x, y).contains(p) <==> staged_at(s, x, y, p),
    {
        if s.len() > 0 {
            lemma_bounds(s);
            let (mx, my, cols) = (self.min_cx(), self.min_cy(), self.cols());
            if self.in_grid(x, y) {
                let c = self.cell_at(x, y);
                lemma_index_in_range(x - mx, y - my, cols, self.rows());
                assert(self.cell_contents(c) == bucket(s, mx, my, cols, c));
                lemma_bucket_members(s, mx, my, cols, c, p);
                if staged_at(s, x, y, p) {
                    let i = choose|i: int|
                        0 <= i < s.len() && #[trigger] s[i].0 == x && s[i].1 == y && s[i].2 == p.0
                            && s[i].3 == p.1;
                    assert(cell_of(s[i], mx, my, cols) == c);
                }
                if self.cell_entries(x, y).contains(p) {
                    let i = choose|i: int|
                        0 <= i < s.len() && #[trigger] cell_of(s[i], mx, my, cols) == c && s[i].2
                            == p.0 && s[i].3 == p.1;
                    assert(mx <= s[i].0 <= max_x(s) && my <= s[i].1 <= max_y(s));
                    lemma_index_unique(s[i].0 - mx, s[i].1 - my, x - mx, y - my, cols);
                    assert(s[i].0 == x);
                }
            } else {
                if staged_at(s, x, y, p) {
                    let i = choose|i: int|
                        0 <= i < s.len() && #[trigger] s[i].0 == x && s[i].1 == y && s[i].2 == p.0
                            && s[i].3 == p.1;
                    assert(min_x(s) <= s[i].0 <= max_x(s) && min_y(s) <= s[i].1 <= max_y(s));
                }
            }
        }
    }

    /// A neighbor query on a grid built from `s` gives exactly the pairs of
    /// the entries of `s` staged in the 3x3 block of cells around `(x, y)`.
    pub proof fn lemma_neighborhood_members(&self, s: Seq<Staged>, x: int, y: int, p: (usize, usize))
        requires
            self.built_from(s),
        ensures
            self.neighborhood(x, y).contains(p) <==> exists|dx: int, dy: int|
                -1 <= dx <= 1 && -1 <= dy <= 1 && #[trigger] staged_at(s, x + dx, y + dy, p),
    {
        broadcast use vstd::seq_lib::lemma_seq_concat_contains_all_elements;

        self.lemma_cell_entries_members(s, x - 1, y - 1, p);
        self.lemma_cell_entries_members(s, x, y - 1, p);
        self.lemma_cell_entries_members(s, x + 1, y - 1, p);
        self.lemma_cell_entries_members(s, x - 1, y, p);
        self.lemma_cell_entries_members(s, x, y, p);
        self.lemma_cell_entries_members(s, x + 1, y, p);
        self.lemma_cell_entries_members(s, x - 1, y + 1, p);
        self.lemma_cell_entries_members(s, x, y + 1, p);
        self.lemma_cell_entries_members(s, x + 1, y + 1, p);
        if exists|dx: int, dy: int|
            -1 <= dx <= 1 && -1 <= dy <= 1 && #[trigger] staged_at(s, x + dx, y + dy, p) {
            let (dx, dy) = choose|dx: int, dy: int|
                -1 <= dx <= 1 && -1 <= dy <= 1 && #[trigger] staged_at(s, x + dx, y + dy, p);
            assert(self.row_entries(x, y + dy).contains(p));
        }
        if self.neighborhood(x, y).contains(p) {
            if self.row_entries(x, y - 1).contains(p) {
                if self.cell_entries(x - 1, y - 1).contains(p) {
                    assert(staged_at(s, x + (-1), y + (-1), p));
                } else if self.cell_entries(x, y - 1).contains(p) {
                    assert(staged_at(s, x + 0, y + (-1), p));
                } else {
                    assert(staged_at(s, x + 1, y + (-1), p));
                }
            } else if self.row_entries(x, y).contains(p) {
                if self.cell_entries(x - 1, y).contains(p) {
                    assert(staged_at(s, x + (-1), y + 0, p));
                } else if self.cell_entries(x, y).contains(p) {
                    assert(staged_at(s, x + 0, y + 0, p));
                } else {
                    assert(staged_at(s, x + 1, y + 0, p));
                }
            } else {
                if self.cell_entries(x - 1, y + 1).contains(p) {
                    assert(staged_at(s, x + (-1), y + 1, p));
                } else if self.cell_entries(x, y + 1).contains(p) {
                    assert(staged_at(s, x + 0, y + 1, p));
                } else {
                    assert(staged_at(s, x + 1, y + 1, p));
                }
            }
        }
    }

    /// An empty grid with no cells and nothing staged.
    pub fn new() -> (g: Self)
        ensures
            g.wf(),
            g.staged() == Seq::<Staged>::empty(),
            g.built_from(Seq::<Staged>::empty()),
            g.min_cx() == 0,
            g.min_cy() == 0,
            g.cols() == 0,
            g.rows() == 0,
    {
        CellGrid {
            min_cx: 0,
            min_cy: 0,
            cols: 0,
            rows: 0,
            cell_ranges: Vec::new(),
            entries: Vec::new(),
            staged: Vec::new(),
        }
    }

    /// Drops the staged entries and the stored ones; the cells keep their
    /// shape until the next build.
    pub fn clear(&mut self)
        ensures
            final(self).staged() == Seq::<Staged>::empty(),
            final(self).cols() == old(self).cols(),
            final(self).rows() == old(self).rows(),
            final(self).min_cx() == old(self).min_cx(),
            final(self).min_cy() == old(self).min_cy(),
            final(self).wf() ==> forall|c: int|
                0 <= c < final(self).cols() * final(self).rows() ==> #[trigger] final(self).cell_contents(c)
                    == Seq::<(usize, usize)>::empty(),
    {
        self.staged.clear();
        self.entries.clear();
    }

    /// Stages `(body_idx, edge_idx)` for cell `(cx, cy)`; `build` sorts it in.
    pub fn insert_cell(&mut self, body_idx: usize, edge_idx: usize, cx: i32, cy: i32)
        ensures
            final(self).staged() == old(self).staged().push((cx, cy, body_idx, edge_idx)),
            final(self).cols() == old(self).cols(),
            final(self).rows() == old(self).rows(),
            final(self).min_cx() == old(self).min_cx(),
            final(self).min_cy() == old(self).min_cy(),
            old(self).wf() ==> final(self).wf(),
            old(self).built_from(old(self).staged()) ==> (forall|c: int|
                0 <= c < old(self).cols() * old(self).rows() ==> #[trigger] final(self).cell_contents(c)
                    == old(self).cell_contents(c)),
    {
        self.staged.push((cx, cy, body_idx, edge_idx));
    }

    /// Whether the staged entries fit a grid (see `grid_fits`).
    pub fn build_fits(&self) -> (b: bool)
        ensures
            b == grid_fits(self.staged()),
    {
        let n = self.staged.len();
        if n as u64 > u32::MAX as u64 {
            return false;
        }
        if n == 0 {
            return true;
        }
        let (min_cx, max_cx, min_cy, max_cy) = self.bounds();
        let span_x = max_cx as i64 - min_cx as i64 + 1;
        let span_y = max_cy as i64 - min_cy as i64 + 1;
        if span_x > i32::MAX as i64 || span_y > i32::MAX as i64 {
            return false;
        }
        (span_x as usize).checked_mul(span_y as usize).is_some()
    }

    /// Sorts the staged entries into the grid: the grid spans the staged
    /// cells, and each cell holds its entries in staging order. With
    /// nothing staged the grid has no cells.
    pub fn build(&mut self)
        requires
            grid_fits(old(self).staged()),
        ensures
            final(self).wf(),
            final(self).staged() == old(self).staged(),
            final(self).built_from(old(self).staged()),
    {
        let n = self.staged.len();
        if n == 0 {
            self.cols = 0;
            self.rows = 0;
            return;
        }
        let ghost s = self.staged@;
        proof {
            lemma_bounds(s);
        }
        let (min_cx, max_cx, min_cy, max_cy) = self.bounds();
        self.min_cx = min_cx;
        self.min_cy = min_cy;
        self.cols = (max_cx - min_cx + 1) as usize;
        self.rows = (max_cy - min_cy + 1) as usize;
        let cols = self.cols;
        let rows = self.rows;
        let ghost (mx, my, gc) = (min_cx as int, min_cy as int, cols as int);
        let num_cells = cols * rows;
        proof {
            assert forall|i: int| 0 <= i < n implies 0 <= #[trigger] cell_of(s[i], mx, my, gc) < num_cells by {
                lemma_cell_in_range(s[i], mx, my, gc, rows as int);
            }
            lemma_count_all(s, mx, my, gc, num_cells as int);
            lemma_count_none(s, mx, my, gc);
        }

        // Count the entries of each cell.
        self.cell_ranges.clear();
        let mut k: usize = 0;
        while k < num_cells
            invariant
                s == self.staged@,
                n == s.len(),
                n <= u32::MAX,
                num_cells == cols * rows,
                mx == min_cx, my == min_cy, gc == cols,
                self.min_cx == min_cx, self.min_cy == min_cy, self.cols == cols, self.rows == rows,
                min_cx == min_x(s), min_cy == min_y(s),
                cols == max_x(s) - min_x(s) + 1, rows == max_y(s) - min_y(s) + 1,
                cols <= i32::MAX, rows <= i32::MAX,
                forall|j: int| 0 <= j < n ==> 0 <= #[trigger] cell_of(s[j], mx, my, gc) < num_cells,
                forall|j: int| 0 <= j < n ==> min_x(s) <= #[trigger] s[j].0 <= max_x(s) && min_y(s) <= s[j].1 <= max_y(s),
                count_below(s, mx, my, gc, num_cells as int) == n,
                count_below(s, mx, my, gc, 0) == 0,
                k <= num_cells,
                self.cell_ranges@.len() == k,
                forall|c: int| 0 <= c < k ==> #[trigger] self.cell_ranges@[c] == (0u32, 0u32),
            decreases num_cells - k,
        {
            self.cell_ranges.push((0, 0));
            k = k + 1;
        }
        let mut i: usize = 0;
        while i < n
            invariant
                s == self.staged@,
                n == s.len(),
                n <= u32::MAX,
                num_cells == cols * rows,
                mx == min_cx, my == min_cy, gc == cols,
                self.min_cx == min_cx, self.min_cy == min_cy, self.cols == cols, self.rows == rows,
                min_cx == min_x(s), min_cy == min_y(s),
                cols == max_x(s) - min_x(s) + 1, rows == max_y(s) - min_y(s) + 1,
                cols <= i32::MAX, rows <= i32::MAX,
                forall|j: int| 0 <= j < n ==> 0 <= #[trigger] cell_of(s[j], mx, my, gc) < num_cells,
                forall|j: int| 0 <= j < n ==> min_x(s) <= #[trigger] s[j].0 <= max_x(s) && min_y(s) <= s[j].1 <= max_y(s),
                count_below(s, mx, my, gc, num_cells as int) == n,
                count_below(s, mx, my, gc, 0) == 0,
                i <= n,
                self.cell_ranges@.len() == num_cells,
                forall|c: int|
                    0 <= c < num_cells ==> #[trigger] self.cell_ranges@[c] == (
                        0u32,
                        bucket(s.take(i as int), mx, my, gc, c).len() as u32,
                    ),
                forall|c: int| 0 <= c < num_cells ==> bucket(s.take(i as int), mx, my, gc, c).len() <= i,
            decreases n - i,
        {
            let (cx, cy, _, _) = self.staged[i];
            proof {
                assert(s.take(i + 1).drop_last() =~= s.take(i as int));
                assert(s.take(i + 1).last() == s[i as int]);
                assert(s[i as int].0 == cx && s[i as int].1 == cy);
                assert(0 <= cell_of(s[i as int], mx, my, gc) < num_cells);
            }
            let ly = (cy - min_cy) as usize;
            let lx = (cx - min_cx) as usize;
            proof {
                assert(ly * cols + lx == cell_of(s[i as int], mx, my, gc));
            }
            let idx = ly * cols + lx;
            let r = self.cell_ranges[idx];
            self.cell_ranges.set(idx, (r.0, r.1 + 1));
            proof {
                assert forall|c: int| 0 <= c < num_cells implies #[trigger] bucket(
                    s.take(i + 1),
                    mx,
                    my,
                    gc,
                    c,
                ).len() <= i + 1 by {
                    lemma_bucket_step(s, i as int, mx, my, gc, c);
                    assert(bucket(s.take(i as int), mx, my, gc, c).len() <= i);
                }
            }
            i = i + 1;
        }
        assert(s.take(n as int) =~= s);

        // Prefix sums: each cell's range starts where the previous one ends.
        let mut offset: u32 = 0;
        let mut c: usize = 0;
        while c < num_cells
            invariant
                s == self.staged@,
                n == s.len(),
                n <= u32::MAX,
                num_cells == cols * rows,
                mx == min_cx, my == min_cy, gc == cols,
                self.min_cx == min_cx, self.min_cy == min_cy, self.cols == cols, self.rows == rows,
                min_cx == min_x(s), min_cy == min_y(s),
                cols == max_x(s) - min_x(s) + 1, rows == max_y(s) - min_y(s) + 1,
                cols <= i32::MAX, rows <= i32::MAX,
                forall|j: int| 0 <= j < n ==> 0 <= #[trigger] cell_of(s[j], mx, my, gc) < num_cells,
                forall|j: int| 0 <= j < n ==> min_x(s) <= #[trigger] s[j].0 <= max_x(s) && min_y(s) <= s[j].1 <= max_y(s),
                count_below(s, mx, my, gc, num_cells as int) == n,
                count_below(s, mx, my, gc, 0) == 0,
                c <= num_cells,
                self.cell_ranges@.len() == num_cells,
                offset == count_below(s, mx, my, gc, c as int),
                forall|d: int|
                    0 <= d < c ==> #[trigger] self.cell_ranges@[d] == (
                        count_below(s, mx, my, gc, d) as u32,
                        count_below(s, mx, my, gc, d) as u32,
                    ),
                forall|d: int|
                    c <= d < num_cells ==> #[trigger] self.cell_ranges@[d] == (
                        0u32,
                        bucket(s, mx, my, gc, d).len() as u32,
                    ),
            decreases num_cells - c,
        {
            let count = self.cell_ranges[c].1;
            proof {
                lemma_count_step(s, mx, my, gc, c as int);
                lemma_count_mono(s, mx, my, gc, c + 1, num_cells as int);
            }
            self.cell_ranges.set(c, (offset, offset));
            offset = offset + count;
            c = c + 1;
        }

        // Place each entry at the next free position of its cell.
        self.entries.clear();
        let mut k: usize = 0;
        while k < offset as usize
            invariant
                s == self.staged@,
                n == s.len(),
                n <= u32::MAX,
                num_cells == cols * rows,
                mx == min_cx, my == min_cy, gc == cols,
                self.min_cx == min_cx, self.min_cy == min_cy, self.cols == cols, self.rows == rows,
                min_cx == min_x(s), min_cy == min_y(s),
                cols == max_x(s) - min_x(s) + 1, rows == max_y(s) - min_y(s) + 1,
                cols <= i32::MAX, rows <= i32::MAX,
                forall|j: int| 0 <= j < n ==> 0 <= #[trigger] cell_of(s[j], mx, my, gc) < num_cells,
                forall|j: int| 0 <= j < n ==> min_x(s) <= #[trigger] s[j].0 <= max_x(s) && min_y(s) <= s[j].1 <= max_y(s),
                count_below(s, mx, my, gc, num_cells as int) == n,
                count_below(s, mx, my, gc, 0) == 0,
                offset == n,
                self.cell_ranges@.len() == num_cells,
                forall|d: int|
                    0 <= d < num_cells ==> #[trigger] self.cell_ranges@[d] == (
                        count_below(s, mx, my, gc, d) as u32,
                        count_below(s, mx, my, gc, d) as u32,
                    ),
                k <= offset,
                self.entries@.len() == k,
            decreases offset - k,
        {
            self.entries.push((0, 0));
            k = k + 1;
        }
        proof {
            assert forall|d: int| 0 <= d < num_cells implies count_below(s, mx, my, gc, d) + #[trigger] bucket(
                s.take(0),
                mx,
                my,
                gc,
                d,
            ).len() <= count_below(s, mx, my, gc, d + 1) by {
                lemma_count_mono(s, mx, my, gc, d, d + 1);
            }
        }
        let mut i: usize = 0;
        while i < n
            invariant
                s == self.staged@,
                n == s.len(),
                n <= u32::MAX,
                num_cells == cols * rows,
                mx == min_cx, my == min_cy, gc == cols,
                self.min_cx == min_cx, self.min_cy == min_cy, self.cols == cols, self.rows == rows,
                min_cx == min_x(s), min_cy == min_y(s),
                cols == max_x(s) - min_x(s) + 1, rows == max_y(s) - min_y(s) + 1,
                cols <= i32::MAX, rows <= i32::MAX,
                forall|j: int| 0 <= j < n ==> 0 <= #[trigger] cell_of(s[j], mx, my, gc) < num_cells,
                forall|j: int| 0 <= j < n ==> min_x(s) <= #[trigger] s[j].0 <= max_x(s) && min_y(s) <= s[j].1 <= max_y(s),
                count_below(s, mx, my, gc, num_cells as int) == n,
                count_below(s, mx, my, gc, 0) == 0,
                i <= n,
                self.cell_ranges@.len() == num_cells,
                self.entries@.len() == n,
                offset == n,
                forall|d: int|
                    0 <= d < num_cells ==> #[trigger] self.cell_ranges@[d] == (
                        count_below(s, mx, my, gc, d) as u32,
                        (count_below(s, mx, my, gc, d) + bucket(s.take(i as int), mx, my, gc, d).len()) as u32,
                    ),
                forall|d: int, p: int|
                    0 <= d < num_cells && 0 <= p < bucket(s.take(i as int), mx, my, gc, d).len()
                        ==> self.entries@[count_below(s, mx, my, gc, d) + p] == #[trigger] bucket(
                        s.take(i as int),
                        mx,
                        my,
                        gc,
                        d,
                    )[p],
                forall|d: int|
                    0 <= d < num_cells ==> count_below(s, mx, my, gc, d) + #[trigger] bucket(
                        s.take(i as int),
                        mx,
                        my,
                        gc,
                        d,
                    ).len() <= count_below(s, mx, my, gc, d + 1),
            decreases n - i,
        {
            let (cx, cy, body_idx, edge_idx) = self.staged[i];
            let ghost t = s.take(i as int);
            let ghost t1 = s.take(i + 1);
            proof {
                assert(t1.drop_last() =~= t);
                assert(t1.last() == s[i as int]);
                assert(s[i as int].0 == cx && s[i as int].1 == cy);
                assert(0 <= cell_of(s[i as int], mx, my, gc) < num_cells);
            }
            let ly = (cy - min_cy) as usize;
            let lx = (cx - min_cx) as usize;
            proof {
                assert(ly * cols + lx == cell_of(s[i as int], mx, my, gc));
            }
            let cell = ly * cols + lx;
            proof {
                lemma_count_step(s, mx, my, gc, cell as int);
                lemma_count_mono(s, mx, my, gc, cell + 1, num_cells as int);
                lemma_bucket_prefix_le(s, i + 1, mx, my, gc, cell as int);
                assert(bucket(t1, mx, my, gc, cell as int).len() == bucket(t, mx, my, gc, cell as int).len() + 1);
                assert(count_below(s, mx, my, gc, cell as int) + bucket(t, mx, my, gc, cell as int).len() < n);
            }
            let pos = self.cell_ranges[cell].1 as usize;
            let ghost old_entries = self.entries@;
            assert(pos == count_below(s, mx, my, gc, cell as int) + bucket(t, mx, my, gc, cell as int).len());
            self.entries.set(pos, (body_idx, edge_idx));
            let r = self.cell_ranges[cell];
            self.cell_ranges.set(cell, (r.0, r.1 + 1));
            proof {
                assert forall|d: int, p: int|
                    0 <= d < num_cells && 0 <= p < bucket(t1, mx, my, gc, d).len()
                        implies self.entries@[count_below(s, mx, my, gc, d) + p] == #[trigger] bucket(
                        t1,
                        mx,
                        my,
                        gc,
                        d,
                    )[p] by {
                    lemma_bucket_step(s, i as int, mx, my, gc, d);
                    let q = count_below(s, mx, my, gc, d) + p;
                    if d == cell {
                        if p < bucket(t, mx, my, gc, d).len() {
                            assert(bucket(t1, mx, my, gc, d)[p] == bucket(t, mx, my, gc, d)[p]);
                            assert(old_entries[q] == bucket(t, mx, my, gc, d)[p]);
                            assert(q != pos);
                            assert(self.entries@[q] == bucket(t1, mx, my, gc, d)[p]);
                        } else {
                            assert(q == pos);
                            assert(bucket(t1, mx, my, gc, d)[p] == (s[i as int].2, s[i as int].3));
                            assert(self.entries@[q] == bucket(t1, mx, my, gc, d)[p]);
                        }
                    } else {
                        assert(bucket(t1, mx, my, gc, d) == bucket(t, mx, my, gc, d));
                        assert(old_entries[q] == bucket(t, mx, my, gc, d)[p]);
                        assert(count_below(s, mx, my, gc, d) + bucket(t, mx, my, gc, d).len()
                            <= count_below(s, mx, my, gc, d + 1));
                        if d < cell {
                            lemma_count_mono(s, mx, my, gc, d + 1, cell as int);
                            assert(q < pos);
                            assert(self.entries@[q] == bucket(t1, mx, my, gc, d)[p]);
                        } else {
                            lemma_count_mono(s, mx, my, gc, cell + 1, d);
                            lemma_count_mono(s, mx, my, gc, d + 1, num_cells as int);
                            assert(q > pos);
                            assert(self.entries@[q] == bucket(t1, mx, my, gc, d)[p]);
                        }
                    }
                }
                assert forall|d: int|
                    0 <= d < num_cells implies count_below(s, mx, my, gc, d) + #[trigger] bucket(
                        t1,
                        mx,
                        my,
                        gc,
                        d,
                    ).len() <= count_below(s, mx, my, gc, d + 1) by {
                    lemma_bucket_step(s, i as int, mx, my, gc, d);
                    if d == cell {
                        lemma_bucket_prefix_le(s, i + 1, mx, my, gc, d);
                        lemma_count_step(s, mx, my, gc, d);
                    }
                }
            }
            i = i + 1;
        }
        proof {
            assert(s.take(n as int) =~= s);
            assert forall|d: int| 0 <= d < cols * rows implies #[trigger] self.cell_contents(d) == bucket(
                s,
                mx,
                my,
                gc,
                d,
            ) by {
                lemma_count_step(s, mx, my, gc, d);
                lemma_count_mono(s, mx, my, gc, d + 1, num_cells as int);
                assert(self.cell_contents(d) =~= bucket(s, mx, my, gc, d));
            }
            assert forall|d: int| 0 <= d < cols * rows implies #[trigger] self.cell_ranges@[d].0
                <= self.cell_ranges@[d].1 <= self.entries@.len() by {
                lemma_count_step(s, mx, my, gc, d);
                lemma_count_mono(s, mx, my, gc, d + 1, num_cells as int);
            }
        }
    }

    /// Index of cell `(cx, cy)` in the dense grid, if it lies in the grid.
    fn cell_index(&self, cx: i64, cy: i64) -> (r: Option<usize>)
        requires
            self.wf(),
            i32::MIN - 1 <= cx <= i32::MAX + 1,
            i32::MIN - 1 <= cy <= i32::MAX + 1,
        ensures
            r == if self.in_grid(cx as int, cy as int) {
                Some(self.cell_at(cx as int, cy as int) as usize)
            } else {
                None::<usize>
            },
            self.in_grid(cx as int, cy as int) ==> 0 <= self.cell_at(cx as int, cy as int) < self.cols() * self.rows(),
    {
        let lx = cx - self.min_cx as i64;
        let ly = cy - self.min_cy as i64;
        if lx >= 0 && ly >= 0 && (lx as u64) < (self.cols as u64) && (ly as u64) < (self.rows as u64) {
            let lxu = lx as usize;
            let lyu = ly as usize;
            proof {
                lemma_index_in_range(lx as int, ly as int, self.cols(), self.rows());
            }
            Some(lyu * self.cols + lxu)
        } else {
            None
        }
    }

    /// Appends the pairs stored for grid cell `c` to `result`.
    fn append_cell(&self, c: usize, result: &mut Vec<(usize, usize)>)
        requires
            self.wf(),
            c < self.cols * self.rows,
        ensures
            final(result)@ == old(result)@ + self.cell_contents(c as int),
    {
        let (start, end) = self.cell_ranges[c];
        let ghost base = result@;
        let mut k: u32 = start;
        while k < end
            invariant
                self.wf(),
                c < self.cols * self.rows,
                (start, end) == self.cell_ranges@[c as int],
                start <= k <= end,
                end <= self.entries@.len(),
                result@ == base + self.entries@.subrange(start as int, k as int),
            decreases end - k,
        {
            result.push(self.entries[k as usize]);
            proof {
                assert(self.entries@.subrange(start as int, k + 1) =~= self.entries@.subrange(start as int, k as int).push(self.entries@[k as int]));
            }
            k = k + 1;
        }
    }

    /// Appends to `result` the pairs of the 3x3 block of cells around
    /// `(cx, cy)`, row by row from `cy - 1` up, each row from `cx - 1` on.
    pub fn query_neighbors_cell(&self, cx: i32, cy: i32, result: &mut Vec<(usize, usize)>)
        requires
            self.wf(),
        ensures
            final(result)@ == old(result)@ + self.neighborhood(cx as int, cy as int),
    {
        let ghost base = result@;
        let mut dy: i64 = -1;
        while dy <= 1
            invariant
                self.wf(),
                -1 <= dy <= 2,
                result@ == base + self.rows_up_to(cx as int, cy as int, dy as int),
            decreases 2 - dy,
        {
            let ghost before = result@;
            let mut dx: i64 = -1;
            while dx <= 1
                invariant
                    self.wf(),
                    -1 <= dy <= 1,
                    -1 <= dx <= 2,
                    result@ == before + self.cells_up_to(cx as int, cy + dy, dx as int),
                decreases 2 - dx,
            {
                if let Some(idx) = self.cell_index(cx as i64 + dx, cy as i64 + dy) {
                    self.append_cell(idx, result);
                }
                proof {
                    assert(self.cells_up_to(cx as int, cy + dy, dx + 1) =~= self.cells_up_to(cx as int, cy + dy, dx as int) + self.cell_entries(cx + dx, cy + dy));
                }
                dx = dx + 1;
            }
            proof {
                reveal_with_fuel(CellGrid::cells_up_to, 4);
                assert(self.cells_up_to(cx as int, cy + dy, 2) =~= self.row_entries(cx as int, cy + dy));
            }
            dy = dy + 1;
        }
        proof {
            reveal_with_fuel(CellGrid::rows_up_to, 4);
            assert(self.rows_up_to(cx as int, cy as int, 2) =~= self.neighborhood(cx as int, cy as int));
        }
    }

    /// Whether the grid can be queried: after `new` or `build` it can; after
    /// `clear` it can again once it has been built.
    pub fn is_ready(&self) -> (b: bool)
        ensures
            b == self.wf(),
    {
        let num_cells = match self.cols.checked_mul(self.rows) {
            Some(m) => m,
            None => {
                return false;
            },
        };
        if self.cell_ranges.len() < num_cells {
            return false;
        }
        let mut c: usize = 0;
        while c < num_cells
            invariant
                num_cells == self.cols * self.rows,
                num_cells <= self.cell_ranges@.len(),
                c <= num_cells,
                forall|d: int|
                    0 <= d < c ==> #[trigger] self.cell_ranges@[d].0 <= self.cell_ranges@[d].1
                        <= self.entries@.len(),
            decreases num_cells - c,
        {
            let (start, end) = self.cell_ranges[c];
            if start > end || end as usize > self.entries.len() {
                return false;
            }
            c = c + 1;
        }
        true
    }

    /// The smallest and largest staged column and row.
    fn bounds(&self) -> (r: (i32, i32, i32, i32))
        requires
            self.staged@.len() > 0,
        ensures
            r.0 == min_x(self.staged@),
            r.1 == max_x(self.staged@),
            r.2 == min_y(self.staged@),
            r.3 == max_y(self.staged@),
    {
        let s = &self.staged;
        let n = s.len();
        let mut min_cx = s[0].0;
        let mut max_cx = s[0].0;
        let mut min_cy = s[0].1;
        let mut max_cy = s[0].1;
        let mut i: usize = 1;
        while i < n
            invariant
                n == s@.len(),
                1 <= i <= n,
                min_cx == min_x(s@.take(i as int)),
                max_cx == max_x(s@.take(i as int)),
                min_cy == min_y(s@.take(i as int)),
                max_cy == max_y(s@.take(i as int)),
            decreases n - i,
        {
            assert(s@.take(i + 1).drop_last() =~= s@.take(i as int));
            let (cx, cy, _, _) = s[i];
            if cx < min_cx {
                min_cx = cx;
            }
            if cx > max_cx {
                max_cx = cx;
            }
            if cy < min_cy {
                min_cy = cy;
            }
            if cy > max_cy {
                max_cy = cy;
            }
            i = i + 1;
        }
        assert(s@.take(n as int) =~= s@);
        (min_cx, max_cx, min_cy, max_cy)
    }
}

} // verus!
