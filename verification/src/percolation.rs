use vstd::prelude::*;
use vstd::set_lib::lemma_int_range;
use vstd::set_lib::lemma_len_subset;
use vstd::set_lib::set_int_range;

use crate::error::PercolationError;
use crate::weighted_union_find::merged;
use crate::weighted_union_find::rep_eq;
use crate::weighted_union_find::WeightedUnionFind;

verus! {

broadcast use vstd::set::group_set_axioms;

/// The abstract state of a percolation grid: the dimensions, which sites are
/// open, how many are open, and the two partitions that track connectivity.
///
/// Sites are addressed by flat indices `0 .. rows * cols`; the flat index of
/// the 1-indexed coordinate `(row, col)` is `(row - 1) * cols + (col - 1)`.
/// `grid_rep` partitions `0 .. rows * cols + 2`, where `rows * cols` is the
/// virtual top element and `rows * cols + 1` the virtual bottom element; it
/// answers percolation. `full_rep` partitions `0 .. rows * cols + 1`, with
/// the virtual top only and no virtual bottom, so bottom-edge connectivity
/// can never reach it ("backwash" prevention); it answers fullness.
pub ghost struct PercModel {
    pub rows: int,
    pub cols: int,
    pub open: Seq<bool>,
    pub count: int,
    pub grid_rep: Map<int, int>,
    pub full_rep: Map<int, int>,
}

impl PercModel {
    /// The number of sites.
    pub open spec fn total(self) -> int {
        self.rows * self.cols
    }

    /// The virtual top element, shared by both partitions.
    pub open spec fn vtop(self) -> int {
        self.total()
    }

    /// The virtual bottom element, present in the percolation partition only.
    pub open spec fn vbot(self) -> int {
        self.total() + 1
    }

    /// Is the 1-indexed coordinate `(row, col)` on the grid?
    pub open spec fn in_bounds(self, row: int, col: int) -> bool {
        1 <= row <= self.rows && 1 <= col <= self.cols
    }

    /// The flat index of the 1-indexed coordinate `(row, col)`.
    pub open spec fn index_of(self, row: int, col: int) -> int {
        (row - 1) * self.cols + (col - 1)
    }

    /// Is the site at `(row, col)` open?
    pub open spec fn site_open(self, row: int, col: int) -> bool {
        self.open[self.index_of(row, col)]
    }

    /// Does the grid percolate: are the virtual top and bottom connected?
    pub open spec fn percolates(self) -> bool {
        rep_eq(self.grid_rep, self.vtop(), self.vbot())
    }

    /// Is the site at `(row, col)` full: open and connected to the virtual
    /// top in the fullness partition?
    pub open spec fn is_full(self, row: int, col: int) -> bool {
        self.site_open(row, col) && rep_eq(self.full_rep, self.index_of(row, col), self.vtop())
    }

    /// A freshly constructed grid: no site open, and both partitions all
    /// singletons.
    pub open spec fn fresh(self) -> bool {
        &&& self.rows >= 1
        &&& self.cols >= 1
        &&& self.count == 0
        &&& self.open.len() == self.total()
        &&& forall|i: int| 0 <= i < self.total() ==> !(#[trigger] self.open[i])
        &&& forall|x: int| 0 <= x < self.total() + 2 ==> #[trigger] self.grid_rep[x] == x
        &&& forall|x: int| 0 <= x < self.total() + 1 ==> #[trigger] self.full_rep[x] == x
    }

    /// In the percolation partition, is `x` connected (before the opening of
    /// `(row, col)`) to one of the elements that opening `(row, col)` links
    /// together: the site itself, an already-open neighbour, the virtual top
    /// when the site is on the top row, or the virtual bottom when it is on
    /// the bottom row?
    pub open spec fn grid_touches(self, row: int, col: int, x: int) -> bool {
        ||| rep_eq(self.grid_rep, x, self.index_of(row, col))
        ||| (col < self.cols && self.site_open(row, col + 1) && rep_eq(
            self.grid_rep,
            x,
            self.index_of(row, col + 1),
        ))
        ||| (col > 1 && self.site_open(row, col - 1) && rep_eq(
            self.grid_rep,
            x,
            self.index_of(row, col - 1),
        ))
        ||| (row > 1 && self.site_open(row - 1, col) && rep_eq(
            self.grid_rep,
            x,
            self.index_of(row - 1, col),
        ))
        ||| (row < self.rows && self.site_open(row + 1, col) && rep_eq(
            self.grid_rep,
            x,
            self.index_of(row + 1, col),
        ))
        ||| (row == 1 && rep_eq(self.grid_rep, x, self.vtop()))
        ||| (row == self.rows && rep_eq(self.grid_rep, x, self.vbot()))
    }

    /// As `grid_touches`, for the fullness partition: the same links except
    /// that the virtual bottom is never linked there.
    pub open spec fn full_touches(self, row: int, col: int, x: int) -> bool {
        ||| rep_eq(self.full_rep, x, self.index_of(row, col))
        ||| (col < self.cols && self.site_open(row, col + 1) && rep_eq(
            self.full_rep,
            x,
            self.index_of(row, col + 1),
        ))
        ||| (col > 1 && self.site_open(row, col - 1) && rep_eq(
            self.full_rep,
            x,
            self.index_of(row, col - 1),
        ))
        ||| (row > 1 && self.site_open(row - 1, col) && rep_eq(
            self.full_rep,
            x,
            self.index_of(row - 1, col),
        ))
        ||| (row < self.rows && self.site_open(row + 1, col) && rep_eq(
            self.full_rep,
            x,
            self.index_of(row + 1, col),
        ))
        ||| (row == 1 && rep_eq(self.full_rep, x, self.vtop()))
    }

    /// How one successful `open` of a previously closed in-bounds site
    /// `(row, col)` takes the state `self` to the state `post`: the site's
    /// bit is set, the count grows by one, and each partition becomes the old
    /// partition with the classes of the newly linked elements merged into
    /// one — two elements are connected afterwards exactly when they were
    /// before, or when both were connected to something the opening links.
    pub open spec fn open_step(self, post: PercModel, row: int, col: int) -> bool {
        &&& post.rows == self.rows
        &&& post.cols == self.cols
        &&& self.in_bounds(row, col)
        &&& !self.site_open(row, col)
        &&& post.open == self.open.update(self.index_of(row, col), true)
        &&& post.count == self.count + 1
        &&& forall|x: int, y: int| #![trigger post.grid_rep[x], post.grid_rep[y]]
            0 <= x < self.total() + 2 && 0 <= y < self.total() + 2 ==> (rep_eq(post.grid_rep, x, y)
                <==> (rep_eq(self.grid_rep, x, y) || (self.grid_touches(row, col, x)
                && self.grid_touches(row, col, y))))
        &&& forall|x: int, y: int| #![trigger post.full_rep[x], post.full_rep[y]]
            0 <= x < self.total() + 1 && 0 <= y < self.total() + 1 ==> (rep_eq(post.full_rep, x, y)
                <==> (rep_eq(self.full_rep, x, y) || (self.full_touches(row, col, x)
                && self.full_touches(row, col, y))))
    }

    /// Two states that a caller cannot tell apart: same dimensions, same open
    /// sites, same count, and the same connectivity in both partitions.
    pub open spec fn equiv(self, other: PercModel) -> bool {
        &&& self.rows == other.rows
        &&& self.cols == other.cols
        &&& self.open == other.open
        &&& self.count == other.count
        &&& forall|x: int, y: int| #![trigger self.grid_rep[x], self.grid_rep[y]]
            0 <= x < self.total() + 2 && 0 <= y < self.total() + 2 ==> (rep_eq(self.grid_rep, x, y)
                <==> rep_eq(other.grid_rep, x, y))
        &&& forall|x: int, y: int| #![trigger self.full_rep[x], self.full_rep[y]]
            0 <= x < self.total() + 1 && 0 <= y < self.total() + 1 ==> (rep_eq(self.full_rep, x, y)
                <==> rep_eq(other.full_rep, x, y))
    }
}

/// The set of flat indices of open sites in the bitmap `s`.
pub open spec fn open_site_set(s: Seq<bool>) -> Set<int> {
    Set::new(|i: int| 0 <= i < s.len() && s[i])
}

/// A product of two positive factors is positive.
proof fn lemma_total_positive(rows: int, cols: int)
    by (nonlinear_arith)
    requires
        rows >= 1,
        cols >= 1,
    ensures
        rows * cols >= 1,
{
}

/// The flat index of an in-bounds coordinate lies in `0 .. rows * cols`.
proof fn lemma_index_bounds(rows: int, cols: int, row: int, col: int)
    by (nonlinear_arith)
    requires
        1 <= row <= rows,
        1 <= col <= cols,
    ensures
        0 <= (row - 1) * cols + (col - 1) <= rows * cols - 1,
{
}

/// While `open` is wiring a new site in, the percolation partition `g` sits
/// between the old partition and the fully merged one: it still connects
/// everything the old partition connected, and connects nothing beyond pairs
/// that both touch the elements being linked.
spec fn grid_approx(m0: PercModel, row: int, col: int, g: Map<int, int>) -> bool {
    &&& forall|x: int, y: int| #![trigger g[x], g[y]]
        0 <= x < m0.total() + 2 && 0 <= y < m0.total() + 2 ==> (rep_eq(g, x, y) ==> (rep_eq(
            m0.grid_rep,
            x,
            y,
        ) || (m0.grid_touches(row, col, x) && m0.grid_touches(row, col, y))))
    &&& forall|x: int, y: int| #![trigger g[x], g[y]]
        0 <= x < m0.total() + 2 && 0 <= y < m0.total() + 2 ==> (rep_eq(m0.grid_rep, x, y)
            ==> rep_eq(g, x, y))
}

/// As `grid_approx`, for the fullness partition.
spec fn full_approx(m0: PercModel, row: int, col: int, g: Map<int, int>) -> bool {
    &&& forall|x: int, y: int| #![trigger g[x], g[y]]
        0 <= x < m0.total() + 1 && 0 <= y < m0.total() + 1 ==> (rep_eq(g, x, y) ==> (rep_eq(
            m0.full_rep,
            x,
            y,
        ) || (m0.full_touches(row, col, x) && m0.full_touches(row, col, y))))
    &&& forall|x: int, y: int| #![trigger g[x], g[y]]
        0 <= x < m0.total() + 1 && 0 <= y < m0.total() + 1 ==> (rep_eq(m0.full_rep, x, y)
            ==> rep_eq(g, x, y))
}

/// Merging the classes of two touching elements keeps the percolation
/// partition within `grid_approx`.
proof fn lemma_grid_step(
    m0: PercModel,
    row: int,
    col: int,
    gprev: Map<int, int>,
    gnew: Map<int, int>,
    u: int,
    v: int,
)
    requires
        grid_approx(m0, row, col, gprev),
        merged(gprev, gnew, m0.total() + 2, u, v),
        0 <= u < m0.total() + 2,
        0 <= v < m0.total() + 2,
        m0.grid_touches(row, col, u),
        m0.grid_touches(row, col, v),
    ensures
        grid_approx(m0, row, col, gnew),
{
    let n2 = m0.total() + 2;
    assert forall|x: int, z: int| #![trigger m0.grid_rep[x], m0.grid_rep[z]]
        rep_eq(m0.grid_rep, x, z) && m0.grid_touches(row, col, z) implies m0.grid_touches(
        row,
        col,
        x,
    ) by {}
    assert forall|x: int, y: int| #![trigger gnew[x], gnew[y]]
        0 <= x < n2 && 0 <= y < n2 && rep_eq(gnew, x, y) implies (rep_eq(m0.grid_rep, x, y) || (
    m0.grid_touches(row, col, x) && m0.grid_touches(row, col, y))) by {
        if rep_eq(gprev, x, y) {
        } else if rep_eq(gprev, x, u) && rep_eq(gprev, y, v) {
            assert(m0.grid_touches(row, col, x));
            assert(m0.grid_touches(row, col, y));
        } else {
            assert(rep_eq(gprev, x, v) && rep_eq(gprev, y, u));
            assert(m0.grid_touches(row, col, x));
            assert(m0.grid_touches(row, col, y));
        }
    }
    assert forall|x: int, y: int| #![trigger gnew[x], gnew[y]]
        0 <= x < n2 && 0 <= y < n2 && rep_eq(m0.grid_rep, x, y) implies rep_eq(gnew, x, y) by {
        assert(rep_eq(gprev, x, y));
    }
}

/// Merging the classes of two touching elements keeps the fullness partition
/// within `full_approx`.
proof fn lemma_full_step(
    m0: PercModel,
    row: int,
    col: int,
    gprev: Map<int, int>,
    gnew: Map<int, int>,
    u: int,
    v: int,
)
    requires
        full_approx(m0, row, col, gprev),
        merged(gprev, gnew, m0.total() + 1, u, v),
        0 <= u < m0.total() + 1,
        0 <= v < m0.total() + 1,
        m0.full_touches(row, col, u),
        m0.full_touches(row, col, v),
    ensures
        full_approx(m0, row, col, gnew),
{
    let n1 = m0.total() + 1;
    assert forall|x: int, z: int| #![trigger m0.full_rep[x], m0.full_rep[z]]
        rep_eq(m0.full_rep, x, z) && m0.full_touches(row, col, z) implies m0.full_touches(
        row,
        col,
        x,
    ) by {}
    assert forall|x: int, y: int| #![trigger gnew[x], gnew[y]]
        0 <= x < n1 && 0 <= y < n1 && rep_eq(gnew, x, y) implies (rep_eq(m0.full_rep, x, y) || (
    m0.full_touches(row, col, x) && m0.full_touches(row, col, y))) by {
        if rep_eq(gprev, x, y) {
        } else if rep_eq(gprev, x, u) && rep_eq(gprev, y, v) {
            assert(m0.full_touches(row, col, x));
            assert(m0.full_touches(row, col, y));
        } else {
            assert(rep_eq(gprev, x, v) && rep_eq(gprev, y, u));
            assert(m0.full_touches(row, col, x));
            assert(m0.full_touches(row, col, y));
        }
    }
    assert forall|x: int, y: int| #![trigger gnew[x], gnew[y]]
        0 <= x < n1 && 0 <= y < n1 && rep_eq(m0.full_rep, x, y) implies rep_eq(gnew, x, y) by {
        assert(rep_eq(gprev, x, y));
    }
}

/// A percolation grid of `rows x cols` sites, 1-indexed by `(row, col)`.
///
/// Owns two independent union-find structures over the flat site indices:
/// `uf_grid` additionally holds a virtual top and a virtual bottom element
/// and answers `percolates`; `uf_fullness` holds the virtual top only and
/// answers `is_full`, so that connectivity through the bottom edge can never
/// make a site look full.
pub struct Percolation {
    rows: usize,
    cols: usize,
    uf_grid: WeightedUnionFind,
    uf_fullness: WeightedUnionFind,
    open_sites: usize,
    is_open_arr: Vec<bool>,
}

impl Percolation {
    /// The abstract state of this grid.
    pub closed spec fn model(&self) -> PercModel {
        PercModel {
            rows: self.rows as int,
            cols: self.cols as int,
            open: self.is_open_arr@,
            count: self.open_sites as int,
            grid_rep: self.uf_grid.repr_map(),
            full_rep: self.uf_fullness.repr_map(),
        }
    }

    /// Well-formedness: positive dimensions that fit the machine, a bitmap of
    /// the right length, the two union-find structures over their universes
    /// (`rows * cols + 2` with both virtual elements, `rows * cols + 1` with
    /// the virtual top only), and a count equal to the number of open sites.
    pub closed spec fn inv(&self) -> bool {
        let m = self.model();
        &&& self.rows >= 1
        &&& self.cols >= 1
        &&& m.total() + 2 <= usize::MAX as int
        &&& self.is_open_arr@.len() == m.total()
        &&& self.uf_grid.inv()
        &&& self.uf_grid.n() == m.total() + 2
        &&& self.uf_fullness.inv()
        &&& self.uf_fullness.n() == m.total() + 1
        &&& self.open_sites as int == open_site_set(self.is_open_arr@).len()
    }

    /// Constructs a grid with all sites closed. Fails with `InvalidSize`
    /// exactly when a dimension is smaller than 1.
    pub fn new(rows: usize, cols: usize) -> (r: Result<Percolation, PercolationError>)
        requires
            rows as int * cols as int + 2 <= usize::MAX as int,
        ensures
            match r {
                Ok(p) => {
                    &&& rows >= 1
                    &&& cols >= 1
                    &&& p.inv()
                    &&& p.model().rows == rows as int
                    &&& p.model().cols == cols as int
                    &&& p.model().fresh()
                },
                Err(e) => (rows < 1 || cols < 1) && e == PercolationError::InvalidSize,
            },
    {
        if rows < 1 || cols < 1 {
            return Err(PercolationError::InvalidSize);
        }
        proof {
            lemma_total_positive(rows as int, cols as int);
        }
        let total = rows * cols;
        let uf_grid = match WeightedUnionFind::new(total + 2) {
            Ok(u) => u,
            Err(e) => {
                return Err(e);
            },
        };
        let uf_fullness = match WeightedUnionFind::new(total + 1) {
            Ok(u) => u,
            Err(e) => {
                return Err(e);
            },
        };
        let mut is_open_arr: Vec<bool> = Vec::new();
        let mut k: usize = 0;
        while k < total
            invariant
                k <= total,
                is_open_arr@.len() == k as int,
                forall|i: int| 0 <= i < k as int ==> !(#[trigger] is_open_arr@[i]),
            decreases total - k,
        {
            is_open_arr.push(false);
            k = k + 1;
        }
        let p = Percolation { rows, cols, uf_grid, uf_fullness, open_sites: 0, is_open_arr };
        proof {
            assert(open_site_set(p.is_open_arr@) =~= Set::<int>::empty());
        }
        Ok(p)
    }

    /// The number of rows.
    pub fn get_rows(&self) -> (r: usize)
        ensures
            r as int == self.model().rows,
    {
        self.rows
    }

    /// The number of columns.
    pub fn get_cols(&self) -> (r: usize)
        ensures
            r as int == self.model().cols,
    {
        self.cols
    }

    /// Is `(row, col)` on the grid?
    fn validate_inputs(&self, row: usize, col: usize) -> (r: bool)
        ensures
            r == self.model().in_bounds(row as int, col as int),
    {
        row >= 1 && row <= self.rows && col >= 1 && col <= self.cols
    }

    /// The flat index of the virtual top element.
    fn get_entry_pseudo_element_index(&self) -> (r: usize)
        requires
            self.inv(),
        ensures
            r as int == self.model().vtop(),
    {
        self.rows * self.cols
    }

    /// The flat index of the virtual bottom element.
    fn get_exit_pseudo_element_index(&self) -> (r: usize)
        requires
            self.inv(),
        ensures
            r as int == self.model().vbot(),
    {
        self.rows * self.cols + 1
    }

    /// The flat index of the in-bounds coordinate `(row, col)`.
    fn convert_indice(&self, row: usize, col: usize) -> (r: usize)
        requires
            self.inv(),
            self.model().in_bounds(row as int, col as int),
        ensures
            r as int == self.model().index_of(row as int, col as int),
            (r as int) < self.model().total(),
    {
        proof {
            lemma_index_bounds(self.rows as int, self.cols as int, row as int, col as int);
        }
        (row - 1) * self.cols + (col - 1)
    }

    /// Is the site at `(row, col)` open? Fails with `OutOfRange` exactly when
    /// the coordinate is off the grid.
    pub fn is_open(&self, row: usize, col: usize) -> (r: Result<bool, PercolationError>)
        requires
            self.inv(),
        ensures
            match r {
                Ok(b) => self.model().in_bounds(row as int, col as int) && b == self.model()
                    .site_open(row as int, col as int),
                Err(e) => !self.model().in_bounds(row as int, col as int) && e
                    == PercolationError::OutOfRange,
            },
    {
        if !self.validate_inputs(row, col) {
            return Err(PercolationError::OutOfRange);
        }
        let idx = self.convert_indice(row, col);
        Ok(self.is_open_arr[idx])
    }

    /// Opens the site at `(row, col)` if it is not open already: the site's
    /// bit is set, the open count grows by one, and the site is linked in
    /// both partitions with each already-open grid neighbour and, on the top
    /// row, with the virtual top; on the bottom row it is linked with the
    /// virtual bottom in the percolation partition only, never in the
    /// fullness partition. Opening an already-open site changes nothing.
    /// Fails with `OutOfRange` exactly when the coordinate is off the grid.
    pub fn open(&mut self, row: usize, col: usize) -> (r: Result<(), PercolationError>)
        requires
            old(self).inv(),
        ensures
            final(self).inv(),
            match r {
                Ok(_) => old(self).model().in_bounds(row as int, col as int) && (if old(
                    self,
                ).model().site_open(row as int, col as int) {
                    final(self).model() == old(self).model()
                } else {
                    old(self).model().open_step(final(self).model(), row as int, col as int)
                }),
                Err(e) => {
                    &&& !old(self).model().in_bounds(row as int, col as int)
                    &&& e == PercolationError::OutOfRange
                    &&& final(self).model() == old(self).model()
                },
            },
    {
        if !self.validate_inputs(row, col) {
            return Err(PercolationError::OutOfRange);
        }
        let site = self.convert_indice(row, col);
        if self.is_open_arr[site] {
            return Ok(());
        }
        let top = self.get_entry_pseudo_element_index();
        let bot = self.get_exit_pseudo_element_index();
        let ghost m0 = self.model();
        let ghost ri = row as int;
        let ghost ci = col as int;
        proof {
            if ci < m0.cols {
                lemma_index_bounds(m0.rows, m0.cols, ri, ci + 1);
            }
            if ci > 1 {
                lemma_index_bounds(m0.rows, m0.cols, ri, ci - 1);
            }
            if ri > 1 {
                lemma_index_bounds(m0.rows, m0.cols, ri - 1, ci);
            }
            if ri < m0.rows {
                lemma_index_bounds(m0.rows, m0.cols, ri + 1, ci);
            }
            assert(m0.grid_touches(ri, ci, site as int));
            assert(m0.full_touches(ri, ci, site as int));
            assert(grid_approx(m0, ri, ci, self.uf_grid.repr_map()));
            assert(full_approx(m0, ri, ci, self.uf_fullness.repr_map()));
        }
        if col < self.cols {
            let nb = self.convert_indice(row, col + 1);
            if self.is_open_arr[nb] {
                let ghost gprev = self.uf_grid.repr_map();
                let ghost fprev = self.uf_fullness.repr_map();
                self.uf_grid.union(site, nb);
                self.uf_fullness.union(site, nb);
                proof {
                    assert(m0.grid_touches(ri, ci, nb as int));
                    assert(m0.full_touches(ri, ci, nb as int));
                    lemma_grid_step(
                        m0,
                        ri,
                        ci,
                        gprev,
                        self.uf_grid.repr_map(),
                        site as int,
                        nb as int,
                    );
                    lemma_full_step(
                        m0,
                        ri,
                        ci,
                        fprev,
                        self.uf_fullness.repr_map(),
                        site as int,
                        nb as int,
                    );
                }
            }
        }
        proof {
            assert(grid_approx(m0, ri, ci, self.uf_grid.repr_map()));
            assert(full_approx(m0, ri, ci, self.uf_fullness.repr_map()));
            assert(ci < m0.cols && m0.site_open(ri, ci + 1) ==> rep_eq(
                self.uf_grid.repr_map(),
                site as int,
                m0.index_of(ri, ci + 1),
            ) && rep_eq(self.uf_fullness.repr_map(), site as int, m0.index_of(ri, ci + 1)));
        }
        if col > 1 {
            let nb = self.convert_indice(row, col - 1);
            if self.is_open_arr[nb] {
                let ghost gprev = self.uf_grid.repr_map();
                let ghost fprev = self.uf_fullness.repr_map();
                self.uf_grid.union(site, nb);
                self.uf_fullness.union(site, nb);
                proof {
                    assert(m0.grid_touches(ri, ci, nb as int));
                    assert(m0.full_touches(ri, ci, nb as int));
                    lemma_grid_step(
                        m0,
                        ri,
                        ci,
                        gprev,
                        self.uf_grid.repr_map(),
                        site as int,
                        nb as int,
                    );
                    lemma_full_step(
                        m0,
                        ri,
                        ci,
                        fprev,
                        self.uf_fullness.repr_map(),
                        site as int,
                        nb as int,
                    );
                }
            }
        }
        proof {
            assert(grid_approx(m0, ri, ci, self.uf_grid.repr_map()));
            assert(full_approx(m0, ri, ci, self.uf_fullness.repr_map()));
            assert(ci < m0.cols && m0.site_open(ri, ci + 1) ==> rep_eq(
                self.uf_grid.repr_map(),
                site as int,
                m0.index_of(ri, ci + 1),
            ) && rep_eq(self.uf_fullness.repr_map(), site as int, m0.index_of(ri, ci + 1)));
            assert(ci > 1 && m0.site_open(ri, ci - 1) ==> rep_eq(
                self.uf_grid.repr_map(),
                site as int,
                m0.index_of(ri, ci - 1),
            ) && rep_eq(self.uf_fullness.repr_map(), site as int, m0.index_of(ri, ci - 1)));
        }
        if row > 1 {
            let nb = self.convert_indice(row - 1, col);
            if self.is_open_arr[nb] {
                let ghost gprev = self.uf_grid.repr_map();
                let ghost fprev = self.uf_fullness.repr_map();
                self.uf_grid.union(nb, site);
                self.uf_fullness.union(nb, site);
                proof {
                    assert(m0.grid_touches(ri, ci, nb as int));
                    assert(m0.full_touches(ri, ci, nb as int));
                    lemma_grid_step(
                        m0,
                        ri,
                        ci,
                        gprev,
                        self.uf_grid.repr_map(),
                        nb as int,
                        site as int,
                    );
                    lemma_full_step(
                        m0,
                        ri,
                        ci,
                        fprev,
                        self.uf_fullness.repr_map(),
                        nb as int,
                        site as int,
                    );
                }
            }
        }
        proof {
            assert(grid_approx(m0, ri, ci, self.uf_grid.repr_map()));
            assert(full_approx(m0, ri, ci, self.uf_fullness.repr_map()));
            assert(ci < m0.cols && m0.site_open(ri, ci + 1) ==> rep_eq(
                self.uf_grid.repr_map(),
                site as int,
                m0.index_of(ri, ci + 1),
            ) && rep_eq(self.uf_fullness.repr_map(), site as int, m0.index_of(ri, ci + 1)));
            assert(ci > 1 && m0.site_open(ri, ci - 1) ==> rep_eq(
                self.uf_grid.repr_map(),
                site as int,
                m0.index_of(ri, ci - 1),
            ) && rep_eq(self.uf_fullness.repr_map(), site as int, m0.index_of(ri, ci - 1)));
            assert(ri > 1 && m0.site_open(ri - 1, ci) ==> rep_eq(
                self.uf_grid.repr_map(),
                site as int,
                m0.index_of(ri - 1, ci),
            ) && rep_eq(self.uf_fullness.repr_map(), site as int, m0.index_of(ri - 1, ci)));
        }
        if row < self.rows {
            let nb = self.convert_indice(row + 1, col);
            if self.is_open_arr[nb] {
                let ghost gprev = self.uf_grid.repr_map();
                let ghost fprev = self.uf_fullness.repr_map();
                self.uf_grid.union(nb, site);
                self.uf_fullness.union(nb, site);
                proof {
                    assert(m0.grid_touches(ri, ci, nb as int));
                    assert(m0.full_touches(ri, ci, nb as int));
                    lemma_grid_step(
                        m0,
                        ri,
                        ci,
                        gprev,
                        self.uf_grid.repr_map(),
                        nb as int,
                        site as int,
                    );
                    lemma_full_step(
                        m0,
                        ri,
                        ci,
                        fprev,
                        self.uf_fullness.repr_map(),
                        nb as int,
                        site as int,
                    );
                }
            }
        }
        proof {
            assert(grid_approx(m0, ri, ci, self.uf_grid.repr_map()));
            assert(full_approx(m0, ri, ci, self.uf_fullness.repr_map()));
            assert(ci < m0.cols && m0.site_open(ri, ci + 1) ==> rep_eq(
                self.uf_grid.repr_map(),
                site as int,
                m0.index_of(ri, ci + 1),
            ) && rep_eq(self.uf_fullness.repr_map(), site as int, m0.index_of(ri, ci + 1)));
            assert(ci > 1 && m0.site_open(ri, ci - 1) ==> rep_eq(
                self.uf_grid.repr_map(),
                site as int,
                m0.index_of(ri, ci - 1),
            ) && rep_eq(self.uf_fullness.repr_map(), site as int, m0.index_of(ri, ci - 1)));
            assert(ri > 1 && m0.site_open(ri - 1, ci) ==> rep_eq(
                self.uf_grid.repr_map(),
                site as int,
                m0.index_of(ri - 1, ci),
            ) && rep_eq(self.uf_fullness.repr_map(), site as int, m0.index_of(ri - 1, ci)));
            assert(ri < m0.rows && m0.site_open(ri + 1, ci) ==> rep_eq(
                self.uf_grid.repr_map(),
                site as int,
                m0.index_of(ri + 1, ci),
            ) && rep_eq(self.uf_fullness.repr_map(), site as int, m0.index_of(ri + 1, ci)));
        }
        if row == 1 {
            let ghost gprev = self.uf_grid.repr_map();
            let ghost fprev = self.uf_fullness.repr_map();
            self.uf_grid.union(top, site);
            self.uf_fullness.union(top, site);
            proof {
                assert(m0.grid_touches(ri, ci, m0.vtop()));
                assert(m0.full_touches(ri, ci, m0.vtop()));
                lemma_grid_step(m0, ri, ci, gprev, self.uf_grid.repr_map(), top as int, site as int);
                lemma_full_step(
                    m0,
                    ri,
                    ci,
                    fprev,
                    self.uf_fullness.repr_map(),
                    top as int,
                    site as int,
                );
            }
        }
        if row == self.rows {
            let ghost gprev = self.uf_grid.repr_map();
            self.uf_grid.union(bot, site);
            proof {
                assert(m0.grid_touches(ri, ci, m0.vbot()));
                lemma_grid_step(m0, ri, ci, gprev, self.uf_grid.repr_map(), bot as int, site as int);
            }
        }
        let ghost gend = self.uf_grid.repr_map();
        let ghost fend = self.uf_fullness.repr_map();
        proof {
            assert(grid_approx(m0, ri, ci, gend));
            assert(full_approx(m0, ri, ci, fend));
            assert(ci < m0.cols && m0.site_open(ri, ci + 1) ==> rep_eq(
                gend,
                site as int,
                m0.index_of(ri, ci + 1),
            ) && rep_eq(fend, site as int, m0.index_of(ri, ci + 1)));
            assert(ci > 1 && m0.site_open(ri, ci - 1) ==> rep_eq(
                gend,
                site as int,
                m0.index_of(ri, ci - 1),
            ) && rep_eq(fend, site as int, m0.index_of(ri, ci - 1)));
            assert(ri > 1 && m0.site_open(ri - 1, ci) ==> rep_eq(
                gend,
                site as int,
                m0.index_of(ri - 1, ci),
            ) && rep_eq(fend, site as int, m0.index_of(ri - 1, ci)));
            assert(ri < m0.rows && m0.site_open(ri + 1, ci) ==> rep_eq(
                gend,
                site as int,
                m0.index_of(ri + 1, ci),
            ) && rep_eq(fend, site as int, m0.index_of(ri + 1, ci)));
            assert(ri == 1 ==> rep_eq(gend, site as int, m0.vtop()) && rep_eq(
                fend,
                site as int,
                m0.vtop(),
            ));
            assert(ri == m0.rows ==> rep_eq(gend, site as int, m0.vbot()));
            assert forall|x: int, y: int| #![trigger gend[x], gend[y]]
                0 <= x < m0.total() + 2 && 0 <= y < m0.total() + 2 implies (rep_eq(gend, x, y)
                <==> (rep_eq(m0.grid_rep, x, y) || (m0.grid_touches(ri, ci, x) && m0.grid_touches(
                ri,
                ci,
                y,
            )))) by {
                if m0.grid_touches(ri, ci, x) && m0.grid_touches(ri, ci, y) {
                    assert(rep_eq(gend, x, site as int));
                    assert(rep_eq(gend, y, site as int));
                }
            }
            assert forall|x: int, y: int| #![trigger fend[x], fend[y]]
                0 <= x < m0.total() + 1 && 0 <= y < m0.total() + 1 implies (rep_eq(fend, x, y)
                <==> (rep_eq(m0.full_rep, x, y) || (m0.full_touches(ri, ci, x) && m0.full_touches(
                ri,
                ci,
                y,
            )))) by {
                if m0.full_touches(ri, ci, x) && m0.full_touches(ri, ci, y) {
                    assert(rep_eq(fend, x, site as int));
                    assert(rep_eq(fend, y, site as int));
                }
            }
        }
        let ghost pre_seq = self.is_open_arr@;
        proof {
            lemma_int_range(0, m0.total());
            assert(open_site_set(pre_seq).subset_of(set_int_range(0, m0.total())));
            lemma_len_subset(open_site_set(pre_seq), set_int_range(0, m0.total()));
        }
        self.is_open_arr.set(site, true);
        self.open_sites = self.open_sites + 1;
        proof {
            assert(!open_site_set(pre_seq).contains(site as int));
            assert(open_site_set(self.is_open_arr@) =~= open_site_set(pre_seq).insert(
                site as int,
            ));
            assert(m0.open_step(self.model(), ri, ci));
        }
        Ok(())
    }

    /// Is the site at `(row, col)` full: open and connected to the top edge
    /// through open sites? Fails with `OutOfRange` exactly when the
    /// coordinate is off the grid. (Root lookups compress paths, so this
    /// takes `&mut self`; the abstract state does not change.)
    pub fn is_full(&mut self, row: usize, col: usize) -> (r: Result<bool, PercolationError>)
        requires
            old(self).inv(),
        ensures
            final(self).inv(),
            final(self).model() == old(self).model(),
            match r {
                Ok(b) => old(self).model().in_bounds(row as int, col as int) && b == old(
                    self,
                ).model().is_full(row as int, col as int),
                Err(e) => !old(self).model().in_bounds(row as int, col as int) && e
                    == PercolationError::OutOfRange,
            },
    {
        if !self.validate_inputs(row, col) {
            return Err(PercolationError::OutOfRange);
        }
        let idx = self.convert_indice(row, col);
        if !self.is_open_arr[idx] {
            return Ok(false);
        }
        let top = self.get_entry_pseudo_element_index();
        let rs = self.uf_fullness.find(idx);
        let rt = self.uf_fullness.find(top);
        Ok(rs == rt)
    }

    /// The number of open sites.
    pub fn number_of_open_sites(&self) -> (r: usize)
        ensures
            r as int == self.model().count,
    {
        self.open_sites
    }

    /// Does the grid percolate: does a path of open, pairwise-adjacent sites
    /// connect the top edge to the bottom edge? (Root lookups compress paths,
    /// so this takes `&mut self`; the abstract state does not change.)
    pub fn percolates(&mut self) -> (r: bool)
        requires
            old(self).inv(),
        ensures
            final(self).inv(),
            final(self).model() == old(self).model(),
            r == old(self).model().percolates(),
    {
        let top = self.get_entry_pseudo_element_index();
        let bot = self.get_exit_pseudo_element_index();
        let rt = self.uf_grid.find(top);
        let rb = self.uf_grid.find(bot);
        rt == rb
    }
}

/// A freshly constructed grid has no open site, counts zero open sites, has
/// no full site, and does not percolate.
pub proof fn lemma_fresh_grid(m: PercModel)
    requires
        m.fresh(),
    ensures
        m.count == 0,
        !m.percolates(),
        forall|row: int, col: int| m.in_bounds(row, col) ==> !(#[trigger] m.site_open(row, col)),
        forall|row: int, col: int| m.in_bounds(row, col) ==> !(#[trigger] m.is_full(row, col)),
{
    lemma_total_positive(m.rows, m.cols);
    assert(m.grid_rep[m.vtop()] == m.vtop());
    assert(m.grid_rep[m.vbot()] == m.vbot());
    assert forall|row: int, col: int| m.in_bounds(row, col) implies !(#[trigger] m.site_open(
        row,
        col,
    )) by {
        lemma_index_bounds(m.rows, m.cols, row, col);
    }
    assert forall|row: int, col: int| m.in_bounds(row, col) implies !(#[trigger] m.is_full(
        row,
        col,
    )) by {
        lemma_index_bounds(m.rows, m.cols, row, col);
    }
}

/// Opening is idempotent: a successful open of `(row, col)` leaves that site
/// open and grows the count by exactly one, so by the contract of `open` a
/// second call with the same coordinate changes nothing.
pub proof fn lemma_open_idempotent(pre: PercModel, post: PercModel, row: int, col: int)
    requires
        pre.open.len() == pre.total(),
        pre.open_step(post, row, col),
    ensures
        post.site_open(row, col),
        post.count == pre.count + 1,
{
    lemma_index_bounds(pre.rows, pre.cols, row, col);
}

/// Percolation is monotonic: once the grid percolates, it still percolates
/// after any further site is opened.
pub proof fn lemma_percolates_monotonic(pre: PercModel, post: PercModel, row: int, col: int)
    requires
        pre.open_step(post, row, col),
        pre.percolates(),
    ensures
        post.percolates(),
{
    lemma_total_positive(pre.rows, pre.cols);
    assert(rep_eq(post.grid_rep, pre.vtop(), pre.vbot()));
}

/// Fullness implies openness: a full site is an open site.
pub proof fn lemma_full_implies_open(m: PercModel, row: int, col: int)
    requires
        m.is_full(row, col),
    ensures
        m.site_open(row, col),
{
}

/// Two freshly constructed grids of the same dimensions are
/// indistinguishable, so replaying one sequence of opens on two independent
/// instances starts from indistinguishable states.
pub proof fn lemma_fresh_equiv(m1: PercModel, m2: PercModel)
    requires
        m1.fresh(),
        m2.fresh(),
        m1.rows == m2.rows,
        m1.cols == m2.cols,
    ensures
        m1.equiv(m2),
{
    assert(m1.open =~= m2.open);
}

/// Opening the same site in two indistinguishable states yields two
/// indistinguishable states: replaying one sequence of opens on two
/// independent instances keeps the states indistinguishable at every step.
pub proof fn lemma_open_deterministic(
    pre1: PercModel,
    pre2: PercModel,
    post1: PercModel,
    post2: PercModel,
    row: int,
    col: int,
)
    requires
        pre1.equiv(pre2),
        pre1.open_step(post1, row, col),
        pre2.open_step(post2, row, col),
    ensures
        post1.equiv(post2),
{
    lemma_index_bounds(pre1.rows, pre1.cols, row, col);
    if col < pre1.cols {
        lemma_index_bounds(pre1.rows, pre1.cols, row, col + 1);
    }
    if col > 1 {
        lemma_index_bounds(pre1.rows, pre1.cols, row, col - 1);
    }
    if row > 1 {
        lemma_index_bounds(pre1.rows, pre1.cols, row - 1, col);
    }
    if row < pre1.rows {
        lemma_index_bounds(pre1.rows, pre1.cols, row + 1, col);
    }
    assert forall|x: int|
        0 <= x < pre1.total() + 2 implies (pre1.grid_touches(row, col, x) <==> pre2.grid_touches(
        row,
        col,
        x,
    )) by {
        assert(rep_eq(pre1.grid_rep, x, pre1.index_of(row, col)) <==> rep_eq(
            pre2.grid_rep,
            x,
            pre2.index_of(row, col),
        ));
        assert(rep_eq(pre1.grid_rep, x, pre1.vtop()) <==> rep_eq(pre2.grid_rep, x, pre2.vtop()));
        assert(rep_eq(pre1.grid_rep, x, pre1.vbot()) <==> rep_eq(pre2.grid_rep, x, pre2.vbot()));
    }
    assert forall|x: int|
        0 <= x < pre1.total() + 1 implies (pre1.full_touches(row, col, x) <==> pre2.full_touches(
        row,
        col,
        x,
    )) by {
        assert(rep_eq(pre1.full_rep, x, pre1.index_of(row, col)) <==> rep_eq(
            pre2.full_rep,
            x,
            pre2.index_of(row, col),
        ));
        assert(rep_eq(pre1.full_rep, x, pre1.vtop()) <==> rep_eq(pre2.full_rep, x, pre2.vtop()));
    }
    assert forall|x: int, y: int| #![trigger post1.grid_rep[x], post1.grid_rep[y]]
        0 <= x < post1.total() + 2 && 0 <= y < post1.total() + 2 implies (rep_eq(
        post1.grid_rep,
        x,
        y,
    ) <==> rep_eq(post2.grid_rep, x, y)) by {
        assert(rep_eq(post2.grid_rep, x, y) <==> (rep_eq(pre2.grid_rep, x, y) || (
        pre2.grid_touches(row, col, x) && pre2.grid_touches(row, col, y))));
    }
    assert forall|x: int, y: int| #![trigger post1.full_rep[x], post1.full_rep[y]]
        0 <= x < post1.total() + 1 && 0 <= y < post1.total() + 1 implies (rep_eq(
        post1.full_rep,
        x,
        y,
    ) <==> rep_eq(post2.full_rep, x, y)) by {
        assert(rep_eq(post2.full_rep, x, y) <==> (rep_eq(pre2.full_rep, x, y) || (
        pre2.full_touches(row, col, x) && pre2.full_touches(row, col, y))));
    }
}

/// Two indistinguishable states answer every query alike.
pub proof fn lemma_equiv_queries(m1: PercModel, m2: PercModel)
    requires
        m1.equiv(m2),
        m1.rows >= 1,
        m1.cols >= 1,
    ensures
        m1.count == m2.count,
        m1.percolates() == m2.percolates(),
        forall|row: int, col: int|
            m1.in_bounds(row, col) ==> (#[trigger] m1.site_open(row, col)) == m2.site_open(
                row,
                col,
            ),
        forall|row: int, col: int|
            m1.in_bounds(row, col) ==> (#[trigger] m1.is_full(row, col)) == m2.is_full(row, col),
{
    lemma_total_positive(m1.rows, m1.cols);
    assert(rep_eq(m1.grid_rep, m1.vtop(), m1.vbot()) <==> rep_eq(m2.grid_rep, m2.vtop(), m2.vbot()));
    assert forall|row: int, col: int| m1.in_bounds(row, col) implies (#[trigger] m1.is_full(
        row,
        col,
    )) == m2.is_full(row, col) by {
        lemma_index_bounds(m1.rows, m1.cols, row, col);
        assert(rep_eq(m1.full_rep, m1.index_of(row, col), m1.vtop()) <==> rep_eq(
            m2.full_rep,
            m2.index_of(row, col),
            m2.vtop(),
        ));
    }
}

} // verus!
