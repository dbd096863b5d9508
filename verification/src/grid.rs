//! The background grid and active list of Bridson's Poisson disk sampling.
//!
//! The grid has `size × size` cells, each either empty (`-1`) or holding the
//! index of the accepted sample that lies in it. The active list holds the
//! indices of the samples around which new candidates are still tried.
//! Candidate positions themselves are continuous and are kept by the caller;
//! this type decides which cells and samples take part in each step.
use vstd::prelude::*;

verus! {

/// The `k`-th cell, in row-major order, of the 5×5 window centred on `(gx, gy)`.
pub open spec fn window_cell(gx: int, gy: int, k: int) -> (int, int) {
    (gx + k % 5 - 2, gy + k / 5 - 2)
}

/// Position of cell `(gx, gy)` in the row-major cell vector of a grid of side `size`.
pub open spec fn cell_index(size: int, gx: int, gy: int) -> int {
    gy * size + gx
}

/// Cells of a grid are stored at distinct positions inside the cell vector.
pub proof fn lemma_cell_index(size: int, gx: int, gy: int, hx: int, hy: int)
    requires
        0 <= gx < size,
        0 <= gy < size,
        0 <= hx < size,
        0 <= hy < size,
    ensures
        0 <= cell_index(size, gx, gy) < size * size,
        cell_index(size, gx, gy) == cell_index(size, hx, hy) ==> gx == hx && gy == hy,
{
    assert(0 <= gy * size + gx < size * size) by (nonlinear_arith)
        requires
            0 <= gx < size,
            0 <= gy < size,
    ;
    assert(gy * size + gx == hy * size + hx ==> gx == hx && gy == hy) by (nonlinear_arith)
        requires
            0 <= gx < size,
            0 <= gy < size,
            0 <= hx < size,
            0 <= hy < size,
    ;
}

proof fn lemma_side_fits(size: int)
    requires
        0 <= size,
        size * size <= usize::MAX,
    ensures
        size < 0x1_0000_0000,
{
    assert(size < 0x1_0000_0000) by (nonlinear_arith)
        requires
            0 <= size,
            size * size <= 0xffff_ffff_ffff_ffff,
    ;
}

/// The background grid and active list of one run of Poisson disk sampling.
pub struct SampleGrid {
    cells: Vec<i32>,
    size: usize,
    active: Vec<usize>,
    accepted: usize,
}

impl SampleGrid {
    /// Side length of the grid, in cells.
    pub closed spec fn grid_size(&self) -> nat {
        self.size as nat
    }

    /// The cells in row-major order: `-1` for empty, else a sample index.
    pub closed spec fn cells(&self) -> Seq<i32> {
        self.cells@
    }

    /// Indices of the samples that are still active, in list order.
    pub closed spec fn active(&self) -> Seq<usize> {
        self.active@
    }

    /// Number of samples accepted so far; they have indices `0..accepted`.
    pub closed spec fn accepted(&self) -> nat {
        self.accepted as nat
    }

    /// Whether `(gx, gy)` is a cell of the grid.
    pub open spec fn in_grid(&self, gx: int, gy: int) -> bool {
        0 <= gx < self.grid_size() && 0 <= gy < self.grid_size()
    }

    /// The content of cell `(gx, gy)`.
    pub open spec fn cell(&self, gx: int, gy: int) -> i32 {
        self.cells()[cell_index(self.grid_size() as int, gx, gy)]
    }

    /// Whether `(gx, gy)` is a cell of the grid that holds a sample.
    pub open spec fn occupied(&self, gx: int, gy: int) -> bool {
        self.in_grid(gx, gy) && self.cell(gx, gy) >= 0
    }

    /// Well-formedness: the cell vector covers the grid, every occupied cell
    /// and every active entry names an accepted sample, and no sample is
    /// active twice.
    pub open spec fn wf(&self) -> bool {
        &&& self.grid_size() > 0
        &&& self.grid_size() * self.grid_size() <= usize::MAX
        &&& self.cells().len() == self.grid_size() * self.grid_size()
        &&& self.accepted() <= i32::MAX
        &&& forall|i: int|
            0 <= i < self.cells().len() ==> #[trigger] self.cells()[i] == -1 || (0
                <= self.cells()[i] < self.accepted())
        &&& forall|j: int| 0 <= j < self.active().len() ==> #[trigger] self.active()[j] < self.accepted()
        &&& self.active().no_duplicates()
    }

    /// Sample indices held by the first `k` cells, in row-major order, of the
    /// 5×5 window centred on `(gx, gy)`, skipping cells that are empty or
    /// outside the grid.
    pub open spec fn window_scan(&self, gx: int, gy: int, k: nat) -> Seq<usize>
        decreases k,
    {
        if k == 0 {
            Seq::empty()
        } else {
            let prev = self.window_scan(gx, gy, (k - 1) as nat);
            let c = window_cell(gx, gy, k - 1);
            if self.occupied(c.0, c.1) {
                prev.push(self.cell(c.0, c.1) as usize)
            } else {
                prev
            }
        }
    }

    /// A grid of `grid_size × grid_size` empty cells with no sample accepted.
    pub fn new(grid_size: usize) -> (g: Self)
        requires
            grid_size > 0,
            grid_size * grid_size <= usize::MAX,
        ensures
            g.wf(),
            g.grid_size() == grid_size,
            forall|i: int| 0 <= i < g.cells().len() ==> #[trigger] g.cells()[i] == -1,
            g.active().len() == 0,
            g.accepted() == 0,
    {
        let n = grid_size * grid_size;
        let mut cells: Vec<i32> = Vec::with_capacity(n);
        for i in 0..n
            invariant
                cells@.len() == i,
                forall|j: int| 0 <= j < i ==> #[trigger] cells@[j] == -1,
        {
            cells.push(-1);
        }
        SampleGrid { cells, size: grid_size, active: Vec::new(), accepted: 0 }
    }

    /// Side length of the grid, in cells.
    pub fn size(&self) -> (s: usize)
        ensures
            s == self.grid_size(),
    {
        self.size
    }

    /// Number of samples accepted so far.
    pub fn accepted_count(&self) -> (n: usize)
        ensures
            n == self.accepted(),
    {
        self.accepted
    }

    /// Number of active samples.
    pub fn active_len(&self) -> (n: usize)
        ensures
            n == self.active().len(),
    {
        self.active.len()
    }

    /// Clamps a cell coordinate to the last row or column of the grid.
    pub fn clamp_cell(&self, g: usize) -> (c: usize)
        requires
            self.wf(),
        ensures
            c == if g < self.grid_size() {
                g as int
            } else {
                self.grid_size() - 1
            },
    {
        if g < self.size {
            g
        } else {
            self.size - 1
        }
    }

    /// Whether sampling goes on: some sample is still active and fewer than
    /// twice `target_count` samples have been accepted.
    pub fn is_running(&self, target_count: u32) -> (b: bool)
        ensures
            b == (self.active().len() > 0 && self.accepted() < 2 * target_count),
    {
        !self.active.is_empty() && (self.accepted as u64) < (target_count as u64) * 2
    }

    /// Picks the active entry at position `scaled`, clamped to the end of the
    /// active list; returns that position and the sample it names.
    pub fn pick_active(&self, scaled: usize) -> (r: (usize, usize))
        requires
            self.wf(),
            self.active().len() > 0,
        ensures
            r.0 == if scaled < self.active().len() {
                scaled as int
            } else {
                self.active().len() - 1
            },
            r.1 == self.active()[r.0 as int],
            r.1 < self.accepted(),
    {
        let last = self.active.len() - 1;
        let i = if scaled < last {
            scaled
        } else {
            last
        };
        (i, self.active[i])
    }

    /// Accepts a new sample in cell `(gx, gy)`: the cell takes its index, and
    /// it joins the end of the active list. Returns the new sample's index.
    pub fn accept(&mut self, gx: usize, gy: usize) -> (idx: usize)
        requires
            old(self).wf(),
            gx < old(self).grid_size(),
            gy < old(self).grid_size(),
            old(self).accepted() < i32::MAX,
        ensures
            final(self).wf(),
            idx == old(self).accepted(),
            final(self).accepted() == old(self).accepted() + 1,
            final(self).grid_size() == old(self).grid_size(),
            final(self).cells() == old(self).cells().update(
                cell_index(old(self).grid_size() as int, gx as int, gy as int),
                idx as i32,
            ),
            final(self).active() == old(self).active().push(idx),
            final(self).cells()[gy * (old(self).grid_size() as int) + gx] == idx as i32,
            forall|i: int|
                0 <= i < old(self).cells().len() && i != gy * (old(self).grid_size() as int) + gx
                    ==> #[trigger] final(self).cells()[i] == old(self).cells()[i],
    {
        proof {
            lemma_cell_index(self.size as int, gx as int, gy as int, gx as int, gy as int);
        }
        let idx = self.accepted;
        let pos = gy * self.size + gx;
        self.cells.set(pos, idx as i32);
        self.active.push(idx);
        self.accepted = idx + 1;
        proof {
            assert forall|i: int, j: int|
                0 <= i < self.active@.len() && 0 <= j < self.active@.len() && i != j implies
                self.active@[i] != self.active@[j] by {
                if i == self.active@.len() - 1 {
                    assert(old(self).active@[j] < idx);
                } else if j == self.active@.len() - 1 {
                    assert(old(self).active@[i] < idx);
                }
            }
        }
        idx
    }

    /// Removes the entry at position `active_idx` from the active list; the
    /// last entry takes its place.
    pub fn retire(&mut self, active_idx: usize)
        requires
            old(self).wf(),
            active_idx < old(self).active().len(),
        ensures
            final(self).wf(),
            final(self).active() == old(self).active().update(
                active_idx as int,
                old(self).active().last(),
            ).drop_last(),
            final(self).cells() == old(self).cells(),
            final(self).grid_size() == old(self).grid_size(),
            final(self).accepted() == old(self).accepted(),
            forall|s: usize|
                #[trigger] final(self).active().contains(s) <==> (old(self).active().contains(s)
                    && s != old(self).active()[active_idx as int]),
    {
        let ghost a = self.active@;
        let ghost k = active_idx as int;
        let ghost n = a.len();
        self.active.swap_remove(active_idx);
        proof {
            let b = self.active@;
            assert(b.len() == n - 1);
            assert forall|i: int| 0 <= i < b.len() implies b[i] == (if i == k {
                a[n - 1]
            } else {
                a[i]
            }) by {}
            assert forall|i: int, j: int| 0 <= i < b.len() && 0 <= j < b.len() && i != j implies b[i]
                != b[j] by {
                if i == k {
                    assert(a[n - 1] != a[j]);
                } else if j == k {
                    assert(a[i] != a[n - 1]);
                }
            }
            assert forall|s: usize| #[trigger] b.contains(s) <==> (a.contains(s) && s != a[k]) by {
                if b.contains(s) {
                    let i = choose|i: int| 0 <= i < b.len() && b[i] == s;
                    if i == k {
                        assert(a[n - 1] == s);
                        assert(n - 1 != k);
                    } else {
                        assert(a[i] == s);
                    }
                }
                if a.contains(s) && s != a[k] {
                    let i = choose|i: int| 0 <= i < a.len() && a[i] == s;
                    if i == n - 1 {
                        assert(b[k] == s);
                    } else {
                        assert(b[i] == s);
                    }
                }
            }
        }
    }

    /// Sample indices held by the cells of the 5×5 window centred on
    /// `(gx, gy)`, in row-major order, skipping empty cells and cells outside
    /// the grid.
    pub fn neighbors(&self, gx: usize, gy: usize) -> (r: Vec<usize>)
        requires
            self.wf(),
            gx < self.grid_size(),
            gy < self.grid_size(),
        ensures
            r@ == self.window_scan(gx as int, gy as int, 25),
            forall|i: int| 0 <= i < r@.len() ==> #[trigger] r@[i] < self.accepted(),
            exists|ks: Seq<int>|
                #![trigger ks.len()]
                {
                    &&& ks.len() == r@.len()
                    &&& forall|m: int|
                        0 <= m < ks.len() ==> 0 <= #[trigger] ks[m] < 25 && r@[m] == self.cells()[(gy + ks[m] / 5 - 2) * (self.grid_size() as int) + (gx + ks[m] % 5 - 2)] as usize
                    &&& forall|m1: int, m2: int|
                        0 <= m1 < m2 < ks.len() ==> #[trigger] ks[m1] < #[trigger] ks[m2]
                    &&& forall|k: int|
                        0 <= k < 25 ==> (#[trigger] ks.contains(k) <==> (0 <= gx + k % 5 - 2
                            < self.grid_size() && 0 <= gy + k / 5 - 2 < self.grid_size() && self.cells()[(gy + k / 5 - 2) * (self.grid_size() as int) + (gx + k % 5 - 2)] >= 0))
                },
            forall|hx: int, hy: int|
                #![trigger self.cells()[hy * (self.grid_size() as int) + hx]]
                0 <= hx < self.grid_size() && 0 <= hy < self.grid_size() && gx - 2 <= hx <= gx + 2
                    && gy - 2 <= hy <= gy + 2 && self.cells()[hy * (self.grid_size() as int) + hx] >= 0
                    ==> r@.contains(self.cells()[hy * (self.grid_size() as int) + hx] as usize),
    {
        proof {
            lemma_side_fits(self.size as int);
        }
        let size = self.size as i64;
        let cx = gx as i64;
        let cy = gy as i64;
        let mut out: Vec<usize> = Vec::new();
        for k in 0..25usize
            invariant
                self.wf(),
                size == self.grid_size(),
                size < 0x1_0000_0000,
                cx == gx,
                cy == gy,
                gx < self.grid_size(),
                gy < self.grid_size(),
                out@ == self.window_scan(gx as int, gy as int, k as nat),
                forall|i: int| 0 <= i < out@.len() ==> #[trigger] out@[i] < self.accepted(),
        {
            let nx = cx + (k % 5) as i64 - 2;
            let ny = cy + (k / 5) as i64 - 2;
            assert(window_cell(gx as int, gy as int, k as int) == (nx as int, ny as int));
            if nx >= 0 && ny >= 0 && nx < size && ny < size {
                proof {
                    lemma_cell_index(size as int, nx as int, ny as int, nx as int, ny as int);
                }
                let pos = (ny as usize) * self.size + (nx as usize);
                let c = self.cells[pos];
                if c >= 0 {
                    out.push(c as usize);
                }
            }
        }
        proof {
            lemma_window_scan_selects(*self, gx as int, gy as int);
            assert forall|hx: int, hy: int|
                #![trigger self.cells()[hy * (self.grid_size() as int) + hx]]
                0 <= hx < self.grid_size() && 0 <= hy < self.grid_size() && gx - 2 <= hx <= gx + 2
                    && gy - 2 <= hy <= gy + 2 && self.cells()[hy * (self.grid_size() as int) + hx] >= 0
                    implies out@.contains(self.cells()[hy * (self.grid_size() as int) + hx] as usize) by {
                lemma_window_reports_cell(*self, gx as int, gy as int, hx, hy);
            }
        }
        out
    }
}

/// Accepting a sample puts its index in the chosen cell and leaves every other
/// cell as it was.
pub proof fn lemma_accept_cells(before: SampleGrid, after: SampleGrid, gx: int, gy: int, idx: int)
    requires
        before.wf(),
        before.in_grid(gx, gy),
        after.grid_size() == before.grid_size(),
        after.cells() == before.cells().update(
            cell_index(before.grid_size() as int, gx, gy),
            idx as i32,
        ),
        0 <= idx <= i32::MAX,
    ensures
        after.cell(gx, gy) == idx,
        forall|hx: int, hy: int|
            #![trigger after.cell(hx, hy)]
            before.in_grid(hx, hy) && (hx != gx || hy != gy) ==> after.cell(hx, hy) == before.cell(
                hx,
                hy,
            ),
{
    let s = before.grid_size() as int;
    lemma_cell_index(s, gx, gy, gx, gy);
    assert forall|hx: int, hy: int|
        #![trigger after.cell(hx, hy)]
        before.in_grid(hx, hy) && (hx != gx || hy != gy) implies after.cell(hx, hy) == before.cell(
        hx,
        hy,
    ) by {
        lemma_cell_index(s, gx, gy, hx, hy);
        lemma_cell_index(s, hx, hy, hx, hy);
    }
}

/// A sample index is found by scanning the first `k` window cells exactly when
/// one of those cells is occupied by that sample.
proof fn lemma_window_scan_contains(g: SampleGrid, gx: int, gy: int, k: nat, s: usize)
    requires
        g.wf(),
    ensures
        g.window_scan(gx, gy, k).contains(s) <==> exists|j: int|
            #![trigger window_cell(gx, gy, j)]
            0 <= j < k && g.occupied(window_cell(gx, gy, j).0, window_cell(gx, gy, j).1)
                && g.cell(window_cell(gx, gy, j).0, window_cell(gx, gy, j).1) as usize == s,
    decreases k,
{
    if k > 0 {
        let prev = g.window_scan(gx, gy, (k - 1) as nat);
        lemma_window_scan_contains(g, gx, gy, (k - 1) as nat, s);
        let c = window_cell(gx, gy, k - 1);
        let cur = g.window_scan(gx, gy, k);
        if g.occupied(c.0, c.1) {
            let v = g.cell(c.0, c.1) as usize;
            assert(cur == prev.push(v));
            if cur.contains(s) {
                let i = choose|i: int| 0 <= i < cur.len() && cur[i] == s;
                if i < prev.len() {
                    assert(prev[i] == s);
                    assert(prev.contains(s));
                } else {
                    assert(v == s);
                }
            }
            if prev.contains(s) {
                let i = choose|i: int| 0 <= i < prev.len() && prev[i] == s;
                assert(cur[i] == s);
            }
            if v == s {
                assert(cur[prev.len() as int] == s);
            }
        }
    }
}

/// The samples that a neighbor query of cell `(gx, gy)` reports are exactly
/// those held by occupied cells at most two columns and two rows away from it.
pub proof fn lemma_window_scan_is_window(g: SampleGrid, gx: int, gy: int, s: usize)
    requires
        g.wf(),
    ensures
        g.window_scan(gx, gy, 25).contains(s) <==> exists|hx: int, hy: int|
            #![trigger g.cell(hx, hy)]
            gx - 2 <= hx <= gx + 2 && gy - 2 <= hy <= gy + 2 && g.occupied(hx, hy) && g.cell(hx, hy)
                as usize == s,
{
    lemma_window_scan_contains(g, gx, gy, 25, s);
    if g.window_scan(gx, gy, 25).contains(s) {
        let j = choose|j: int|
            #![trigger window_cell(gx, gy, j)]
            0 <= j < 25 && g.occupied(window_cell(gx, gy, j).0, window_cell(gx, gy, j).1)
                && g.cell(window_cell(gx, gy, j).0, window_cell(gx, gy, j).1) as usize == s;
        let c = window_cell(gx, gy, j);
        assert(0 <= j % 5 < 5 && 0 <= j / 5 < 5);
        assert(g.cell(c.0, c.1) as usize == s);
    }
    if exists|hx: int, hy: int|
        #![trigger g.cell(hx, hy)]
        gx - 2 <= hx <= gx + 2 && gy - 2 <= hy <= gy + 2 && g.occupied(hx, hy) && g.cell(hx, hy) as usize
            == s {
        let (hx, hy) = choose|hx: int, hy: int|
            #![trigger g.cell(hx, hy)]
            gx - 2 <= hx <= gx + 2 && gy - 2 <= hy <= gy + 2 && g.occupied(hx, hy) && g.cell(hx, hy)
                as usize == s;
        let dx = hx - gx + 2;
        let dy = hy - gy + 2;
        let j = dy * 5 + dx;
        assert(j % 5 == dx && j / 5 == dy) by (nonlinear_arith)
            requires
                0 <= dx < 5,
                0 <= dy < 5,
                j == dy * 5 + dx,
        ;
        assert(window_cell(gx, gy, j) == (hx, hy));
        assert(0 <= j < 25);
    }
}


/// The first `n` cells of the window scan select, in row-major order, exactly
/// the window positions `k < n` whose cell lies in the grid and holds a sample.
proof fn lemma_window_scan_selects_upto(g: SampleGrid, gx: int, gy: int, n: nat)
    requires
        g.wf(),
        n <= 25,
    ensures
        exists|ks: Seq<int>|
            #![trigger ks.len()]
            {
                &&& ks.len() == g.window_scan(gx, gy, n).len()
                &&& forall|m: int|
                    0 <= m < ks.len() ==> 0 <= #[trigger] ks[m] < n && g.window_scan(gx, gy, n)[m] == g.cells()[(gy + ks[m] / 5 - 2) * (g.grid_size() as int) + (gx + ks[m] % 5 - 2)] as usize
                &&& forall|m1: int, m2: int|
                    0 <= m1 < m2 < ks.len() ==> #[trigger] ks[m1] < #[trigger] ks[m2]
                &&& forall|k: int| 0 <= k < n ==> (#[trigger] ks.contains(k) <==> (0 <= gx + k % 5 - 2 < g.grid_size() && 0 <= gy + k / 5 - 2 < g.grid_size() && g.cells()[(gy + k / 5 - 2) * (g.grid_size() as int) + (gx + k % 5 - 2)] >= 0))
            },
    decreases n,
{
    let scan = g.window_scan(gx, gy, n);
    if n == 0 {
        let ks = Seq::<int>::empty();
        assert(ks.len() == scan.len());
    } else {
        let prev = g.window_scan(gx, gy, (n - 1) as nat);
        lemma_window_scan_selects_upto(g, gx, gy, (n - 1) as nat);
        let ks0 = choose|ks: Seq<int>|
            #![trigger ks.len()]
            {
                &&& ks.len() == prev.len()
                &&& forall|m: int|
                    0 <= m < ks.len() ==> 0 <= #[trigger] ks[m] < n - 1 && prev[m] == g.cells()[(gy + ks[m] / 5 - 2) * (g.grid_size() as int) + (gx + ks[m] % 5 - 2)] as usize
                &&& forall|m1: int, m2: int|
                    0 <= m1 < m2 < ks.len() ==> #[trigger] ks[m1] < #[trigger] ks[m2]
                &&& forall|k: int| 0 <= k < n - 1 ==> (#[trigger] ks.contains(k) <==> (0 <= gx + k % 5 - 2 < g.grid_size() && 0 <= gy + k / 5 - 2 < g.grid_size() && g.cells()[(gy + k / 5 - 2) * (g.grid_size() as int) + (gx + k % 5 - 2)] >= 0))
            };
        let j = n - 1;
        let c = window_cell(gx, gy, j);
        assert(c == (gx + j % 5 - 2, gy + j / 5 - 2));
        assert(g.occupied(c.0, c.1) <==> (0 <= gx + j % 5 - 2 < g.grid_size() && 0 <= gy + j / 5 - 2 < g.grid_size() && g.cells()[(gy + j / 5 - 2) * (g.grid_size() as int) + (gx + j % 5 - 2)] >= 0));
        assert(!ks0.contains(j)) by {
            if ks0.contains(j) {
                let m = choose|m: int| 0 <= m < ks0.len() && ks0[m] == j;
                assert(ks0[m] < n - 1);
            }
        }
        if g.occupied(c.0, c.1) {
            let ks = ks0.push(j);
            assert(scan == prev.push(g.cell(c.0, c.1) as usize));
            assert(g.cell(c.0, c.1) == g.cells()[(gy + j / 5 - 2) * (g.grid_size() as int) + (gx + j % 5 - 2)]);
            assert(ks.len() == scan.len());
            assert forall|m: int| 0 <= m < ks.len() implies 0 <= #[trigger] ks[m] < n && scan[m] == g.cells()[(gy + ks[m] / 5 - 2) * (g.grid_size() as int) + (gx + ks[m] % 5 - 2)] as usize by {
                if m < ks0.len() {
                    assert(ks[m] == ks0[m]);
                }
            }
            assert forall|m1: int, m2: int| 0 <= m1 < m2 < ks.len() implies #[trigger] ks[m1] < #[trigger] ks[m2] by {
                assert(ks[m1] == ks0[m1]);
                if m2 < ks0.len() {
                    assert(ks[m2] == ks0[m2]);
                }
            }
            assert forall|k: int| 0 <= k < n implies (#[trigger] ks.contains(k) <==> (0 <= gx + k % 5 - 2 < g.grid_size() && 0 <= gy + k / 5 - 2 < g.grid_size() && g.cells()[(gy + k / 5 - 2) * (g.grid_size() as int) + (gx + k % 5 - 2)] >= 0)) by {
                if k < j {
                    if ks.contains(k) {
                        let m = choose|m: int| 0 <= m < ks.len() && ks[m] == k;
                        assert(m < ks0.len());
                        assert(ks0[m] == k);
                    }
                    if ks0.contains(k) {
                        let m = choose|m: int| 0 <= m < ks0.len() && ks0[m] == k;
                        assert(ks[m] == k);
                    }
                } else {
                    assert(ks[ks0.len() as int] == k);
                }
            }
        } else {
            assert(scan == prev);
            assert(ks0.len() == scan.len());
            assert forall|m: int| 0 <= m < ks0.len() implies 0 <= #[trigger] ks0[m] < n && scan[m]
                == g.cells()[(gy + ks0[m] / 5 - 2) * (g.grid_size() as int) + (gx + ks0[m] % 5 - 2)] as usize by {}
            assert forall|k: int| 0 <= k < n implies (#[trigger] ks0.contains(k) <==> (0 <= gx + k % 5 - 2 < g.grid_size() && 0 <= gy + k / 5 - 2 < g.grid_size() && g.cells()[(gy + k / 5 - 2) * (g.grid_size() as int) + (gx + k % 5 - 2)] >= 0)) by {}
        }
    }
}

/// A neighbor query of cell `(gx, gy)` selects, in row-major order, exactly
/// the samples of the cells `(gx + k % 5 - 2, gy + k / 5 - 2)`, `k < 25`, that lie
/// inside the `grid_size × grid_size` grid and are not empty (`>= 0`).
pub proof fn lemma_window_scan_selects(g: SampleGrid, gx: int, gy: int)
    requires
        g.wf(),
    ensures
        exists|ks: Seq<int>|
            #![trigger ks.len()]
            {
                &&& ks.len() == g.window_scan(gx, gy, 25).len()
                &&& forall|m: int|
                    0 <= m < ks.len() ==> 0 <= #[trigger] ks[m] < 25 && g.window_scan(gx, gy, 25)[m] == g.cells()[(gy + ks[m] / 5 - 2) * (g.grid_size() as int) + (gx + ks[m] % 5 - 2)] as usize
                &&& forall|m1: int, m2: int|
                    0 <= m1 < m2 < ks.len() ==> #[trigger] ks[m1] < #[trigger] ks[m2]
                &&& forall|k: int| 0 <= k < 25 ==> (#[trigger] ks.contains(k) <==> (0 <= gx + k % 5 - 2 < g.grid_size() && 0 <= gy + k / 5 - 2 < g.grid_size() && g.cells()[(gy + k / 5 - 2) * (g.grid_size() as int) + (gx + k % 5 - 2)] >= 0))
            },
{
    lemma_window_scan_selects_upto(g, gx, gy, 25);
}

/// Every sample held by a cell `(hx, hy)` with `0 <= hx, hy < grid_size` at
/// most two columns and two rows away from `(gx, gy)` is reported by a
/// neighbor query of `(gx, gy)`.
pub proof fn lemma_window_reports_cell(g: SampleGrid, gx: int, gy: int, hx: int, hy: int)
    requires
        g.wf(),
        0 <= hx < g.grid_size(),
        0 <= hy < g.grid_size(),
        gx - 2 <= hx <= gx + 2,
        gy - 2 <= hy <= gy + 2,
        g.cells()[hy * (g.grid_size() as int) + hx] >= 0,
    ensures
        g.window_scan(gx, gy, 25).contains(g.cells()[hy * (g.grid_size() as int) + hx] as usize),
{
    let scan = g.window_scan(gx, gy, 25);
    lemma_window_scan_selects(g, gx, gy);
    let ks = choose|ks: Seq<int>|
        #![trigger ks.len()]
        {
            &&& ks.len() == scan.len()
            &&& forall|m: int|
                0 <= m < ks.len() ==> 0 <= #[trigger] ks[m] < 25 && scan[m] == g.cells()[(gy + ks[m] / 5 - 2) * (g.grid_size() as int) + (gx + ks[m] % 5 - 2)] as usize
            &&& forall|m1: int, m2: int|
                0 <= m1 < m2 < ks.len() ==> #[trigger] ks[m1] < #[trigger] ks[m2]
            &&& forall|k: int| 0 <= k < 25 ==> (#[trigger] ks.contains(k) <==> (0 <= gx + k % 5 - 2 < g.grid_size() && 0 <= gy + k / 5 - 2 < g.grid_size() && g.cells()[(gy + k / 5 - 2) * (g.grid_size() as int) + (gx + k % 5 - 2)] >= 0))
        };
    let dx = hx - gx + 2;
    let dy = hy - gy + 2;
    let k = dy * 5 + dx;
    assert(k % 5 == dx && k / 5 == dy) by (nonlinear_arith)
        requires
            0 <= dx < 5,
            0 <= dy < 5,
            k == dy * 5 + dx,
    ;
    assert(0 <= k < 25);
    assert(ks.contains(k));
    let m = choose|m: int| 0 <= m < ks.len() && ks[m] == k;
    assert(scan[m] == g.cells()[hy * (g.grid_size() as int) + hx] as usize);
}

/// A sample is always reported by a neighbor query of its own cell.
pub proof fn lemma_window_scan_has_center(g: SampleGrid, gx: int, gy: int)
    requires
        g.wf(),
        g.occupied(gx, gy),
    ensures
        g.window_scan(gx, gy, 25).contains(g.cell(gx, gy) as usize),
{
    lemma_window_scan_is_window(g, gx, gy, g.cell(gx, gy) as usize);
}

/// Once a sample has been accepted into a cell, a neighbor query of that cell
/// reports it.
pub proof fn lemma_accepted_sample_is_reported(
    before: SampleGrid,
    after: SampleGrid,
    gx: int,
    gy: int,
    idx: usize,
)
    requires
        before.wf(),
        after.wf(),
        0 <= gx < before.grid_size(),
        0 <= gy < before.grid_size(),
        idx <= i32::MAX,
        after.grid_size() == before.grid_size(),
        after.cells() == before.cells().update(gy * (before.grid_size() as int) + gx, idx as i32),
    ensures
        after.window_scan(gx, gy, 25).contains(idx),
{
    let s = before.grid_size() as int;
    lemma_cell_index(s, gx, gy, gx, gy);
    assert(after.cells()[gy * s + gx] == idx as i32);
    lemma_window_reports_cell(after, gx, gy, gx, gy);
}

} // verus!
