//! A dense matrix stored row by row in one vector.

use vstd::prelude::*;

verus! {

/// Where cell `(r, c)` of a row-major store with `cols` columns sits.
pub open spec fn cell_index(r: int, c: int, cols: int) -> int {
    r * cols + c
}

/// Every cell of a `rows` by `cols` store lies inside its `rows * cols` slots.
pub proof fn lemma_cell_in_bounds(r: int, c: int, rows: int, cols: int)
    requires
        0 <= r < rows,
        0 <= c < cols,
    ensures
        0 <= cell_index(r, c, cols) < rows * cols,
{
    assert(0 <= r * cols + c < rows * cols) by (nonlinear_arith)
        requires
            0 <= r < rows,
            0 <= c < cols,
    ;
}

/// Distinct cells of a store sit in distinct slots.
pub proof fn lemma_cell_unique(r: int, c: int, r2: int, c2: int, cols: int)
    requires
        0 <= r,
        0 <= r2,
        0 <= c < cols,
        0 <= c2 < cols,
        cell_index(r, c, cols) == cell_index(r2, c2, cols),
    ensures
        r == r2 && c == c2,
{
    let x = r * cols + c;
    vstd::arithmetic::div_mod::lemma_fundamental_div_mod_converse(x, cols, r, c);
    vstd::arithmetic::div_mod::lemma_fundamental_div_mod_converse(x, cols, r2, c2);
}

/// A `rows` by `cols` matrix; entry `(r, c)` is `data[r * cols + c]`.
pub struct Matrix<T> {
    pub rows: usize,
    pub cols: usize,
    pub data: Vec<T>,
}

impl<T: Copy> Matrix<T> {
    /// The store holds exactly one slot per cell.
    pub open spec fn wf(&self) -> bool {
        self.data@.len() == self.rows * self.cols
    }

    /// Entry `(r, c)`.
    pub open spec fn entry(&self, r: int, c: int) -> T {
        self.data@[cell_index(r, c, self.cols as int)]
    }

    /// A `rows` by `cols` matrix with every entry equal to `zero`.
    pub fn zeros(rows: usize, cols: usize, zero: T) -> (m: Self)
        requires
            rows * cols <= usize::MAX,
        ensures
            m.wf(),
            m.rows == rows,
            m.cols == cols,
            forall|k: int| 0 <= k < m.data@.len() ==> m.data@[k] == zero,
    {
        let n = rows * cols;
        let mut data: Vec<T> = Vec::new();
        while data.len() < n
            invariant
                data.len() <= n,
                forall|k: int| 0 <= k < data.len() ==> data@[k] == zero,
            decreases n - data.len(),
        {
            data.push(zero);
        }
        Matrix { rows, cols, data }
    }

    /// The `n` by `n` identity: `one` on the diagonal, `zero` elsewhere.
    pub fn identity(n: usize, zero: T, one: T) -> (m: Self)
        requires
            n * n <= usize::MAX,
        ensures
            m.wf(),
            m.rows == n,
            m.cols == n,
            forall|r: int, c: int|
                0 <= r < n && 0 <= c < n ==> #[trigger] m.entry(r, c) == if r == c {
                    one
                } else {
                    zero
                },
    {
        let mut a = Self::zeros(n, n, zero);
        let mut i: usize = 0;
        proof {
            assert forall|r: int, c: int| 0 <= r < n && 0 <= c < n implies #[trigger] a.entry(
                r,
                c,
            ) == zero by {
                lemma_cell_in_bounds(r, c, n as int, n as int);
            }
        }
        while i < n
            invariant
                a.wf(),
                a.rows == n,
                a.cols == n,
                i <= n,
                forall|r: int, c: int|
                    0 <= r < n && 0 <= c < n ==> #[trigger] a.entry(r, c) == if r == c && r < i {
                        one
                    } else {
                        zero
                    },
            decreases n - i,
        {
            proof {
                lemma_cell_in_bounds(i as int, i as int, n as int, n as int);
            }
            let ghost before = a;
            a.set(i, i, one);
            proof {
                assert forall|r: int, c: int| 0 <= r < n && 0 <= c < n implies #[trigger] a.entry(
                    r,
                    c,
                ) == if r == c && r < i + 1 {
                    one
                } else {
                    zero
                } by {
                    lemma_cell_in_bounds(r, c, n as int, n as int);
                    if cell_index(r, c, n as int) == cell_index(i as int, i as int, n as int) {
                        lemma_cell_unique(r, c, i as int, i as int, n as int);
                    } else {
                        assert(a.entry(r, c) == before.entry(r, c));
                    }
                }
            }
            i += 1;
        }
        a
    }

    /// The slot of cell `(r, c)`.
    pub fn idx(&self, r: usize, c: usize) -> (k: usize)
        requires
            r * self.cols + c <= usize::MAX,
        ensures
            k == cell_index(r as int, c as int, self.cols as int),
    {
        r * self.cols + c
    }

    /// The value in the slot of cell `(r, c)`.
    pub fn get(&self, r: usize, c: usize) -> (v: T)
        requires
            r * self.cols + c < self.data@.len(),
        ensures
            v == self.data@[cell_index(r as int, c as int, self.cols as int)],
    {
        let slots = self.data.len();
        proof {
            assert(r * self.cols + c < slots);
        }
        self.data[self.idx(r, c)]
    }

    /// Writes `value` into the slot of cell `(r, c)` and nothing else.
    pub fn set(&mut self, r: usize, c: usize, value: T)
        requires
            r * old(self).cols + c < old(self).data@.len(),
        ensures
            final(self).rows == old(self).rows,
            final(self).cols == old(self).cols,
            final(self).data@ == old(self).data@.update(
                cell_index(r as int, c as int, old(self).cols as int),
                value,
            ),
    {
        let slots = self.data.len();
        proof {
            assert(r * self.cols + c < slots);
        }
        let k = self.idx(r, c);
        self.data.set(k, value);
    }

    /// The matrix whose column `j` is column `order[j]` of this one.
    pub fn select_columns(&self, order: &Vec<usize>) -> (m: Self)
        requires
            self.wf(),
            forall|j: int| 0 <= j < order@.len() ==> order@[j] < self.cols,
            self.rows * order@.len() <= usize::MAX,
        ensures
            m.wf(),
            m.rows == self.rows,
            m.cols == order@.len(),
            forall|r: int, j: int|
                0 <= r < m.rows && 0 <= j < m.cols ==> #[trigger] m.entry(r, j) == self.entry(
                    r,
                    order@[j] as int,
                ),
    {
        let k = order.len();
        let mut data: Vec<T> = Vec::new();
        let mut r: usize = 0;
        while r < self.rows
            invariant
                self.wf(),
                k == order@.len(),
                forall|j: int| 0 <= j < k ==> order@[j] < self.cols,
                self.rows * k <= usize::MAX,
                r <= self.rows,
                data@.len() == r * k,
                forall|x: int, y: int|
                    0 <= x < r && 0 <= y < k ==> #[trigger] data@[cell_index(x, y, k as int)]
                        == self.entry(x, order@[y] as int),
            decreases self.rows - r,
        {
            let mut j: usize = 0;
            while j < k
                invariant
                    self.wf(),
                    k == order@.len(),
                    forall|j: int| 0 <= j < k ==> order@[j] < self.cols,
                    self.rows * k <= usize::MAX,
                    r < self.rows,
                    j <= k,
                    data@.len() == r * k + j,
                    forall|x: int, y: int|
                        (0 <= x < r && 0 <= y < k) || (x == r && 0 <= y < j)
                            ==> #[trigger] data@[cell_index(x, y, k as int)] == self.entry(
                            x,
                            order@[y] as int,
                        ),
                decreases k - j,
            {
                proof {
                    lemma_cell_in_bounds(r as int, order@[j as int] as int, self.rows as int, self.cols as int);
                    assert((r + 1) * k <= self.rows * k) by (nonlinear_arith)
                        requires r < self.rows;
                    assert((r + 1) * k == r * k + k) by (nonlinear_arith);
                }
                let v = self.get(r, order[j]);
                let ghost before = data@;
                data.push(v);
                proof {
                    assert forall|x: int, y: int|
                        (0 <= x < r && 0 <= y < k) || (x == r && 0 <= y < j + 1)
                        implies #[trigger] data@[cell_index(x, y, k as int)] == self.entry(
                            x,
                            order@[y] as int,
                        ) by {
                        if x == r && y == j {
                        } else {
                            lemma_cell_in_bounds(x, y, r + 1, k as int);
                            if x < r {
                                lemma_cell_in_bounds(x, y, r as int, k as int);
                            }
                            assert(data@[cell_index(x, y, k as int)] == before[cell_index(x, y, k as int)]);
                        }
                    }
                }
                j += 1;
            }
            proof {
                assert((r + 1) * k == r * k + k) by (nonlinear_arith);
            }
            r += 1;
        }
        Matrix { rows: self.rows, cols: k, data }
    }
}

impl<T: Copy> Clone for Matrix<T> {
    /// An entry-for-entry copy.
    fn clone(&self) -> (m: Self)
        ensures
            m.rows == self.rows,
            m.cols == self.cols,
            m.data@ == self.data@,
    {
        let mut data: Vec<T> = Vec::new();
        let mut k: usize = 0;
        while k < self.data.len()
            invariant
                k <= self.data@.len(),
                data@ == self.data@.subrange(0, k as int),
            decreases self.data@.len() - k,
        {
            data.push(self.data[k]);
            k += 1;
        }
        Matrix { rows: self.rows, cols: self.cols, data }
    }
}

/// A read after a write: once `set(r, c, v)` has run, entry `(r, c)` is `v`
/// and every other entry is what it was.
pub proof fn lemma_entry_after_set<T: Copy>(
    before: Matrix<T>,
    after: Matrix<T>,
    r: int,
    c: int,
    v: T,
    r2: int,
    c2: int,
)
    requires
        before.wf(),
        0 <= r < before.rows,
        0 <= c < before.cols,
        0 <= r2 < before.rows,
        0 <= c2 < before.cols,
        after.rows == before.rows,
        after.cols == before.cols,
        after.data@ == before.data@.update(cell_index(r, c, before.cols as int), v),
    ensures
        after.wf(),
        after.entry(r2, c2) == if r2 == r && c2 == c {
            v
        } else {
            before.entry(r2, c2)
        },
{
    lemma_cell_in_bounds(r, c, before.rows as int, before.cols as int);
    lemma_cell_in_bounds(r2, c2, before.rows as int, before.cols as int);
    if cell_index(r, c, before.cols as int) == cell_index(r2, c2, before.cols as int) {
        lemma_cell_unique(r, c, r2, c2, before.cols as int);
    }
}

} // verus!
