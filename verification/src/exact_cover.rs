//! Exact covers of a 0/1 matrix: sets of rows with exactly one 1 in every
//! column, found by Knuth's search, always branching on a column with the
//! fewest rows left.
use vstd::prelude::*;

use crate::counting::{count_of, lemma_count_bound, lemma_count_flip, lemma_count_missing};

verus! {

/// The number of columns still to cover.
pub open spec fn active(cols: Seq<bool>) -> nat {
    count_of(|j: int| cols[j], 0, cols.len() as int)
}

/// The number of rows left that have a 1 in column `c`.
pub open spec fn col_count(m: Seq<Seq<bool>>, rows: Seq<bool>, c: int) -> nat {
    count_of(|r: int| rows[r] && m[r][c], 0, rows.len() as int)
}

/// Of the columns `j..` still to cover, and `best`, the first with the
/// fewest rows left; `best` is `-1` for none yet.
pub open spec fn pick_from(m: Seq<Seq<bool>>, cols: Seq<bool>, rows: Seq<bool>, j: int, best: int) -> int
    decreases cols.len() - j,
{
    if j >= cols.len() || j < 0 {
        best
    } else if cols[j] && (best < 0 || col_count(m, rows, j) < col_count(m, rows, best)) {
        pick_from(m, cols, rows, j + 1, j)
    } else {
        pick_from(m, cols, rows, j + 1, best)
    }
}

/// The column to branch on: the first one still to cover with the fewest
/// rows left.
pub open spec fn pick(m: Seq<Seq<bool>>, cols: Seq<bool>, rows: Seq<bool>) -> int {
    pick_from(m, cols, rows, 0, -1)
}

/// Rows `r` and `q` have a 1 in a common column.
pub open spec fn shares(m: Seq<Seq<bool>>, w: int, r: int, q: int) -> bool {
    exists|j: int| 0 <= j < w && #[trigger] m[r][j] && m[q][j]
}

/// The columns still to cover once row `r` is taken.
pub open spec fn cover_cols(m: Seq<Seq<bool>>, cols: Seq<bool>, r: int) -> Seq<bool> {
    Seq::new(cols.len(), |j: int| cols[j] && !m[r][j])
}

/// The rows left once row `r` is taken: those with no 1 in common with it.
pub open spec fn cover_rows(m: Seq<Seq<bool>>, w: int, rows: Seq<bool>, r: int) -> Seq<bool> {
    Seq::new(rows.len(), |q: int| rows[q] && !shares(m, w, r, q))
}

/// A column still to cover, and a row left with a 1 in it: taking the row
/// leaves fewer columns to cover.
pub proof fn lemma_cover_fewer(m: Seq<Seq<bool>>, cols: Seq<bool>, r: int, c: int)
    requires
        0 <= c < cols.len(),
        cols[c],
        m[r][c],
    ensures
        active(cover_cols(m, cols, r)) < active(cols),
{
    let n = cols.len() as int;
    let nc = cover_cols(m, cols, r);
    let f = |j: int| cols[j];
    let g = |j: int| nc[j];
    // taking away `c` alone, then the rest
    let g1 = |j: int| cols[j] && j != c;
    lemma_count_flip(f, g1, 0, n, c);
    lemma_count_le(g, g1, 0, n);
}

/// A predicate that implies another is counted no more often.
proof fn lemma_count_le(f: spec_fn(int) -> bool, g: spec_fn(int) -> bool, lo: int, hi: int)
    requires
        forall|j: int| lo <= j < hi && #[trigger] f(j) ==> g(j),
    ensures
        count_of(f, lo, hi) <= count_of(g, lo, hi),
    decreases hi - lo,
{
    if hi > lo {
        lemma_count_le(f, g, lo, hi - 1);
    }
}

/// `pick_from` gives `best` or a later column still to cover.
proof fn lemma_pick_from(m: Seq<Seq<bool>>, cols: Seq<bool>, rows: Seq<bool>, j: int, best: int)
    requires
        0 <= j,
        best < 0 || (0 <= best < cols.len() && cols[best]),
    ensures
        ({
            let p = pick_from(m, cols, rows, j, best);
            p == best || (j <= p < cols.len() && cols[p])
        }),
    decreases cols.len() - j,
{
    if j < cols.len() {
        if cols[j] && (best < 0 || col_count(m, rows, j) < col_count(m, rows, best)) {
            lemma_pick_from(m, cols, rows, j + 1, j);
        } else {
            lemma_pick_from(m, cols, rows, j + 1, best);
        }
    }
}

/// Where a column is still to cover, `pick` gives one.
pub proof fn lemma_pick(m: Seq<Seq<bool>>, cols: Seq<bool>, rows: Seq<bool>)
    requires
        active(cols) > 0,
    ensures
        0 <= pick(m, cols, rows) < cols.len(),
        cols[pick(m, cols, rows)],
{
    lemma_pick_from(m, cols, rows, 0, -1);
    if pick(m, cols, rows) < 0 {
        // no column was picked, so none is still to cover
        lemma_pick_none(m, cols, rows, 0);
        crate::counting::lemma_count_same(|j: int| false, |j: int| cols[j], 0, cols.len() as int);
        crate::counting::lemma_count_zero(0, cols.len() as int);
    }
}

/// With nothing picked yet, `pick_from` picks nothing only where no column
/// from `j` on is still to cover.
proof fn lemma_pick_none(m: Seq<Seq<bool>>, cols: Seq<bool>, rows: Seq<bool>, j: int)
    requires
        0 <= j,
        pick_from(m, cols, rows, j, -1) < 0,
    ensures
        forall|k: int| j <= k < cols.len() ==> !cols[k],
    decreases cols.len() - j,
{
    if j < cols.len() {
        if cols[j] {
            lemma_pick_from(m, cols, rows, j + 1, j);
        } else {
            lemma_pick_none(m, cols, rows, j + 1);
        }
    }
}

/// The covers the search finds from a state, in the order found.
pub open spec fn sols(m: Seq<Seq<bool>>, w: int, cols: Seq<bool>, rows: Seq<bool>, cur: Seq<usize>) -> Seq<Seq<usize>>
    decreases active(cols), rows.len() + 1,
{
    if active(cols) == 0 {
        seq![cur]
    } else {
        sols_from(m, w, cols, rows, cur, pick(m, cols, rows), 0)
    }
}

/// The covers found from a state by taking, in turn, each row from `r0` on
/// that has a 1 in column `c`.
pub open spec fn sols_from(m: Seq<Seq<bool>>, w: int, cols: Seq<bool>, rows: Seq<bool>, cur: Seq<usize>, c: int, r0: int) -> Seq<Seq<usize>>
    decreases active(cols), rows.len() - r0,
{
    if r0 >= rows.len() || r0 < 0 {
        Seq::empty()
    } else {
        let rest = sols_from(m, w, cols, rows, cur, c, r0 + 1);
        if rows[r0] && 0 <= c < cols.len() && cols[c] && m[r0][c] {
            proof {
                lemma_cover_fewer(m, cols, r0, c);
            }
            sols(m, w, cover_cols(m, cols, r0), cover_rows(m, w, rows, r0), cur.push(r0 as usize)) + rest
        } else {
            rest
        }
    }
}

/// `n` times `true`.
pub open spec fn all_true(n: nat) -> Seq<bool> {
    Seq::new(n, |i: int| true)
}

/// The 0/1 matrix of `a`, as wide as its first row: a 1 wherever `a` is
/// not 0.
pub open spec fn bool_matrix(a: Seq<Vec<usize>>) -> Seq<Seq<bool>> {
    let w = if a.len() == 0 { 0 } else { a[0]@.len() as int };
    Seq::new(a.len(), |i: int| Seq::new(w as nat, |j: int| a[i]@[j] != 0))
}

/// The views of vectors of rows.
pub open spec fn views(v: Seq<Vec<usize>>) -> Seq<Seq<usize>> {
    v.map_values(|x: Vec<usize>| x@)
}

/// The exact covers of a 0/1 matrix.
pub struct ExactCover {
    m: Vec<Vec<bool>>,
    w: usize,
}

impl ExactCover {
    /// The matrix: row `r` has a 1 in column `c`.
    pub closed spec fn matrix(&self) -> Seq<Seq<bool>> {
        self.m@.map_values(|row: Vec<bool>| row@)
    }

    /// The number of columns.
    pub closed spec fn width(&self) -> int {
        self.w as int
    }

    /// Every row has one entry per column.
    pub closed spec fn wf(&self) -> bool {
        &&& self.m@.len() <= usize::MAX
        &&& forall|r: int| 0 <= r < self.m@.len() ==> (#[trigger] self.m@[r])@.len() == self.w
    }

    /// The covers that `all` returns: none where the matrix has no row or a
    /// column without a 1; otherwise those the search finds from the start,
    /// with every column to cover and every row left.
    pub open spec fn all_covers(&self) -> Seq<Seq<usize>> {
        let m = self.matrix();
        let w = self.width();
        if m.len() == 0 || exists|c: int| 0 <= c < w && #[trigger] col_count(m, all_true(m.len()), c) == 0 {
            Seq::empty()
        } else {
            sols(m, w, all_true(w as nat), all_true(m.len()), Seq::empty())
        }
    }

    /// The matrix with a 1 wherever `a` is not 0.
    pub fn from_matrix(a: &Vec<Vec<usize>>) -> (r: Self)
        requires
            a@.len() > 0 ==> a@[0]@.len() > 0,
            forall|i: int| 0 <= i < a@.len() ==> (#[trigger] a@[i])@.len() >= a@[0]@.len(),
        ensures
            r.wf(),
            r.width() == if a@.len() == 0 { 0 } else { a@[0]@.len() as int },
            r.matrix().len() == a@.len(),
            forall|i: int, j: int| 0 <= i < a@.len() && 0 <= j < r.width() ==> #[trigger] r.matrix()[i][j] == (a@[i]@[j] != 0),
            r.matrix() == bool_matrix(a@),
    {
        let h = a.len();
        let w = if h == 0 { 0 } else { a[0].len() };
        let mut m: Vec<Vec<bool>> = Vec::new();
        let mut i: usize = 0;
        while i < h
            invariant
                h == a@.len(),
                w == if h == 0 { 0 } else { a@[0]@.len() as int },
                forall|i: int| 0 <= i < a@.len() ==> (#[trigger] a@[i])@.len() >= w,
                i <= h,
                m@.len() == i,
                forall|r: int| 0 <= r < i ==> (#[trigger] m@[r])@.len() == w,
                forall|r: int, j: int| 0 <= r < i && 0 <= j < w ==> #[trigger] m@[r]@[j] == (a@[r]@[j] != 0),
            decreases h - i,
        {
            let mut row: Vec<bool> = Vec::new();
            let mut j: usize = 0;
            while j < w
                invariant
                    h == a@.len(),
                    i < h,
                    w <= a@[i as int]@.len(),
                    j <= w,
                    row@.len() == j,
                    forall|k: int| 0 <= k < j ==> #[trigger] row@[k] == (a@[i as int]@[k] != 0),
                decreases w - j,
            {
                row.push(a[i][j] != 0);
                j += 1;
            }
            m.push(row);
            i += 1;
        }
        let r = ExactCover { m, w };
        proof {
            assert forall|i: int, j: int| 0 <= i < a@.len() && 0 <= j < r.width() implies #[trigger] r.matrix()[i][j] == (a@[i]@[j] != 0) by {
                assert(r.matrix()[i] == m@[i]@);
            }
            let b = bool_matrix(a@);
            assert forall|i: int| 0 <= i < a@.len() implies #[trigger] r.matrix()[i] == b[i] by {
                assert(r.matrix()[i] == m@[i]@);
                assert(r.matrix()[i] =~= b[i]);
            }
            assert(r.matrix() =~= b);
        }
        r
    }

    /// Whether row `r` has a 1 in column `c`.
    fn hit(&self, r: usize, c: usize) -> (b: bool)
        requires
            self.wf(),
            r < self.matrix().len(),
            c < self.width(),
        ensures
            b == self.matrix()[r as int][c as int],
    {
        proof {
            assert(self.matrix()[r as int] == self.m@[r as int]@);
        }
        self.m[r][c]
    }

    /// The number of columns still to cover.
    fn count_active(cols: &Vec<bool>) -> (n: usize)
        ensures
            n == active(cols@),
    {
        let mut n: usize = 0;
        let mut j: usize = 0;
        while j < cols.len()
            invariant
                j <= cols@.len(),
                n == count_of(|k: int| cols@[k], 0, j as int),
                n <= j,
            decreases cols@.len() - j,
        {
            if cols[j] {
                n += 1;
            }
            j += 1;
        }
        n
    }

    /// The number of rows left with a 1 in column `c`.
    fn count_col(&self, rows: &Vec<bool>, c: usize) -> (n: usize)
        requires
            self.wf(),
            rows@.len() == self.matrix().len(),
            c < self.width(),
        ensures
            n == col_count(self.matrix(), rows@, c as int),
    {
        let mut n: usize = 0;
        let mut r: usize = 0;
        while r < rows.len()
            invariant
                self.wf(),
                rows@.len() == self.matrix().len(),
                c < self.width(),
                r <= rows@.len(),
                n == count_of(|q: int| rows@[q] && self.matrix()[q][c as int], 0, r as int),
                n <= r,
            decreases rows@.len() - r,
        {
            if rows[r] && self.hit(r, c) {
                n += 1;
            }
            r += 1;
        }
        n
    }

    /// The column to branch on.
    fn pick_col(&self, cols: &Vec<bool>, rows: &Vec<bool>) -> (c: usize)
        requires
            self.wf(),
            cols@.len() == self.width(),
            rows@.len() == self.matrix().len(),
            active(cols@) > 0,
        ensures
            c == pick(self.matrix(), cols@, rows@),
            c < self.width(),
            cols@[c as int],
    {
        proof {
            lemma_pick(self.matrix(), cols@, rows@);
        }
        let ghost m = self.matrix();
        let mut best: usize = 0;
        let mut found = false;
        let mut best_count: usize = 0;
        let mut j: usize = 0;
        while j < cols.len()
            invariant
                self.wf(),
                m == self.matrix(),
                cols@.len() == self.width(),
                rows@.len() == self.matrix().len(),
                j <= cols@.len(),
                found ==> best < cols@.len() && cols@[best as int] && best_count == col_count(m, rows@, best as int),
                pick_from(m, cols@, rows@, j as int, if found { best as int } else { -1 }) == pick(m, cols@, rows@),
            decreases cols@.len() - j,
        {
            if cols[j] {
                let cnt = self.count_col(rows, j);
                if !found || cnt < best_count {
                    best = j;
                    best_count = cnt;
                    found = true;
                }
            }
            j += 1;
        }
        proof {
            if !found {
                assert(pick(m, cols@, rows@) == -1);
            }
        }
        best
    }

    /// The columns still to cover once row `r` is taken.
    fn cover_cols_exec(&self, cols: &Vec<bool>, r: usize) -> (nc: Vec<bool>)
        requires
            self.wf(),
            cols@.len() == self.width(),
            r < self.matrix().len(),
        ensures
            nc@ == cover_cols(self.matrix(), cols@, r as int),
    {
        let mut nc: Vec<bool> = Vec::new();
        let mut j: usize = 0;
        while j < cols.len()
            invariant
                self.wf(),
                cols@.len() == self.width(),
                r < self.matrix().len(),
                j <= cols@.len(),
                nc@.len() == j,
                forall|k: int| 0 <= k < j ==> #[trigger] nc@[k] == (cols@[k] && !self.matrix()[r as int][k]),
            decreases cols@.len() - j,
        {
            let b = cols[j] && !self.hit(r, j);
            nc.push(b);
            j += 1;
        }
        proof {
            assert(nc@ =~= cover_cols(self.matrix(), cols@, r as int));
        }
        nc
    }

    /// Whether rows `r` and `q` have a 1 in a common column.
    fn shares_exec(&self, r: usize, q: usize) -> (b: bool)
        requires
            self.wf(),
            r < self.matrix().len(),
            q < self.matrix().len(),
        ensures
            b == shares(self.matrix(), self.width(), r as int, q as int),
    {
        let mut j: usize = 0;
        while j < self.w
            invariant
                self.wf(),
                r < self.matrix().len(),
                q < self.matrix().len(),
                j <= self.w,
                forall|k: int| 0 <= k < j ==> !(#[trigger] self.matrix()[r as int][k] && self.matrix()[q as int][k]),
            decreases self.w - j,
        {
            if self.hit(r, j) && self.hit(q, j) {
                return true;
            }
            j += 1;
        }
        false
    }

    /// The rows left once row `r` is taken.
    fn cover_rows_exec(&self, rows: &Vec<bool>, r: usize) -> (nr: Vec<bool>)
        requires
            self.wf(),
            rows@.len() == self.matrix().len(),
            r < self.matrix().len(),
        ensures
            nr@ == cover_rows(self.matrix(), self.width(), rows@, r as int),
    {
        let mut nr: Vec<bool> = Vec::new();
        let mut q: usize = 0;
        while q < rows.len()
            invariant
                self.wf(),
                rows@.len() == self.matrix().len(),
                r < self.matrix().len(),
                q <= rows@.len(),
                nr@.len() == q,
                forall|k: int| 0 <= k < q ==> #[trigger] nr@[k] == (rows@[k] && !shares(self.matrix(), self.width(), r as int, k)),
            decreases rows@.len() - q,
        {
            let b = rows[q] && !self.shares_exec(r, q);
            nr.push(b);
            q += 1;
        }
        proof {
            assert(nr@ =~= cover_rows(self.matrix(), self.width(), rows@, r as int));
        }
        nr
    }

    /// `cur` with `r` after it.
    fn pushed(cur: &Vec<usize>, r: usize) -> (v: Vec<usize>)
        ensures
            v@ == cur@.push(r),
    {
        let mut v: Vec<usize> = Vec::new();
        let mut i: usize = 0;
        while i < cur.len()
            invariant
                i <= cur@.len(),
                v@ == cur@.subrange(0, i as int),
            decreases cur@.len() - i,
        {
            v.push(cur[i]);
            proof {
                assert(v@ =~= cur@.subrange(0, i + 1));
            }
            i += 1;
        }
        v.push(r);
        proof {
            assert(v@ =~= cur@.push(r));
        }
        v
    }
}

impl ExactCover {
    /// The covers the search finds from a state.
    fn dfs_all(&self, cols: Vec<bool>, rows: Vec<bool>, cur: Vec<usize>) -> (r: Vec<Vec<usize>>)
        requires
            self.wf(),
            cols@.len() == self.width(),
            rows@.len() == self.matrix().len(),
        ensures
            views(r@) == sols(self.matrix(), self.width(), cols@, rows@, cur@),
        decreases active(cols@), rows@.len() + 1,
    {
        if Self::count_active(&cols) == 0 {
            let ghost cv = cur@;
            let mut r: Vec<Vec<usize>> = Vec::new();
            r.push(cur);
            proof {
                assert(views(r@) =~= seq![cv]);
            }
            return r;
        }
        let c = self.pick_col(&cols, &rows);
        self.dfs_from_all(&cols, &rows, &cur, c)
    }

    /// The covers the search finds from a state by taking, in turn, each
    /// row with a 1 in column `c`.
    fn dfs_from_all(&self, cols: &Vec<bool>, rows: &Vec<bool>, cur: &Vec<usize>, c: usize) -> (r: Vec<Vec<usize>>)
        requires
            self.wf(),
            cols@.len() == self.width(),
            rows@.len() == self.matrix().len(),
            c < self.width(),
            cols@[c as int],
        ensures
            views(r@) == sols_from(self.matrix(), self.width(), cols@, rows@, cur@, c as int, 0),
        decreases active(cols@), rows@.len(),
    {
        let ghost m = self.matrix();
        let ghost w = self.width();
        let h = rows.len();
        let mut res: Vec<Vec<usize>> = Vec::new();
        let mut r0: usize = 0;
        while r0 < h
            invariant
                self.wf(),
                m == self.matrix(),
                w == self.width(),
                cols@.len() == w,
                rows@.len() == m.len(),
                h == rows@.len(),
                c < w,
                cols@[c as int],
                r0 <= h,
                views(res@) + sols_from(m, w, cols@, rows@, cur@, c as int, r0 as int) == sols_from(m, w, cols@, rows@, cur@, c as int, 0),
            decreases h - r0,
        {
            let ghost before = res@;
            if rows[r0] && self.hit(r0, c) {
                let nc = self.cover_cols_exec(cols, r0);
                let nr = self.cover_rows_exec(rows, r0);
                let ncur = Self::pushed(cur, r0);
                proof {
                    lemma_cover_fewer(m, cols@, r0 as int, c as int);
                }
                let mut sub = self.dfs_all(nc, nr, ncur);
                let ghost sv = views(sub@);
                res.append(&mut sub);
                proof {
                    assert(views(res@) =~= views(before) + sv);
                    assert(sols_from(m, w, cols@, rows@, cur@, c as int, r0 as int) == sv + sols_from(m, w, cols@, rows@, cur@, c as int, r0 + 1));
                    assert(views(before) + sv + sols_from(m, w, cols@, rows@, cur@, c as int, r0 + 1) =~= views(before) + (sv + sols_from(m, w, cols@, rows@, cur@, c as int, r0 + 1)));
                }
            }
            r0 += 1;
        }
        res
    }

    /// The first cover the search finds from a state, if any.
    fn dfs_any(&self, cols: Vec<bool>, rows: Vec<bool>, cur: Vec<usize>) -> (r: Option<Vec<usize>>)
        requires
            self.wf(),
            cols@.len() == self.width(),
            rows@.len() == self.matrix().len(),
        ensures
            r is None <==> sols(self.matrix(), self.width(), cols@, rows@, cur@).len() == 0,
            r matches Some(v) ==> v@ == sols(self.matrix(), self.width(), cols@, rows@, cur@)[0],
        decreases active(cols@), rows@.len() + 1,
    {
        if Self::count_active(&cols) == 0 {
            return Some(cur);
        }
        let c = self.pick_col(&cols, &rows);
        self.dfs_from_any(&cols, &rows, &cur, c)
    }

    /// The first cover the search finds from a state by taking, in turn,
    /// each row with a 1 in column `c`.
    fn dfs_from_any(&self, cols: &Vec<bool>, rows: &Vec<bool>, cur: &Vec<usize>, c: usize) -> (r: Option<Vec<usize>>)
        requires
            self.wf(),
            cols@.len() == self.width(),
            rows@.len() == self.matrix().len(),
            c < self.width(),
            cols@[c as int],
        ensures
            r is None <==> sols_from(self.matrix(), self.width(), cols@, rows@, cur@, c as int, 0).len() == 0,
            r matches Some(v) ==> v@ == sols_from(self.matrix(), self.width(), cols@, rows@, cur@, c as int, 0)[0],
        decreases active(cols@), rows@.len(),
    {
        let ghost m = self.matrix();
        let ghost w = self.width();
        let h = rows.len();
        let mut r0: usize = 0;
        while r0 < h
            invariant
                self.wf(),
                m == self.matrix(),
                w == self.width(),
                cols@.len() == w,
                rows@.len() == m.len(),
                h == rows@.len(),
                c < w,
                cols@[c as int],
                r0 <= h,
                sols_from(m, w, cols@, rows@, cur@, c as int, r0 as int) == sols_from(m, w, cols@, rows@, cur@, c as int, 0),
            decreases h - r0,
        {
            if rows[r0] && self.hit(r0, c) {
                let nc = self.cover_cols_exec(cols, r0);
                let nr = self.cover_rows_exec(rows, r0);
                let ncur = Self::pushed(cur, r0);
                proof {
                    lemma_cover_fewer(m, cols@, r0 as int, c as int);
                }
                let sub = self.dfs_any(nc, nr, ncur);
                if sub.is_some() {
                    return sub;
                }
            }
            r0 += 1;
        }
        None
    }

    /// All exact covers, in the order the search finds them; each is the
    /// rows taken, in the order taken.
    pub fn all(self) -> (r: Vec<Vec<usize>>)
        requires
            self.wf(),
        ensures
            views(r@) == self.all_covers(),
    {
        let h = self.m.len();
        let w = self.w;
        let ghost m = self.matrix();
        if h == 0 {
            return Vec::new();
        }
        let cols = all_true_exec(w);
        let rows = all_true_exec(h);
        let mut c: usize = 0;
        while c < w
            invariant
                self.wf(),
                m == self.matrix(),
                w == self.width(),
                h == m.len(),
                rows@ == all_true(h as nat),
                c <= w,
                forall|k: int| 0 <= k < c ==> #[trigger] col_count(m, all_true(m.len()), k) != 0,
            decreases w - c,
        {
            if self.count_col(&rows, c) == 0 {
                return Vec::new();
            }
            c += 1;
        }
        self.dfs_all(cols, rows, Vec::new())
    }

    /// An exact cover: the first the search finds, as the rows taken in the
    /// order taken; `None` when there is none.
    pub fn any(self) -> (r: Option<Vec<usize>>)
        requires
            self.wf(),
        ensures
            r is None <==> self.all_covers().len() == 0,
            r matches Some(v) ==> v@ == self.all_covers()[0],
    {
        let h = self.m.len();
        let w = self.w;
        let ghost m = self.matrix();
        if h == 0 {
            return None;
        }
        let cols = all_true_exec(w);
        let rows = all_true_exec(h);
        let mut c: usize = 0;
        while c < w
            invariant
                self.wf(),
                m == self.matrix(),
                w == self.width(),
                h == m.len(),
                rows@ == all_true(h as nat),
                c <= w,
                forall|k: int| 0 <= k < c ==> #[trigger] col_count(m, all_true(m.len()), k) != 0,
            decreases w - c,
        {
            if self.count_col(&rows, c) == 0 {
                return None;
            }
            c += 1;
        }
        self.dfs_any(cols, rows, Vec::new())
    }
}

/// `n` times `true`.
fn all_true_exec(n: usize) -> (r: Vec<bool>)
    ensures
        r@ == all_true(n as nat),
{
    let mut r: Vec<bool> = Vec::new();
    let mut i: usize = 0;
    while i < n
        invariant
            i <= n,
            r@ == all_true(i as nat),
        decreases n - i,
    {
        r.push(true);
        proof {
            assert(r@ =~= all_true((i + 1) as nat));
        }
        i += 1;
    }
    r
}

/// Row `r` has a 1.
pub open spec fn has_one(m: Seq<Seq<bool>>, w: int, r: int) -> bool {
    exists|j: int| 0 <= j < w && #[trigger] m[r][j]
}

/// Column `j` has a 1 in one of the rows `s`.
pub open spec fn covered(m: Seq<Seq<bool>>, s: Seq<usize>, j: int) -> bool {
    exists|i: int| 0 <= i < s.len() && #[trigger] m[s[i] as int][j]
}

/// `s` is an exact cover: distinct rows, each with a 1, such that every
/// column has a 1 in exactly one of them.
pub open spec fn is_exact_cover(m: Seq<Seq<bool>>, w: int, s: Seq<usize>) -> bool {
    &&& forall|i: int| 0 <= i < s.len() ==> #[trigger] s[i] < m.len()
    &&& s.no_duplicates()
    &&& forall|i: int| 0 <= i < s.len() ==> has_one(m, w, #[trigger] s[i] as int)
    &&& forall|j: int| 0 <= j < w ==> #[trigger] covered(m, s, j)
    &&& forall|i1: int, i2: int, j: int|
        #![trigger m[s[i1] as int][j], m[s[i2] as int][j]]
        0 <= i1 < s.len() && 0 <= i2 < s.len() && 0 <= j < w && m[s[i1] as int][j] && m[s[i2] as int][j] ==> i1 == i2
}

/// A state of the search: the rows taken are distinct, each with a 1, and
/// have a 1 in exactly the columns no longer to cover, each such column in
/// one of them only; the rows left have their 1s in columns still to cover.
pub open spec fn valid(m: Seq<Seq<bool>>, w: int, cols: Seq<bool>, rows: Seq<bool>, cur: Seq<usize>) -> bool {
    &&& cols.len() == w
    &&& rows.len() == m.len()
    &&& m.len() <= usize::MAX
    &&& forall|r: int| 0 <= r < m.len() ==> (#[trigger] m[r]).len() == w
    &&& forall|i: int| 0 <= i < cur.len() ==> #[trigger] cur[i] < m.len()
    &&& cur.no_duplicates()
    &&& forall|i: int| 0 <= i < cur.len() ==> has_one(m, w, #[trigger] cur[i] as int)
    &&& forall|j: int| 0 <= j < w ==> (!#[trigger] cols[j] <==> covered(m, cur, j))
    &&& forall|i1: int, i2: int, j: int|
        #![trigger m[cur[i1] as int][j], m[cur[i2] as int][j]]
        0 <= i1 < cur.len() && 0 <= i2 < cur.len() && 0 <= j < w && m[cur[i1] as int][j] && m[cur[i2] as int][j] ==> i1 == i2
    &&& forall|q: int, j: int| 0 <= q < m.len() && #[trigger] rows[q] && 0 <= j < w && #[trigger] m[q][j] ==> cols[j]
}

/// Something counted at `i` makes the count positive.
proof fn lemma_count_pos(f: spec_fn(int) -> bool, lo: int, hi: int, i: int)
    requires
        lo <= i < hi,
        f(i),
    ensures
        count_of(f, lo, hi) >= 1,
    decreases hi - lo,
{
    if hi - 1 > i {
        lemma_count_pos(f, lo, hi - 1, i);
    }
}

/// Taking a row left that has a 1 in a column still to cover keeps the
/// state valid.
proof fn lemma_branch_valid(m: Seq<Seq<bool>>, w: int, cols: Seq<bool>, rows: Seq<bool>, cur: Seq<usize>, r: int, c: int)
    requires
        valid(m, w, cols, rows, cur),
        0 <= r < m.len(),
        rows[r],
        0 <= c < w,
        cols[c],
        m[r][c],
    ensures
        valid(m, w, cover_cols(m, cols, r), cover_rows(m, w, rows, r), cur.push(r as usize)),
{
    let nc = cover_cols(m, cols, r);
    let nr = cover_rows(m, w, rows, r);
    let ncur = cur.push(r as usize);
    let last = cur.len() as int;
    assert(ncur[last] == r);
    // `r` is not taken yet: column `c` is still to cover
    assert forall|i: int| 0 <= i < cur.len() implies cur[i] != r by {
        if cur[i] == r {
            assert(m[cur[i] as int][c]);
            assert(!cols[c]);
        }
    }
    assert(ncur.no_duplicates()) by {
        assert forall|i: int, k: int| 0 <= i < ncur.len() && 0 <= k < ncur.len() && i != k implies ncur[i] != ncur[k] by {
            if i < last && k < last {
                assert(ncur[i] == cur[i] && ncur[k] == cur[k]);
            } else if i < last {
                assert(ncur[i] == cur[i]);
            } else {
                assert(ncur[k] == cur[k]);
            }
        }
    }
    assert forall|i: int| 0 <= i < ncur.len() implies has_one(m, w, #[trigger] ncur[i] as int) by {
        if i == last {
            assert(m[ncur[i] as int][c]);
        } else {
            assert(ncur[i] == cur[i]);
        }
    }
    assert forall|j: int| 0 <= j < w implies (!#[trigger] nc[j] <==> covered(m, ncur, j)) by {
        if !nc[j] {
            if cols[j] {
                assert(m[r][j]);
                assert(m[ncur[last] as int][j]);
            } else {
                assert(covered(m, cur, j));
                let i = choose|i: int| 0 <= i < cur.len() && #[trigger] m[cur[i] as int][j];
                assert(ncur[i] == cur[i]);
                assert(m[ncur[i] as int][j]);
            }
        }
        if covered(m, ncur, j) {
            let i = choose|i: int| 0 <= i < ncur.len() && #[trigger] m[ncur[i] as int][j];
            if i < last {
                assert(ncur[i] == cur[i]);
                assert(m[cur[i] as int][j]);
                assert(covered(m, cur, j));
            }
        }
    }
    assert forall|i1: int, i2: int, j: int|
        #![trigger m[ncur[i1] as int][j], m[ncur[i2] as int][j]]
        0 <= i1 < ncur.len() && 0 <= i2 < ncur.len() && 0 <= j < w && m[ncur[i1] as int][j] && m[ncur[i2] as int][j] implies i1 == i2 by {
        if i1 < last && i2 < last {
            assert(ncur[i1] == cur[i1] && ncur[i2] == cur[i2]);
        } else if i1 < last && i2 == last {
            // a column of `r` is still to cover; one of a taken row is not
            assert(ncur[i1] == cur[i1]);
            assert(m[cur[i1] as int][j]);
            assert(covered(m, cur, j));
            assert(m[r][j]);
            assert(cols[j]);
        } else if i2 < last && i1 == last {
            assert(ncur[i2] == cur[i2]);
            assert(m[cur[i2] as int][j]);
            assert(covered(m, cur, j));
            assert(m[r][j]);
            assert(cols[j]);
        }
    }
    assert forall|q: int, j: int| 0 <= q < m.len() && #[trigger] nr[q] && 0 <= j < w && #[trigger] m[q][j] implies nc[j] by {
        assert(rows[q]);
        assert(!shares(m, w, r, q));
        if m[r][j] {
            assert(m[r][j] && m[q][j]);
        }
    }
}

/// Every cover the search finds from a valid state is an exact cover.
pub proof fn lemma_sound(m: Seq<Seq<bool>>, w: int, cols: Seq<bool>, rows: Seq<bool>, cur: Seq<usize>, k: int)
    requires
        valid(m, w, cols, rows, cur),
        0 <= k < sols(m, w, cols, rows, cur).len(),
    ensures
        is_exact_cover(m, w, sols(m, w, cols, rows, cur)[k]),
    decreases active(cols), rows.len() + 1,
{
    if active(cols) == 0 {
        assert forall|j: int| 0 <= j < w implies !cols[j] by {
            if cols[j] {
                lemma_count_pos(|j: int| cols[j], 0, cols.len() as int, j);
            }
        }
        assert forall|j: int| 0 <= j < w implies #[trigger] covered(m, cur, j) by {
            assert(!cols[j]);
        }
        assert(sols(m, w, cols, rows, cur) == seq![cur]);
        assert(sols(m, w, cols, rows, cur)[k] == cur);
    } else {
        lemma_pick(m, cols, rows);
        lemma_sound_from(m, w, cols, rows, cur, pick(m, cols, rows), 0, k);
    }
}

/// Every cover found by taking a row from `r0` on is an exact cover.
pub proof fn lemma_sound_from(m: Seq<Seq<bool>>, w: int, cols: Seq<bool>, rows: Seq<bool>, cur: Seq<usize>, c: int, r0: int, k: int)
    requires
        valid(m, w, cols, rows, cur),
        0 <= r0,
        0 <= k < sols_from(m, w, cols, rows, cur, c, r0).len(),
    ensures
        is_exact_cover(m, w, sols_from(m, w, cols, rows, cur, c, r0)[k]),
    decreases active(cols), rows.len() - r0,
{
    if r0 < rows.len() {
        let rest = sols_from(m, w, cols, rows, cur, c, r0 + 1);
        if rows[r0] && 0 <= c < cols.len() && cols[c] && m[r0][c] {
            lemma_cover_fewer(m, cols, r0, c);
            let nc = cover_cols(m, cols, r0);
            let nr = cover_rows(m, w, rows, r0);
            let ncur = cur.push(r0 as usize);
            let here = sols(m, w, nc, nr, ncur);
            if k < here.len() {
                lemma_branch_valid(m, w, cols, rows, cur, r0, c);
                lemma_sound(m, w, nc, nr, ncur, k);
                assert((here + rest)[k] == here[k]);
            } else {
                lemma_sound_from(m, w, cols, rows, cur, c, r0 + 1, k - here.len());
                assert((here + rest)[k] == rest[k - here.len()]);
            }
        } else {
            lemma_sound_from(m, w, cols, rows, cur, c, r0 + 1, k);
        }
    }
}

/// Every exact cover that holds the rows taken, and otherwise only rows
/// left, is found from the state, in some order.
pub proof fn lemma_complete(m: Seq<Seq<bool>>, w: int, cols: Seq<bool>, rows: Seq<bool>, cur: Seq<usize>, s: Seq<usize>)
    requires
        valid(m, w, cols, rows, cur),
        is_exact_cover(m, w, s),
        forall|i: int| 0 <= i < cur.len() ==> s.contains(#[trigger] cur[i]),
        forall|i: int| 0 <= i < s.len() && !cur.contains(#[trigger] s[i]) ==> rows[s[i] as int],
    ensures
        exists|k: int| 0 <= k < sols(m, w, cols, rows, cur).len() && (#[trigger] sols(m, w, cols, rows, cur)[k]).to_set() == s.to_set(),
    decreases active(cols), rows.len() + 1,
{
    if active(cols) == 0 {
        assert forall|j: int| 0 <= j < w implies !cols[j] by {
            if cols[j] {
                lemma_count_pos(|j: int| cols[j], 0, cols.len() as int, j);
            }
        }
        assert forall|x: usize| s.to_set().contains(x) implies cur.to_set().contains(x) by {
            let a = choose|a: int| 0 <= a < s.len() && s[a] == x;
            if !cur.contains(x) {
                let j = choose|j: int| 0 <= j < w && #[trigger] m[s[a] as int][j];
                assert(!cols[j]);
                let i = choose|i: int| 0 <= i < cur.len() && #[trigger] m[cur[i] as int][j];
                assert(s.contains(cur[i]));
                let b = choose|b: int| 0 <= b < s.len() && s[b] == cur[i];
                assert(m[s[a] as int][j] && m[s[b] as int][j]);
                assert(a == b);
                assert(cur.contains(x));
            }
        }
        assert forall|x: usize| cur.to_set().contains(x) implies s.to_set().contains(x) by {
            let i = choose|i: int| 0 <= i < cur.len() && cur[i] == x;
            assert(s.contains(cur[i]));
        }
        assert(sols(m, w, cols, rows, cur) == seq![cur]);
        assert(sols(m, w, cols, rows, cur)[0] == cur);
        assert(cur.to_set() =~= s.to_set());
    } else {
        let c = pick(m, cols, rows);
        lemma_pick(m, cols, rows);
        assert(covered(m, s, c));
        // the row of the cover with a 1 in `c` is left
        let a = choose|a: int| 0 <= a < s.len() && #[trigger] m[s[a] as int][c];
        let rs = s[a] as int;
        if cur.contains(s[a]) {
            let i = choose|i: int| 0 <= i < cur.len() && cur[i] == s[a];
            assert(m[cur[i] as int][c]);
            assert(!cols[c]);
        }
        assert(rows[rs]);
        lemma_complete_from(m, w, cols, rows, cur, s, c, 0, a);
        assert(sols(m, w, cols, rows, cur) == sols_from(m, w, cols, rows, cur, c, 0));
    }
}

/// The exact cover whose row `s[a]` has a 1 in `c`, with `s[a]` from `r0`
/// on, is found by taking a row from `r0` on.
pub proof fn lemma_complete_from(m: Seq<Seq<bool>>, w: int, cols: Seq<bool>, rows: Seq<bool>, cur: Seq<usize>, s: Seq<usize>, c: int, r0: int, a: int)
    requires
        valid(m, w, cols, rows, cur),
        is_exact_cover(m, w, s),
        forall|i: int| 0 <= i < cur.len() ==> s.contains(#[trigger] cur[i]),
        forall|i: int| 0 <= i < s.len() && !cur.contains(#[trigger] s[i]) ==> rows[s[i] as int],
        0 <= c < w,
        cols[c],
        0 <= a < s.len(),
        m[s[a] as int][c],
        !cur.contains(s[a]),
        0 <= r0 <= s[a],
    ensures
        exists|k: int| 0 <= k < sols_from(m, w, cols, rows, cur, c, r0).len()
            && (#[trigger] sols_from(m, w, cols, rows, cur, c, r0)[k]).to_set() == s.to_set(),
    decreases active(cols), rows.len() - r0,
{
    let rs = s[a] as int;
    let rest = sols_from(m, w, cols, rows, cur, c, r0 + 1);
    assert(rows[rs]);
    if r0 == rs {
        lemma_cover_fewer(m, cols, r0, c);
        lemma_branch_valid(m, w, cols, rows, cur, r0, c);
        let nc = cover_cols(m, cols, r0);
        let nr = cover_rows(m, w, rows, r0);
        let ncur = cur.push(r0 as usize);
        assert forall|i: int| 0 <= i < ncur.len() implies s.contains(#[trigger] ncur[i]) by {
            if i < cur.len() {
                assert(ncur[i] == cur[i]);
            } else {
                assert(ncur[i] == s[a]);
            }
        }
        assert forall|i: int| 0 <= i < s.len() && !ncur.contains(#[trigger] s[i]) implies nr[s[i] as int] by {
            assert(!cur.contains(s[i])) by {
                if cur.contains(s[i]) {
                    let t = choose|t: int| 0 <= t < cur.len() && cur[t] == s[i];
                    assert(ncur[t] == s[i]);
                }
            }
            assert(rows[s[i] as int]);
            assert(s[i] != s[a]) by {
                if s[i] == s[a] {
                    assert(ncur[cur.len() as int] == s[i]);
                }
            }
            if shares(m, w, rs, s[i] as int) {
                let j = choose|j: int| 0 <= j < w && #[trigger] m[rs][j] && m[s[i] as int][j];
                assert(m[s[a] as int][j] && m[s[i] as int][j]);
            }
        }
        lemma_complete(m, w, nc, nr, ncur, s);
        let here = sols(m, w, nc, nr, ncur);
        let k = choose|k: int| 0 <= k < here.len() && (#[trigger] here[k]).to_set() == s.to_set();
        assert((here + rest)[k] == here[k]);
        assert(sols_from(m, w, cols, rows, cur, c, r0) == here + rest);
    } else {
        lemma_complete_from(m, w, cols, rows, cur, s, c, r0 + 1, a);
        let k = choose|k: int| 0 <= k < rest.len() && (#[trigger] rest[k]).to_set() == s.to_set();
        if rows[r0] && cols[c] && m[r0][c] {
            lemma_cover_fewer(m, cols, r0, c);
            let here = sols(m, w, cover_cols(m, cols, r0), cover_rows(m, w, rows, r0), cur.push(r0 as usize));
            assert((here + rest)[here.len() + k] == rest[k]);
            assert(sols_from(m, w, cols, rows, cur, c, r0) == here + rest);
            assert(sols_from(m, w, cols, rows, cur, c, r0)[here.len() + k] == rest[k]);
        } else {
            assert(sols_from(m, w, cols, rows, cur, c, r0) == rest);
        }
    }
}


/// No two of `ss` hold the same set of rows.
pub open spec fn distinct_sets(ss: Seq<Seq<usize>>) -> bool {
    forall|k1: int, k2: int| 0 <= k1 < k2 < ss.len() ==> #[trigger] ss[k1].to_set() != #[trigger] ss[k2].to_set()
}

/// Every cover found from a state holds the rows taken.
proof fn lemma_keeps(m: Seq<Seq<bool>>, w: int, cols: Seq<bool>, rows: Seq<bool>, cur: Seq<usize>, k: int, i: int)
    requires
        0 <= k < sols(m, w, cols, rows, cur).len(),
        0 <= i < cur.len(),
    ensures
        sols(m, w, cols, rows, cur)[k].contains(cur[i]),
    decreases active(cols), rows.len() + 1,
{
    if active(cols) == 0 {
        assert(sols(m, w, cols, rows, cur)[k] == cur);
    } else {
        lemma_keeps_from(m, w, cols, rows, cur, pick(m, cols, rows), 0, k, i);
    }
}

proof fn lemma_keeps_from(m: Seq<Seq<bool>>, w: int, cols: Seq<bool>, rows: Seq<bool>, cur: Seq<usize>, c: int, r0: int, k: int, i: int)
    requires
        0 <= r0,
        0 <= k < sols_from(m, w, cols, rows, cur, c, r0).len(),
        0 <= i < cur.len(),
    ensures
        sols_from(m, w, cols, rows, cur, c, r0)[k].contains(cur[i]),
    decreases active(cols), rows.len() - r0,
{
    if r0 < rows.len() {
        let rest = sols_from(m, w, cols, rows, cur, c, r0 + 1);
        if rows[r0] && 0 <= c < cols.len() && cols[c] && m[r0][c] {
            lemma_cover_fewer(m, cols, r0, c);
            let ncur = cur.push(r0 as usize);
            let here = sols(m, w, cover_cols(m, cols, r0), cover_rows(m, w, rows, r0), ncur);
            if k < here.len() {
                lemma_keeps(m, w, cover_cols(m, cols, r0), cover_rows(m, w, rows, r0), ncur, k, i);
                assert(ncur[i] == cur[i]);
                assert((here + rest)[k] == here[k]);
            } else {
                lemma_keeps_from(m, w, cols, rows, cur, c, r0 + 1, k - here.len(), i);
                assert((here + rest)[k] == rest[k - here.len()]);
            }
        } else {
            lemma_keeps_from(m, w, cols, rows, cur, c, r0 + 1, k, i);
        }
    }
}

/// Every cover found by taking a row from `r0` on holds such a row, with a
/// 1 in column `c`.
proof fn lemma_from_row(m: Seq<Seq<bool>>, w: int, cols: Seq<bool>, rows: Seq<bool>, cur: Seq<usize>, c: int, r0: int, k: int)
    requires
        0 <= r0,
        0 <= k < sols_from(m, w, cols, rows, cur, c, r0).len(),
    ensures
        exists|r: int| r0 <= r < rows.len() && m[r][c] && sols_from(m, w, cols, rows, cur, c, r0)[k].contains(r as usize),
    decreases rows.len() - r0,
{
    if r0 < rows.len() {
        let rest = sols_from(m, w, cols, rows, cur, c, r0 + 1);
        if rows[r0] && 0 <= c < cols.len() && cols[c] && m[r0][c] {
            lemma_cover_fewer(m, cols, r0, c);
            let ncur = cur.push(r0 as usize);
            let here = sols(m, w, cover_cols(m, cols, r0), cover_rows(m, w, rows, r0), ncur);
            if k < here.len() {
                lemma_keeps(m, w, cover_cols(m, cols, r0), cover_rows(m, w, rows, r0), ncur, k, cur.len() as int);
                assert((here + rest)[k] == here[k]);
                assert(here[k].contains(r0 as usize));
            } else {
                lemma_from_row(m, w, cols, rows, cur, c, r0 + 1, k - here.len());
                assert((here + rest)[k] == rest[k - here.len()]);
            }
        } else {
            lemma_from_row(m, w, cols, rows, cur, c, r0 + 1, k);
        }
    }
}

/// The covers found from a valid state hold pairwise different sets of rows.
pub proof fn lemma_distinct(m: Seq<Seq<bool>>, w: int, cols: Seq<bool>, rows: Seq<bool>, cur: Seq<usize>)
    requires
        valid(m, w, cols, rows, cur),
    ensures
        distinct_sets(sols(m, w, cols, rows, cur)),
    decreases active(cols), rows.len() + 1,
{
    if active(cols) != 0 {
        lemma_pick(m, cols, rows);
        lemma_distinct_from(m, w, cols, rows, cur, pick(m, cols, rows), 0);
    }
}

pub proof fn lemma_distinct_from(m: Seq<Seq<bool>>, w: int, cols: Seq<bool>, rows: Seq<bool>, cur: Seq<usize>, c: int, r0: int)
    requires
        valid(m, w, cols, rows, cur),
        0 <= r0,
    ensures
        distinct_sets(sols_from(m, w, cols, rows, cur, c, r0)),
    decreases active(cols), rows.len() - r0,
{
    if r0 < rows.len() {
        let rest = sols_from(m, w, cols, rows, cur, c, r0 + 1);
        lemma_distinct_from(m, w, cols, rows, cur, c, r0 + 1);
        if rows[r0] && 0 <= c < cols.len() && cols[c] && m[r0][c] {
            lemma_cover_fewer(m, cols, r0, c);
            lemma_branch_valid(m, w, cols, rows, cur, r0, c);
            let nc = cover_cols(m, cols, r0);
            let nr = cover_rows(m, w, rows, r0);
            let ncur = cur.push(r0 as usize);
            let here = sols(m, w, nc, nr, ncur);
            lemma_distinct(m, w, nc, nr, ncur);
            let all = here + rest;
            assert(sols_from(m, w, cols, rows, cur, c, r0) == all);
            assert forall|k1: int, k2: int| 0 <= k1 < k2 < all.len() implies #[trigger] all[k1].to_set()
                != #[trigger] all[k2].to_set() by {
                if k2 < here.len() {
                    assert(all[k1] == here[k1] && all[k2] == here[k2]);
                } else if k1 >= here.len() {
                    assert(all[k1] == rest[k1 - here.len()] && all[k2] == rest[k2 - here.len()]);
                } else {
                    let s1 = here[k1];
                    let s2 = rest[k2 - here.len()];
                    assert(all[k1] == s1 && all[k2] == s2);
                    lemma_keeps(m, w, nc, nr, ncur, k1, cur.len() as int);
                    assert(s1.contains(r0 as usize));
                    lemma_from_row(m, w, cols, rows, cur, c, r0 + 1, k2 - here.len());
                    let r = choose|r: int| r0 + 1 <= r < rows.len() && m[r][c] && s2.contains(r as usize);
                    if s1.to_set() == s2.to_set() {
                        assert(s1.to_set().contains(r0 as usize));
                        assert(s2.contains(r0 as usize));
                        lemma_sound_from(m, w, cols, rows, cur, c, r0 + 1, k2 - here.len());
                        let i1 = choose|i: int| 0 <= i < s2.len() && s2[i] == r0 as usize;
                        let i2 = choose|i: int| 0 <= i < s2.len() && s2[i] == r as usize;
                        assert(m[s2[i1] as int][c] && m[s2[i2] as int][c]);
                    }
                }
            }
        }
    }
}

impl ExactCover {
    /// The search starts from a valid state.
    proof fn lemma_start(&self)
        requires
            self.wf(),
        ensures
            valid(self.matrix(), self.width(), all_true(self.width() as nat), all_true(self.matrix().len()), Seq::empty()),
    {
        let m = self.matrix();
        assert forall|r: int| 0 <= r < m.len() implies (#[trigger] m[r]).len() == self.width() by {
            assert(m[r] == self.m@[r]@);
        }
    }

    /// Every cover that `all` returns is an exact cover of the matrix.
    pub proof fn lemma_all_exact(&self, k: int)
        requires
            self.wf(),
            0 <= k < self.all_covers().len(),
        ensures
            is_exact_cover(self.matrix(), self.width(), self.all_covers()[k]),
    {
        self.lemma_start();
        lemma_sound(self.matrix(), self.width(), all_true(self.width() as nat), all_true(self.matrix().len()), Seq::empty(), k);
    }

    /// Every exact cover of a matrix with a row is among the covers that
    /// `all` returns, as a set of rows.
    pub proof fn lemma_all_complete(&self, s: Seq<usize>)
        requires
            self.wf(),
            self.matrix().len() > 0,
            is_exact_cover(self.matrix(), self.width(), s),
        ensures
            exists|k: int| 0 <= k < self.all_covers().len() && (#[trigger] self.all_covers()[k]).to_set() == s.to_set(),
    {
        let m = self.matrix();
        let w = self.width();
        let rows = all_true(m.len());
        // every column has a 1 in a row of the cover
        assert forall|c: int| 0 <= c < w implies #[trigger] col_count(m, rows, c) != 0 by {
            assert(covered(m, s, c));
            let i = choose|i: int| 0 <= i < s.len() && #[trigger] m[s[i] as int][c];
            lemma_count_pos(|r: int| rows[r] && m[r][c], 0, rows.len() as int, s[i] as int);
        }
        assert(!exists|c: int| 0 <= c < w && #[trigger] col_count(m, rows, c) == 0);
        assert(self.all_covers() == sols(m, w, all_true(w as nat), rows, Seq::empty()));
        self.lemma_start();
        lemma_complete(m, w, all_true(w as nat), rows, Seq::empty(), s);
    }

    /// No two covers that `all` returns hold the same set of rows: every
    /// exact cover is listed once.
    pub proof fn lemma_all_distinct(&self)
        requires
            self.wf(),
        ensures
            distinct_sets(self.all_covers()),
    {
        let m = self.matrix();
        let w = self.width();
        if !(m.len() == 0 || exists|c: int| 0 <= c < w && #[trigger] col_count(m, all_true(m.len()), c) == 0) {
            self.lemma_start();
            lemma_distinct(m, w, all_true(w as nat), all_true(m.len()), Seq::empty());
        }
    }

    /// For a matrix with a row, `all` returns no cover, and `any` returns
    /// `None`, exactly when there is no exact cover.
    pub proof fn lemma_none_iff(&self)
        requires
            self.wf(),
            self.matrix().len() > 0,
        ensures
            self.all_covers().len() == 0 <==> forall|s: Seq<usize>| !is_exact_cover(self.matrix(), self.width(), s),
    {
        if self.all_covers().len() > 0 {
            self.lemma_all_exact(0);
        }
        assert forall|s: Seq<usize>| is_exact_cover(self.matrix(), self.width(), s) implies self.all_covers().len() > 0 by {
            self.lemma_all_complete(s);
        }
    }
}

} // verus!
