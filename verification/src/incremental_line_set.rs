//! Sets of lines `x -> a * x + b`, asked for their least value at a point.
//!
//! The set keeps the lower envelope of its lines: the lines in order of
//! decreasing slope, each of them the lowest on a non-empty stretch of
//! integers, the stretches in order.
use vstd::prelude::*;

use vstd::arithmetic::div_mod::{lemma_fundamental_div_mod, lemma_fundamental_div_mod_converse_div, lemma_mod_bound};

verus! {

/// The integer types the lines are made of: each widens to `i128`.
pub trait ChtInt: Copy {
    /// The integer.
    spec fn value(&self) -> int;

    /// The least value of the type.
    spec fn low() -> int;

    /// The greatest value of the type.
    spec fn high() -> int;

    /// The values of the type fit in 64 bits.
    proof fn lemma_bounds()
        ensures
            -0x8000_0000_0000_0000 <= Self::low() <= 0 < Self::high() < 0x8000_0000_0000_0000,
    ;

    /// The integer as an `i128`.
    fn wide(&self) -> (r: i128)
        ensures
            r == self.value(),
            Self::low() <= r <= Self::high(),
    ;

    /// An `i128` within the type's range, as the type.
    fn narrow(x: i128) -> (r: Self)
        requires
            Self::low() <= x <= Self::high(),
        ensures
            r.value() == x,
    ;
}

impl ChtInt for i8 {
    open spec fn value(&self) -> int {
        *self as int
    }

    open spec fn low() -> int {
        i8::MIN as int
    }

    open spec fn high() -> int {
        i8::MAX as int
    }

    proof fn lemma_bounds() {
    }

    fn wide(&self) -> (r: i128) {
        *self as i128
    }

    fn narrow(x: i128) -> (r: Self) {
        x as i8
    }
}

impl ChtInt for i16 {
    open spec fn value(&self) -> int {
        *self as int
    }

    open spec fn low() -> int {
        i16::MIN as int
    }

    open spec fn high() -> int {
        i16::MAX as int
    }

    proof fn lemma_bounds() {
    }

    fn wide(&self) -> (r: i128) {
        *self as i128
    }

    fn narrow(x: i128) -> (r: Self) {
        x as i16
    }
}

impl ChtInt for i32 {
    open spec fn value(&self) -> int {
        *self as int
    }

    open spec fn low() -> int {
        i32::MIN as int
    }

    open spec fn high() -> int {
        i32::MAX as int
    }

    proof fn lemma_bounds() {
    }

    fn wide(&self) -> (r: i128) {
        *self as i128
    }

    fn narrow(x: i128) -> (r: Self) {
        x as i32
    }
}

impl ChtInt for i64 {
    open spec fn value(&self) -> int {
        *self as int
    }

    open spec fn low() -> int {
        i64::MIN as int
    }

    open spec fn high() -> int {
        i64::MAX as int
    }

    proof fn lemma_bounds() {
    }

    fn wide(&self) -> (r: i128) {
        *self as i128
    }

    fn narrow(x: i128) -> (r: Self) {
        x as i64
    }
}

impl ChtInt for isize {
    open spec fn value(&self) -> int {
        *self as int
    }

    open spec fn low() -> int {
        isize::MIN as int
    }

    open spec fn high() -> int {
        isize::MAX as int
    }

    proof fn lemma_bounds() {
    }

    fn wide(&self) -> (r: i128) {
        *self as i128
    }

    fn narrow(x: i128) -> (r: Self) {
        x as isize
    }
}

/// The value of line `l` at `x`.
pub open spec fn lval(l: (int, int), x: int) -> int {
    l.0 * x + l.1
}

/// For `p` steeper than `q`: the greatest integer at which `p` is not
/// above `q`.
pub open spec fn cross(p: (int, int), q: (int, int)) -> int {
    (q.1 - p.1) / (p.0 - q.0)
}

/// A line as a pair of integers.
pub open spec fn line_of<I: ChtInt>(l: (I, I)) -> (int, int) {
    (l.0.value(), l.1.value())
}

/// Lines as pairs of integers.
pub open spec fn lines_of<I: ChtInt>(v: Seq<(I, I)>) -> Seq<(int, int)> {
    v.map_values(|l: (I, I)| line_of(l))
}

/// The slopes decrease along the sequence.
pub open spec fn decreasing(s: Seq<(int, int)>) -> bool {
    forall|i: int, j: int| 0 <= i < j < s.len() ==> #[trigger] s[i].0 > #[trigger] s[j].0
}

/// Where line `i` of the sequence gives way to line `i + 1`.
pub open spec fn breakpoint(s: Seq<(int, int)>, i: int) -> int {
    cross(s[i], s[i + 1])
}

/// A lower envelope: slopes decrease, and each line gives way to the next
/// further up than the one before it.
pub open spec fn envelope(s: Seq<(int, int)>) -> bool {
    &&& decreasing(s)
    &&& forall|i: int, j: int| 0 <= i < j && j + 1 < s.len() ==> #[trigger] breakpoint(s, i) < #[trigger] breakpoint(s, j)
}

/// At `x` some line of `s` is not above `l`.
pub open spec fn covered_at(s: Seq<(int, int)>, l: (int, int), x: int) -> bool {
    exists|k: int| 0 <= k < s.len() && #[trigger] lval(s[k], x) <= lval(l, x)
}

/// At every integer some line of `s` is not above `l`.
pub open spec fn covers(s: Seq<(int, int)>, l: (int, int)) -> bool {
    forall|x: int| #[trigger] covered_at(s, l, x)
}

/// `v` is the least value of the lines at `x`.
pub open spec fn is_min_at(lines: Seq<(int, int)>, x: int, v: int) -> bool {
    &&& exists|k: int| 0 <= k < lines.len() && lval(lines[k], x) == v
    &&& forall|k: int| 0 <= k < lines.len() ==> v <= #[trigger] lval(lines[k], x)
}

/// Which of two lines is lower, on either side of where they cross.
proof fn lemma_cross(p: (int, int), q: (int, int), x: int)
    requires
        p.0 > q.0,
    ensures
        lval(p, x) <= lval(q, x) <==> x <= cross(p, q),
{
    let d = p.0 - q.0;
    let n = q.1 - p.1;
    lemma_fundamental_div_mod(n, d);
    lemma_mod_bound(n, d);
    let c = n / d;
    let r = n % d;
    assert(lval(p, x) <= lval(q, x) <==> d * x <= n) by (nonlinear_arith)
        requires
            d == p.0 - q.0,
            n == q.1 - p.1,
    ;
    assert(d * x <= n <==> x <= c) by (nonlinear_arith)
        requires
            d > 0,
            n == d * c + r,
            0 <= r < d,
    ;
}

/// Where `m` is dominated by `l` on the left and by `r` on the right, the
/// lower of `l` and `r` is never above it.
proof fn lemma_squeezed(l: (int, int), m: (int, int), r: (int, int), x: int)
    requires
        l.0 > m.0 > r.0,
        cross(l, m) >= cross(m, r),
    ensures
        lval(l, x) <= lval(m, x) || lval(r, x) <= lval(m, x),
{
    lemma_cross(l, m, x);
    lemma_cross(m, r, x);
}

/// To the right of its breakpoint, each line of an envelope is below the
/// ones before it.
proof fn lemma_left_of(s: Seq<(int, int)>, x: int, i: int, j: int)
    requires
        envelope(s),
        0 <= j < i < s.len(),
        x > breakpoint(s, i - 1),
    ensures
        lval(s[i], x) < lval(s[j], x),
    decreases i - j,
{
    lemma_cross(s[i - 1], s[i], x);
    if j < i - 1 {
        assert(breakpoint(s, i - 2) < breakpoint(s, i - 1));
        lemma_left_of(s, x, i - 1, j);
    }
}

/// Up to its breakpoint, each line of an envelope is not above the ones
/// after it.
proof fn lemma_right_of(s: Seq<(int, int)>, x: int, i: int, j: int)
    requires
        envelope(s),
        0 <= i < j < s.len(),
        x <= breakpoint(s, i),
    ensures
        lval(s[i], x) <= lval(s[j], x),
    decreases j - i,
{
    lemma_cross(s[i], s[i + 1], x);
    if i + 1 < j {
        assert(breakpoint(s, i) < breakpoint(s, i + 1));
        lemma_right_of(s, x, i + 1, j);
    }
}

/// The line of an envelope whose stretch holds `x` is the lowest there.
proof fn lemma_lowest(s: Seq<(int, int)>, x: int, i: int)
    requires
        envelope(s),
        0 <= i < s.len(),
        i + 1 < s.len() ==> x <= breakpoint(s, i),
        i > 0 ==> x > breakpoint(s, i - 1),
    ensures
        forall|j: int| 0 <= j < s.len() ==> lval(s[i], x) <= #[trigger] lval(s[j], x),
{
    assert forall|j: int| 0 <= j < s.len() implies lval(s[i], x) <= #[trigger] lval(s[j], x) by {
        if j < i {
            lemma_left_of(s, x, i, j);
        } else if j > i {
            lemma_right_of(s, x, i, j);
        }
    }
}

/// One more line keeps what was covered by the old lines or by it.
proof fn lemma_cover_step(before: Seq<(int, int)>, lc: (int, int), l: (int, int), is_new: bool)
    requires
        is_new ==> l == lc,
        !is_new ==> forall|x: int| #![trigger lval(l, x)] (exists|j: int| 0 <= j < before.len() && #[trigger] lval(before[j], x) <= lval(l, x))
            || lval(lc, x) <= lval(l, x),
    ensures
        covers(before.push(lc), l),
{
    let after = before.push(lc);
    let m = before.len() as int;
    assert forall|x: int| #[trigger] covered_at(after, l, x) by {
        if is_new {
            assert(lval(after[m], x) <= lval(l, x));
        } else if exists|j: int| 0 <= j < m && #[trigger] lval(before[j], x) <= lval(l, x) {
            let j = choose|j: int| 0 <= j < m && #[trigger] lval(before[j], x) <= lval(l, x);
            assert(after[j] == before[j]);
        } else {
            assert(lval(after[m], x) <= lval(l, x));
        }
    }
}

/// The greatest `q` with `q * d <= n`.
fn floor_div(n: i128, d: i128) -> (q: i128)
    requires
        d > 0,
        -0x1_0000_0000_0000_0000_0000 <= n <= 0x1_0000_0000_0000_0000_0000,
        d <= 0x1_0000_0000_0000_0000_0000,
    ensures
        q == n / d,
{
    if n >= 0 {
        n / d
    } else {
        let m = -n;
        let c = (m + d - 1) / d;
        proof {
            let q = n / d;
            let r = n % d;
            lemma_fundamental_div_mod(n as int, d as int);
            lemma_mod_bound(n as int, d as int);
            assert(m + d - 1 == (-q) * d + (d - 1 - r)) by (nonlinear_arith)
                requires
                    n == d * q + r,
                    m == -n,
            ;
            lemma_fundamental_div_mod_converse_div((m + d - 1) as int, d as int, -q, d - 1 - r);
        }
        -c
    }
}

/// Where `p` and `q` cross, for `p` steeper than `q`.
fn cross_exec<I: ChtInt>(p: &(I, I), q: &(I, I)) -> (r: i128)
    requires
        p.0.value() > q.0.value(),
    ensures
        r == cross(line_of(*p), line_of(*q)),
{
    proof {
        I::lemma_bounds();
    }
    let n = q.1.wide() - p.1.wide();
    let d = p.0.wide() - q.0.wide();
    floor_div(n, d)
}

/// The lower envelope of lines whose slopes decrease: every line is
/// covered by it, and each of its lines is one of them.
fn envelope_of<I: ChtInt>(cands: &Vec<(I, I)>) -> (r: Vec<(I, I)>)
    requires
        decreasing(lines_of(cands@)),
    ensures
        envelope(lines_of(r@)),
        forall|t: int| 0 <= t < cands@.len() ==> covers(lines_of(r@), #[trigger] lines_of(cands@)[t]),
        forall|i: int| 0 <= i < r@.len() ==> cands@.contains(#[trigger] r@[i]),
        cands@.len() > 0 ==> r@.len() > 0,
{
    let ghost cs = lines_of(cands@);
    let n = cands.len();
    let mut st: Vec<(I, I)> = Vec::new();
    let ghost mut orig: Seq<int> = Seq::empty();
    let mut k: usize = 0;
    while k < n
        invariant
            n == cands@.len(),
            cs == lines_of(cands@),
            decreasing(cs),
            k <= n,
            envelope(lines_of(st@)),
            orig.len() == st@.len(),
            forall|i: int| 0 <= i < st@.len() ==> 0 <= #[trigger] orig[i] < k && st@[i] == cands@[orig[i]],
            forall|t: int| 0 <= t < k ==> covers(lines_of(st@), #[trigger] cs[t]),
            k > 0 ==> st@.len() > 0,
        decreases n - k,
    {
        let c = cands[k];
        let ghost lc = cs[k as int];
        proof {
            assert(line_of(c) == lc);
            assert forall|i: int| 0 <= i < st@.len() implies #[trigger] lines_of(st@)[i].0 > lc.0 by {
                let t = orig[i];
                assert(lines_of(st@)[i] == cs[t]);
                assert(cs[t].0 > cs[k as int].0);
            }
            assert forall|t: int, x: int| #![trigger lval(cs[t], x)] 0 <= t < k implies (exists|j: int| 0 <= j < st@.len() && #[trigger] lval(lines_of(st@)[j], x) <= lval(cs[t], x))
                || lval(lc, x) <= lval(cs[t], x) by {
                assert(covers(lines_of(st@), cs[t]));
                assert(covered_at(lines_of(st@), cs[t], x));
            }
        }
        // drop the lines that the new one leaves no stretch of their own
        loop
            invariant
                n == cands@.len(),
                cs == lines_of(cands@),
                decreasing(cs),
                k < n,
                c == cands@[k as int],
                lc == cs[k as int],
                lc == line_of(c),
                envelope(lines_of(st@)),
                orig.len() == st@.len(),
                forall|i: int| 0 <= i < st@.len() ==> 0 <= #[trigger] orig[i] < k && st@[i] == cands@[orig[i]],
                forall|i: int| 0 <= i < st@.len() ==> #[trigger] lines_of(st@)[i].0 > lc.0,
                forall|t: int, x: int| #![trigger lval(cs[t], x)] 0 <= t < k ==> (exists|j: int| 0 <= j < st@.len() && #[trigger] lval(lines_of(st@)[j], x) <= lval(cs[t], x))
                    || lval(lc, x) <= lval(cs[t], x),
            ensures
                envelope(lines_of(st@)),
                orig.len() == st@.len(),
                forall|i: int| 0 <= i < st@.len() ==> 0 <= #[trigger] orig[i] < k && st@[i] == cands@[orig[i]],
                forall|i: int| 0 <= i < st@.len() ==> #[trigger] lines_of(st@)[i].0 > lc.0,
                forall|t: int, x: int| #![trigger lval(cs[t], x)] 0 <= t < k ==> (exists|j: int| 0 <= j < st@.len() && #[trigger] lval(lines_of(st@)[j], x) <= lval(cs[t], x))
                    || lval(lc, x) <= lval(cs[t], x),
                st@.len() >= 2 ==> breakpoint(lines_of(st@), st@.len() - 2) < cross(lines_of(st@)[st@.len() - 1], lc),
            decreases st@.len(),
        {
            let m = st.len();
            if m < 2 {
                break;
            }
            let ghost before = lines_of(st@);
            proof {
                assert(before[m - 2] == line_of(st@[m - 2]));
                assert(before[m - 1] == line_of(st@[m - 1]));
                assert(before[m - 2].0 > before[m - 1].0);
            }
            let l1 = cross_exec(&st[m - 2], &st[m - 1]);
            let l2 = cross_exec(&st[m - 1], &c);
            if l1 < l2 {
                break;
            }
            let ghost old_st = st@;
            proof {
                assert forall|x: int| lval(before[m - 2], x) <= lval(before[m - 1], x) || lval(lc, x) <= lval(before[m - 1], x) by {
                    lemma_squeezed(before[m - 2], before[m - 1], lc, x);
                }
            }
            st.pop();
            proof {
                orig = orig.drop_last();
                let after = lines_of(st@);
                assert(after =~= before.drop_last());
                assert forall|t: int, x: int| #![trigger lval(cs[t], x)] 0 <= t < k implies (exists|j: int| 0 <= j < st@.len() && #[trigger] lval(after[j], x) <= lval(cs[t], x))
                    || lval(lc, x) <= lval(cs[t], x) by {
                    if exists|j: int| 0 <= j < m && #[trigger] lval(before[j], x) <= lval(cs[t], x) {
                        let j = choose|j: int| 0 <= j < m && #[trigger] lval(before[j], x) <= lval(cs[t], x);
                        if j < m - 1 {
                            assert(after[j] == before[j]);
                        } else if lval(before[m - 2], x) <= lval(before[m - 1], x) {
                            assert(after[m - 2] == before[m - 2]);
                            assert(lval(after[m - 2], x) <= lval(cs[t], x));
                        }
                    }
                }
                assert forall|i: int, j: int| 0 <= i < j && j + 1 < after.len() implies #[trigger] breakpoint(after, i) < #[trigger] breakpoint(after, j) by {
                    assert(breakpoint(after, i) == breakpoint(before, i));
                    assert(breakpoint(after, j) == breakpoint(before, j));
                }
                assert forall|i: int| 0 <= i < st@.len() implies 0 <= #[trigger] orig[i] < k && st@[i] == cands@[orig[i]] by {
                    assert(st@[i] == old_st[i]);
                }
                assert forall|i: int| 0 <= i < st@.len() implies #[trigger] after[i].0 > lc.0 by {
                    assert(after[i] == before[i]);
                }
            }
        }
        let ghost before = lines_of(st@);
        st.push(c);
        proof {
            orig = orig.push(k as int);
            let after = lines_of(st@);
            let m = before.len() as int;
            assert(after =~= before.push(lc));
            assert forall|i: int, j: int| 0 <= i < j < after.len() implies #[trigger] after[i].0 > #[trigger] after[j].0 by {
                if j < m {
                    assert(after[i] == before[i] && after[j] == before[j]);
                } else {
                    assert(after[i] == before[i]);
                }
            }
            assert forall|i: int, j: int| 0 <= i < j && j + 1 < after.len() implies #[trigger] breakpoint(after, i) < #[trigger] breakpoint(after, j) by {
                if j + 1 < m {
                    assert(breakpoint(after, j) == breakpoint(before, j));
                    assert(breakpoint(after, i) == breakpoint(before, i));
                } else {
                    assert(breakpoint(after, j) == cross(before[m - 1], lc));
                    if i < m - 2 {
                        assert(breakpoint(before, i) < breakpoint(before, m - 2));
                    }
                    assert(breakpoint(after, i) == breakpoint(before, i));
                }
            }
            assert forall|t: int| 0 <= t < k + 1 implies covers(after, #[trigger] cs[t]) by {
                lemma_cover_step(before, lc, cs[t], t == k);
            }
            assert forall|i: int| 0 <= i < st@.len() implies 0 <= #[trigger] orig[i] < k + 1 && st@[i] == cands@[orig[i]] by {}
        }
        k += 1;
    }
    proof {
        assert forall|i: int| 0 <= i < st@.len() implies cands@.contains(#[trigger] st@[i]) by {
            assert(cands@[orig[i]] == st@[i]);
        }
    }
    st
}

/// Covering is transitive.
proof fn lemma_covers_trans(a: Seq<(int, int)>, b: Seq<(int, int)>, l: (int, int))
    requires
        covers(a, l),
        forall|k: int| 0 <= k < a.len() ==> covers(b, #[trigger] a[k]),
    ensures
        covers(b, l),
{
    assert forall|x: int| #[trigger] covered_at(b, l, x) by {
        assert(covered_at(a, l, x));
        let k = choose|k: int| 0 <= k < a.len() && #[trigger] lval(a[k], x) <= lval(l, x);
        assert(covers(b, a[k]));
        assert(covered_at(b, a[k], x));
        let j = choose|j: int| 0 <= j < b.len() && #[trigger] lval(b[j], x) <= lval(a[k], x);
        assert(lval(b[j], x) <= lval(l, x));
    }
}

/// A line covers itself, and every line of its slope above it.
proof fn lemma_covers_member(s: Seq<(int, int)>, k: int, l: (int, int))
    requires
        0 <= k < s.len(),
        s[k].0 == l.0,
        s[k].1 <= l.1,
    ensures
        covers(s, l),
{
    assert forall|x: int| #[trigger] covered_at(s, l, x) by {
        assert(lval(s[k], x) <= lval(l, x));
    }
}

/// A set of lines, asked for their least value at a point.
pub struct IncrementalLineSet<I> {
    lines: Vec<(I, I)>,
    pushed: Ghost<Seq<(int, int)>>,
}

impl<I: ChtInt> IncrementalLineSet<I> {
    /// The lines pushed so far.
    pub closed spec fn pushed(&self) -> Seq<(int, int)> {
        self.pushed@
    }

    /// The lines kept: the lower envelope of those pushed.
    pub closed spec fn kept(&self) -> Seq<(int, int)> {
        lines_of(self.lines@)
    }

    /// The kept lines form an envelope that covers every pushed line, and
    /// are themselves pushed lines.
    pub closed spec fn wf(&self) -> bool {
        &&& envelope(self.kept())
        &&& forall|t: int| 0 <= t < self.pushed@.len() ==> covers(self.kept(), #[trigger] self.pushed@[t])
        &&& forall|i: int| 0 <= i < self.kept().len() ==> self.pushed@.contains(#[trigger] self.kept()[i])
        &&& (self.pushed@.len() == 0 <==> self.kept().len() == 0)
    }

    /// What `wf` says.
    pub proof fn lemma_wf(&self)
        requires
            self.wf(),
        ensures
            envelope(self.kept()),
            forall|t: int| 0 <= t < self.pushed().len() ==> covers(self.kept(), #[trigger] self.pushed()[t]),
            forall|i: int| 0 <= i < self.kept().len() ==> self.pushed().contains(#[trigger] self.kept()[i]),
            self.pushed().len() == 0 <==> self.kept().len() == 0,
    {
    }

    /// The empty set.
    pub fn new() -> (r: Self)
        ensures
            r.wf(),
            r.pushed() == Seq::<(int, int)>::empty(),
    {
        let r = IncrementalLineSet { lines: Vec::new(), pushed: Ghost(Seq::empty()) };
        proof {
            assert(r.kept() =~= Seq::<(int, int)>::empty());
        }
        r
    }

    /// Adds the line `x -> line.0 * x + line.1`.
    pub fn push(&mut self, line: (I, I))
        requires
            old(self).wf(),
        ensures
            final(self).wf(),
            final(self).pushed() == old(self).pushed().push(line_of(line)),
    {
        let ghost kept = self.kept();
        let ghost pushed = self.pushed@;
        let ghost nl = line_of(line);
        let n = self.lines.len();
        let aw = line.0.wide();
        let mut p: usize = 0;
        while p < n && self.lines[p].0.wide() > aw
            invariant
                n == self.lines@.len(),
                kept == lines_of(self.lines@),
                aw == nl.0,
                p <= n,
                forall|i: int| 0 <= i < p ==> #[trigger] kept[i].0 > nl.0,
            decreases n - p,
        {
            proof {
                assert(kept[p as int] == line_of(self.lines@[p as int]));
            }
            p += 1;
        }
        proof {
            assert(p < n ==> kept[p as int] == line_of(self.lines@[p as int]));
        }
        if p < n && self.lines[p].0.wide() == aw && self.lines[p].1.wide() <= line.1.wide() {
            proof {
                lemma_covers_member(kept, p as int, nl);
                self.pushed = Ghost(pushed.push(nl));
                assert forall|i: int| 0 <= i < self.kept().len() implies self.pushed@.contains(#[trigger] self.kept()[i]) by {
                    assert(pushed.contains(kept[i]));
                    let t = choose|t: int| 0 <= t < pushed.len() && pushed[t] == kept[i];
                    assert(self.pushed@[t] == kept[i]);
                }
            }
            return;
        }
        let q = if p < n && self.lines[p].0.wide() == aw { p + 1 } else { p };
        let mut cands: Vec<(I, I)> = Vec::new();
        let mut i: usize = 0;
        while i < p
            invariant
                p <= n,
                n == self.lines@.len(),
                i <= p,
                cands@ == self.lines@.subrange(0, i as int),
            decreases p - i,
        {
            cands.push(self.lines[i]);
            proof {
                assert(cands@ =~= self.lines@.subrange(0, i + 1));
            }
            i += 1;
        }
        cands.push(line);
        let ghost head = cands@;
        i = q;
        while i < n
            invariant
                q <= n,
                n == self.lines@.len(),
                q <= i <= n,
                cands@ == head + self.lines@.subrange(q as int, i as int),
            decreases n - i,
        {
            cands.push(self.lines[i]);
            proof {
                assert(cands@ =~= head + self.lines@.subrange(q as int, i + 1));
            }
            i += 1;
        }
        let ghost cs = lines_of(cands@);
        proof {
            assert(cs.len() == n - q + p + 1);
            assert forall|t: int| 0 <= t < p implies #[trigger] cs[t] == kept[t] by {
                assert(cands@[t] == self.lines@[t]);
            }
            assert(cs[p as int] == nl);
            assert forall|t: int| p < t < cs.len() implies #[trigger] cs[t] == kept[t - p - 1 + q] by {
                assert(cands@[t] == self.lines@[t - p - 1 + q]);
            }
            assert forall|i: int, j: int| 0 <= i < j < cs.len() implies #[trigger] cs[i].0 > #[trigger] cs[j].0 by {
                if j < p {
                    assert(kept[i].0 > kept[j].0);
                } else if j == p {
                } else if i < p {
                    assert(kept[i].0 > kept[j - p - 1 + q].0);
                } else if i == p {
                    if q > p {
                        assert(kept[p as int].0 > kept[j - p - 1 + q].0);
                    } else if j - p - 1 + q > p {
                        assert(kept[p as int].0 > kept[j - p - 1 + q].0);
                    }
                } else {
                    assert(kept[i - p - 1 + q].0 > kept[j - p - 1 + q].0);
                }
            }
        }
        let env = envelope_of(&cands);
        proof {
            let ev = lines_of(env@);
            // each old kept line is covered by the candidates
            assert forall|k: int| 0 <= k < kept.len() implies covers(ev, #[trigger] kept[k]) by {
                if k < p {
                    lemma_covers_member(cs, k, kept[k]);
                } else if k >= q {
                    lemma_covers_member(cs, k - q + p + 1, kept[k]);
                } else {
                    lemma_covers_member(cs, p as int, kept[k]);
                }
                lemma_covers_trans(cs, ev, kept[k]);
            }
            let np = pushed.push(nl);
            assert forall|t: int| 0 <= t < np.len() implies covers(ev, #[trigger] np[t]) by {
                if t < pushed.len() {
                    assert(covers(kept, pushed[t]));
                    lemma_covers_trans(kept, ev, np[t]);
                } else {
                    assert(covers(ev, cs[p as int]));
                }
            }
            assert forall|i: int| 0 <= i < ev.len() implies np.contains(#[trigger] ev[i]) by {
                assert(cands@.contains(env@[i]));
                let t = choose|t: int| 0 <= t < cands@.len() && cands@[t] == env@[i];
                assert(ev[i] == cs[t]);
                if t < p {
                    assert(pushed.contains(kept[t]));
                    let u = choose|u: int| 0 <= u < pushed.len() && pushed[u] == kept[t];
                    assert(np[u] == ev[i]);
                } else if t == p {
                    assert(np[pushed.len() as int] == ev[i]);
                } else {
                    assert(pushed.contains(kept[t - p - 1 + q]));
                    let u = choose|u: int| 0 <= u < pushed.len() && pushed[u] == kept[t - p - 1 + q];
                    assert(np[u] == ev[i]);
                }
            }
        }
        self.lines = env;
        proof {
            self.pushed = Ghost(pushed.push(nl));
        }
    }

    /// The least value of the lines at `x`; `None` when there is none.
    pub fn min(&self, x: I) -> (r: Option<I>)
        requires
            self.wf(),
            forall|v: int| is_min_at(self.pushed(), x.value(), v) ==> I::low() <= v <= I::high(),
        ensures
            r is None <==> self.pushed().len() == 0,
            r matches Some(v) ==> is_min_at(self.pushed(), x.value(), v.value()),
    {
        let n = self.lines.len();
        if n == 0 {
            return None;
        }
        let ghost kept = self.kept();
        let xw = x.wide();
        let mut i: usize = 0;
        while i + 1 < n
            invariant
                n == self.lines@.len(),
                kept == lines_of(self.lines@),
                envelope(kept),
                xw == x.value(),
                i < n,
                i > 0 ==> xw > breakpoint(kept, i - 1),
            ensures
                i < n,
                i > 0 ==> xw > breakpoint(kept, i - 1),
                i + 1 < n ==> xw <= breakpoint(kept, i as int),
            decreases n - i,
        {
            proof {
                assert(kept[i as int] == line_of(self.lines@[i as int]));
                assert(kept[i + 1] == line_of(self.lines@[i + 1]));
                assert(kept[i as int].0 > kept[i + 1].0);
            }
            let c = cross_exec(&self.lines[i], &self.lines[i + 1]);
            if xw <= c {
                break;
            }
            i += 1;
        }
        proof {
            lemma_lowest(kept, xw as int, i as int);
            I::lemma_bounds();
        }
        let (a, b) = self.lines[i];
        let aw = a.wide();
        let bw = b.wide();
        proof {
            assert(-0x4000_0000_0000_0000_0000_0000_0000_0000 <= aw * xw <= 0x4000_0000_0000_0000_0000_0000_0000_0000) by (nonlinear_arith)
                requires
                    -0x8000_0000_0000_0000 <= aw < 0x8000_0000_0000_0000,
                    -0x8000_0000_0000_0000 <= xw < 0x8000_0000_0000_0000,
            ;
        }
        let v = aw * xw + bw;
        proof {
            let pushed = self.pushed@;
            assert(kept[i as int] == line_of(self.lines@[i as int]));
            assert(v == lval(kept[i as int], xw as int));
            assert forall|k: int| 0 <= k < pushed.len() implies v <= #[trigger] lval(pushed[k], xw as int) by {
                assert(covers(kept, pushed[k]));
                assert(covered_at(kept, pushed[k], xw as int));
                let j = choose|j: int| 0 <= j < kept.len() && #[trigger] lval(kept[j], xw as int) <= lval(pushed[k], xw as int);
                assert(v <= lval(kept[j], xw as int));
            }
            assert(pushed.contains(kept[i as int]));
            let t = choose|t: int| 0 <= t < pushed.len() && pushed[t] == kept[i as int];
            assert(lval(pushed[t], xw as int) == v);
            assert(is_min_at(self.pushed(), x.value(), v as int));
        }
        Some(I::narrow(v))
    }

    /// The number of lines kept.
    pub fn inner_len(&self) -> (r: usize)
        ensures
            r == self.kept().len(),
    {
        self.lines.len()
    }
}

/// The least value at `x` is unique.
pub proof fn lemma_min_unique(lines: Seq<(int, int)>, x: int, v: int, w: int)
    requires
        is_min_at(lines, x, v),
        is_min_at(lines, x, w),
    ensures
        v == w,
{
    let i = choose|k: int| 0 <= k < lines.len() && lval(lines[k], x) == v;
    let j = choose|k: int| 0 <= k < lines.len() && lval(lines[k], x) == w;
    assert(w <= lval(lines[i], x));
    assert(v <= lval(lines[j], x));
}

/// After one more line, the least value at `x` is that of the new line
/// where there was none before, and otherwise the lesser of the old least
/// value and the new line's value.
pub proof fn lemma_min_after_push(lines: Seq<(int, int)>, l: (int, int), x: int, w: int)
    requires
        is_min_at(lines.push(l), x, w),
    ensures
        lines.len() == 0 ==> w == lval(l, x),
        forall|v: int| #[trigger] is_min_at(lines, x, v) ==> w == if v <= lval(l, x) { v } else { lval(l, x) },
{
    let s = lines.push(l);
    assert(w <= lval(s[lines.len() as int], x));
    if lines.len() == 0 {
        let k = choose|k: int| 0 <= k < s.len() && lval(s[k], x) == w;
        assert(k == 0);
    }
    assert forall|v: int| #[trigger] is_min_at(lines, x, v) implies w == if v <= lval(l, x) { v } else { lval(l, x) } by {
        let m = if v <= lval(l, x) { v } else { lval(l, x) };
        let i = choose|k: int| 0 <= k < lines.len() && lval(lines[k], x) == v;
        assert(s[i] == lines[i]);
        assert(w <= lval(s[i], x));
        let k = choose|k: int| 0 <= k < s.len() && lval(s[k], x) == w;
        if k < lines.len() {
            assert(s[k] == lines[k]);
            assert(v <= lval(lines[k], x));
        }
    }
}

} // verus!
