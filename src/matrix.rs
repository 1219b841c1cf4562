use vstd::prelude::*;
use vstd::arithmetic::div_mod::{lemma_div_multiples_vanish, lemma_fundamental_div_mod_converse};

use crate::score::Score;

verus! {

/// Whether `(i, j)` names a cell of `rows`.
pub open spec fn in_range(rows: Seq<Seq<i64>>, i: int, j: int) -> bool {
    0 <= i < rows.len() && 0 <= j < rows[i].len()
}

/// Whether `rows` has `h` rows of `w` cells each.
pub open spec fn has_shape(rows: Seq<Seq<i64>>, h: int, w: int) -> bool {
    &&& rows.len() == h
    &&& forall|i: int| 0 <= i < h ==> #[trigger] rows[i].len() == w
}

/// Whether `rows` has at least one cell.
pub open spec fn has_cell(rows: Seq<Seq<i64>>) -> bool {
    exists|i: int, j: int| in_range(rows, i, j)
}

/// Whether `v` is the largest value held by a cell of `rows`.
pub open spec fn is_max(rows: Seq<Seq<i64>>, v: i64) -> bool {
    &&& exists|i: int, j: int| in_range(rows, i, j) && rows[i][j] == v
    &&& forall|i: int, j: int| in_range(rows, i, j) ==> rows[i][j] <= v
}

/// Whether `v` is the smallest value held by a cell of `rows`.
pub open spec fn is_min(rows: Seq<Seq<i64>>, v: i64) -> bool {
    &&& exists|i: int, j: int| in_range(rows, i, j) && rows[i][j] == v
    &&& forall|i: int, j: int| in_range(rows, i, j) ==> v <= rows[i][j]
}

/// The largest value held by a cell of `rows` (meaningful when it has one).
pub open spec fn max_value(rows: Seq<Seq<i64>>) -> i64 {
    choose|v: i64| is_max(rows, v)
}

/// Whether cell `(a, b)` comes before cell `(i, j)` in row-major order.
pub open spec fn before(a: int, b: int, i: int, j: int) -> bool {
    a < i || (a == i && b < j)
}

/// Whether cell `(bi, bj)` is the one that a row-major scan of the cells
/// before `(i, j)` picks: the first of largest score when `largest`, else the
/// first of smallest score. No cell has been scanned when `(i, j)` is `(0, 0)`.
pub open spec fn best_upto(rows: Seq<Seq<i64>>, largest: bool, i: int, j: int, bi: int, bj: int) -> bool {
    &&& (i > 0 || j > 0) ==> before(bi, bj, i, j)
    &&& forall|a: int, b: int|
        #![trigger rows[a][b]]
        in_range(rows, a, b) && before(a, b, i, j) ==> if largest {
            rows[a][b] <= rows[bi][bj] && (before(a, b, bi, bj) ==> rows[a][b] < rows[bi][bj])
        } else {
            rows[bi][bj] <= rows[a][b] && (before(a, b, bi, bj) ==> rows[bi][bj] < rows[a][b])
        }
}

/// The coordinates of the first `j` cells of `row` (row number `i`) that
/// hold `v`, from left to right.
pub open spec fn row_hits(row: Seq<i64>, i: int, v: i64, j: int) -> Seq<(usize, usize)>
    decreases j,
{
    if j <= 0 {
        Seq::empty()
    } else {
        let prev = row_hits(row, i, v, j - 1);
        if row[j - 1] == v {
            prev.push((i as usize, (j - 1) as usize))
        } else {
            prev
        }
    }
}

/// The coordinates of the cells of the first `i` rows of `rows` that hold
/// `v`, in row-major order.
pub open spec fn hits(rows: Seq<Seq<i64>>, v: i64, i: int) -> Seq<(usize, usize)>
    decreases i,
{
    if i <= 0 {
        Seq::empty()
    } else {
        hits(rows, v, i - 1) + row_hits(rows[i - 1], i - 1, v, rows[i - 1].len() as int)
    }
}

/// Every coordinate listed by `row_hits` names a cell of `row` that holds
/// `v`.
pub proof fn lemma_row_hits_hold(row: Seq<i64>, i: int, v: i64, j: int)
    requires
        0 <= i <= usize::MAX,
        j <= row.len() <= usize::MAX + 1,
    ensures
        forall|k: int|
            #![trigger row_hits(row, i, v, j)[k]]
            0 <= k < row_hits(row, i, v, j).len() ==> {
                let (a, b) = row_hits(row, i, v, j)[k];
                &&& a == i
                &&& b < j
                &&& row[b as int] == v
            },
    decreases j,
{
    if j > 0 {
        lemma_row_hits_hold(row, i, v, j - 1);
        let prev = row_hits(row, i, v, j - 1);
        assert forall|k: int| 0 <= k < row_hits(row, i, v, j).len() implies {
            let (a, b) = #[trigger] row_hits(row, i, v, j)[k];
            &&& a == i
            &&& b < j
            &&& row[b as int] == v
        } by {
            if k < prev.len() {
                assert(row_hits(row, i, v, j)[k] == prev[k]);
            }
        }
    }
}

/// Every coordinate listed by `hits` names a cell of `rows` that holds `v`.
pub proof fn lemma_hits_hold(rows: Seq<Seq<i64>>, v: i64, i: int)
    requires
        i <= rows.len() <= usize::MAX + 1,
        forall|a: int| 0 <= a < rows.len() ==> #[trigger] rows[a].len() <= usize::MAX + 1,
    ensures
        forall|k: int|
            #![trigger hits(rows, v, i)[k]]
            0 <= k < hits(rows, v, i).len() ==> {
                let (a, b) = hits(rows, v, i)[k];
                &&& a < i
                &&& in_range(rows, a as int, b as int)
                &&& rows[a as int][b as int] == v
            },
    decreases i,
{
    if i > 0 {
        lemma_hits_hold(rows, v, i - 1);
        lemma_row_hits_hold(rows[i - 1], i - 1, v, rows[i - 1].len() as int);
        let prev = hits(rows, v, i - 1);
        let last = row_hits(rows[i - 1], i - 1, v, rows[i - 1].len() as int);
        assert forall|k: int| 0 <= k < hits(rows, v, i).len() implies {
            let (a, b) = #[trigger] hits(rows, v, i)[k];
            &&& a < i
            &&& in_range(rows, a as int, b as int)
            &&& rows[a as int][b as int] == v
        } by {
            if k < prev.len() {
                assert(hits(rows, v, i)[k] == prev[k]);
            } else {
                assert(hits(rows, v, i)[k] == last[k - prev.len()]);
            }
        }
    }
}

/// 2D Matrix of scores, stored row by row in one buffer.
#[derive(Debug, Clone, PartialEq, Eq, Hash)]
pub struct AlignmentMatrix {
    buf: Vec<Score>,
    width: usize,
}

/// The rows of width `w` that a row-major buffer holds.
spec fn rows_of(buf: Seq<i64>, w: int) -> Seq<Seq<i64>> {
    if w <= 0 {
        Seq::empty()
    } else {
        Seq::new((buf.len() as int / w) as nat, |i: int| Seq::new(w as nat, |j: int| buf[i * w + j]))
    }
}

impl View for AlignmentMatrix {
    type V = Seq<Seq<i64>>;

    /// The rows of the matrix, each of `width` scores.
    closed spec fn view(&self) -> Seq<Seq<i64>> {
        rows_of(self.buf@, self.width as int)
    }
}

proof fn lemma_flat_index(len: int, w: int, i: int, j: int)
    requires
        w > 0,
        len >= 0,
        0 <= i < len / w,
        0 <= j < w,
    ensures
        0 <= i * w + j < len,
{
    let q = len / w;
    assert(len == w * q + len % w) by {
        vstd::arithmetic::div_mod::lemma_fundamental_div_mod(len, w);
    }
    assert(0 <= len % w) by {
        vstd::arithmetic::div_mod::lemma_mod_pos_bound(len, w);
    }
    assert(0 <= i * w + j < len) by (nonlinear_arith)
        requires
            w > 0,
            0 <= i < q,
            0 <= j < w,
            len == w * q + len % w,
            0 <= len % w,
    ;
}

proof fn lemma_flat_index_unique(w: int, a: int, b: int, i: int, j: int)
    requires
        w > 0,
        0 <= b < w,
        0 <= j < w,
        a * w + b == i * w + j,
    ensures
        a == i,
        b == j,
{
    let x = a * w + b;
    lemma_fundamental_div_mod_converse(x, w, a, b);
    lemma_fundamental_div_mod_converse(x, w, i, j);
}

proof fn lemma_rows_update(buf: Seq<i64>, w: int, i: int, j: int, v: i64)
    requires
        in_range(rows_of(buf, w), i, j),
    ensures
        rows_of(buf.update(i * w + j, v), w) == rows_of(buf, w).update(i, rows_of(buf, w)[i].update(j, v)),
{
    let rows = rows_of(buf, w);
    let other = rows_of(buf.update(i * w + j, v), w);
    let expected = rows.update(i, rows[i].update(j, v));
    lemma_flat_index(buf.len() as int, w, i, j);
    assert forall|a: int| 0 <= a < rows.len() implies #[trigger] other[a] == expected[a] by {
        assert forall|b: int| 0 <= b < w implies #[trigger] other[a][b] == expected[a][b] by {
            lemma_flat_index(buf.len() as int, w, a, b);
            if a * w + b == i * w + j {
                lemma_flat_index_unique(w, a, b, i, j);
            }
        }
        assert(other[a] =~= expected[a]);
    }
    assert(other =~= expected);
}

proof fn lemma_max_value(rows: Seq<Seq<i64>>, v: i64)
    requires
        is_max(rows, v),
    ensures
        max_value(rows) == v,
{
    let m = max_value(rows);
    assert(is_max(rows, m));
    let (i, j) = choose|i: int, j: int| in_range(rows, i, j) && rows[i][j] == v;
    let (a, b) = choose|a: int, b: int| in_range(rows, a, b) && rows[a][b] == m;
    assert(rows[i][j] <= m);
    assert(rows[a][b] <= v);
}

impl AlignmentMatrix {
    /// The number of columns of the matrix.
    pub closed spec fn spec_width(&self) -> nat {
        self.width as nat
    }

    /// Creates a matrix with all elements set to zero,
    /// of dimensions Height X Width.
    pub fn zeroed(height: usize, width: usize) -> (m: Self)
        requires
            height * width <= usize::MAX,
        ensures
            m.spec_width() == width,
            width > 0 ==> m@ == Seq::new(height as nat, |i: int| Seq::new(width as nat, |j: int| 0i64)),
            width == 0 ==> m@.len() == 0,
    {
        let len: usize = height * width;
        let mut buf: Vec<Score> = Vec::new();
        while buf.len() < len
            invariant
                buf.len() <= len,
                forall|k: int| 0 <= k < buf.len() ==> buf@[k] == 0,
            decreases len - buf.len(),
        {
            buf.push(0);
        }
        let m = AlignmentMatrix { buf, width };
        proof {
            if width > 0 {
                lemma_div_multiples_vanish(height as int, width as int);
                assert((height * width) as int / (width as int) == height as int) by {
                    assert(width as int * height as int == (height * width) as int) by (nonlinear_arith);
                }
                assert forall|i: int| 0 <= i < height implies
                    #[trigger] m@[i] == Seq::new(width as nat, |j: int| 0i64) by {
                    assert forall|j: int| 0 <= j < width implies #[trigger] m@[i][j] == 0i64 by {
                        lemma_flat_index(len as int, width as int, i, j);
                    }
                    assert(m@[i] =~= Seq::new(width as nat, |j: int| 0i64));
                }
                assert(m@ =~= Seq::new(height as nat, |i: int| Seq::new(width as nat, |j: int| 0i64)));
            }
        }
        m
    }

    /// Number of lines of the matrix.
    pub fn height(&self) -> (r: usize)
        requires
            self.spec_width() > 0,
        ensures
            r == self@.len(),
    {
        self.buf.len() / self.width
    }

    /// Number of columns of the matrix.
    pub fn width(&self) -> (r: usize)
        ensures
            r == self.spec_width(),
            forall|i: int| 0 <= i < self@.len() ==> #[trigger] self@[i].len() == r,
    {
        self.width
    }

    /// Packs a two-dimensional index into a one-dimensional index.
    /// If the index is out of bounds, `None` is returned.
    fn pack_index(&self, i: usize, j: usize) -> (r: Option<usize>)
        ensures
            match r {
                Some(k) => in_range(self@, i as int, j as int) && k < self.buf.len()
                    && self.buf@[k as int] == self@[i as int][j as int]
                    && k == i * self.width + j,
                None => !in_range(self@, i as int, j as int),
            },
    {
        if j >= self.width {
            None
        } else if i >= self.buf.len() / self.width {
            None
        } else {
            proof {
                lemma_flat_index(self.buf.len() as int, self.width as int, i as int, j as int);
            }
            Some(i * self.width + j)
        }
    }

    /// Gets a reference to a score identified by given two-dimensional index.
    /// If the index is out of bounds, `None` is returned.
    pub fn get_ref(&self, i: usize, j: usize) -> (r: Option<&Score>)
        ensures
            match r {
                Some(x) => in_range(self@, i as int, j as int) && *x == self@[i as int][j as int],
                None => !in_range(self@, i as int, j as int),
            },
    {
        match self.pack_index(i, j) {
            Some(k) => Some(&self.buf[k]),
            None => None,
        }
    }

    /// Gets the value of a score identified by given two-dimensional index.
    /// If the index is out of bounds, `None` is returned.
    pub fn get(&self, i: usize, j: usize) -> (r: Option<Score>)
        ensures
            match r {
                Some(x) => in_range(self@, i as int, j as int) && x == self@[i as int][j as int],
                None => !in_range(self@, i as int, j as int),
            },
    {
        match self.get_ref(i, j) {
            Some(x) => Some(*x),
            None => None,
        }
    }

    /// Gets the value of a score at an index known to be in bounds.
    pub fn at(&self, i: usize, j: usize) -> (r: Score)
        requires
            in_range(self@, i as int, j as int),
        ensures
            r == self@[i as int][j as int],
    {
        proof {
            lemma_flat_index(self.buf.len() as int, self.width as int, i as int, j as int);
        }
        self.buf[i * self.width + j]
    }

    /// Gets a mutable reference to a score identified by given two-dimensional
    /// index, allowing modifications. If the index is out of bounds, `None` is
    /// returned.
    pub fn get_mut(&mut self, i: usize, j: usize) -> (r: Option<&mut Score>)
        ensures
            final(self).spec_width() == old(self).spec_width(),
            r is Some <==> in_range(old(self)@, i as int, j as int),
            r is Some ==> *r.unwrap() == old(self)@[i as int][j as int]
                && final(self)@ == old(self)@.update(
                    i as int,
                    old(self)@[i as int].update(j as int, *final(r.unwrap())),
                ),
            r is None ==> final(self)@ == old(self)@,
    {
        match self.pack_index(i, j) {
            Some(k) => {
                let ghost before = self.buf@;
                let r = &mut self.buf[k];
                proof {
                    lemma_rows_update(before, self.width as int, i as int, j as int, *final(r));
                }
                Some(r)
            },
            None => None,
        }
    }

    /// Sets a score value into a cell identified by given two-dimensional
    /// index. Returns `false` if index is out of bounds.
    #[must_use]
    pub fn set(&mut self, i: usize, j: usize, score: Score) -> (r: bool)
        ensures
            final(self).spec_width() == old(self).spec_width(),
            r == in_range(old(self)@, i as int, j as int),
            r ==> final(self)@ == old(self)@.update(
                i as int,
                old(self)@[i as int].update(j as int, score),
            ),
            !r ==> final(self)@ == old(self)@,
    {
        match self.pack_index(i, j) {
            Some(k) => {
                proof {
                    lemma_rows_update(self.buf@, self.width as int, i as int, j as int, score);
                }
                self.buf.set(k, score);
                true
            },
            None => false,
        }
    }

    /// Returns the maximum score, if matrix is not empty.
    pub fn max(&self) -> (r: Option<Score>)
        ensures
            r is Some <==> has_cell(self@),
            r matches Some(v) ==> is_max(self@, v) && v == max_value(self@),
    {
        match self.argmax() {
            Some((i, j)) => {
                let v = self.at(i, j);
                proof {
                    lemma_max_value(self@, v);
                }
                Some(v)
            },
            None => None,
        }
    }

    /// Returns the minimum score, if matrix is not empty.
    pub fn min(&self) -> (r: Option<Score>)
        ensures
            r is Some <==> has_cell(self@),
            r matches Some(v) ==> is_min(self@, v),
    {
        match self.argmin() {
            Some((i, j)) => Some(self.at(i, j)),
            None => None,
        }
    }

    /// Returns the two-dimensional index of the first maximum score found in
    /// row-major order, if matrix is not empty.
    pub fn argmax(&self) -> (r: Option<(usize, usize)>)
        ensures
            r is Some <==> has_cell(self@),
            r matches Some((i, j)) ==> {
                &&& in_range(self@, i as int, j as int)
                &&& is_max(self@, self@[i as int][j as int])
                &&& forall|a: int, b: int|
                    in_range(self@, a, b) && before(a, b, i as int, j as int)
                        ==> self@[a][b] < self@[i as int][j as int]
            },
    {
        self.extreme_cell(true)
    }

    /// Returns the two-dimensional index of the first minimum score found in
    /// row-major order, if matrix is not empty.
    pub fn argmin(&self) -> (r: Option<(usize, usize)>)
        ensures
            r is Some <==> has_cell(self@),
            r matches Some((i, j)) ==> {
                &&& in_range(self@, i as int, j as int)
                &&& is_min(self@, self@[i as int][j as int])
                &&& forall|a: int, b: int|
                    in_range(self@, a, b) && before(a, b, i as int, j as int)
                        ==> self@[i as int][j as int] < self@[a][b]
            },
    {
        self.extreme_cell(false)
    }

    /// Scans the cells in row-major order and returns the first one of
    /// largest score (`largest`), or the first one of smallest score.
    fn extreme_cell(&self, largest: bool) -> (r: Option<(usize, usize)>)
        ensures
            r is Some <==> has_cell(self@),
            r matches Some((i, j)) ==> in_range(self@, i as int, j as int)
                && best_upto(self@, largest, self@.len() as int, 0, i as int, j as int),
    {
        if self.width == 0 {
            return None;
        }
        let h = self.height();
        let w = self.width;
        if h == 0 {
            return None;
        }
        let mut bi: usize = 0;
        let mut bj: usize = 0;
        let mut i: usize = 0;
        proof {
            assert(in_range(self@, 0, 0));
        }
        while i < h
            invariant
                w > 0,
                h > 0,
                h == self@.len(),
                forall|a: int| 0 <= a < h ==> #[trigger] self@[a].len() == w,
                i <= h,
                bi < h && bj < w,
                best_upto(self@, largest, i as int, 0, bi as int, bj as int),
            decreases h - i,
        {
            let mut j: usize = 0;
            while j < w
                invariant
                    w > 0,
                    h == self@.len(),
                    forall|a: int| 0 <= a < h ==> #[trigger] self@[a].len() == w,
                    i < h,
                    j <= w,
                    bi < h && bj < w,
                    best_upto(self@, largest, i as int, j as int, bi as int, bj as int),
                decreases w - j,
            {
                let v = self.at(i, j);
                let current = self.at(bi, bj);
                if (i == 0 && j == 0) || (largest && v > current) || (!largest && v < current) {
                    bi = i;
                    bj = j;
                }
                j = j + 1;
            }
            assert forall|a: int, b: int| 0 <= a && 0 <= b < w implies
                before(a, b, i + 1, 0) == before(a, b, i as int, w as int) by {}
            i = i + 1;
        }
        Some((bi, bj))
    }

    /// Returns the two-dimensional indices of all maximum scores, in
    /// row-major order.
    pub fn argmax_many(&self) -> (r: Vec<(usize, usize)>)
        ensures
            r@ == hits(self@, max_value(self@), self@.len() as int),
            has_cell(self@) ==> is_max(self@, max_value(self@)),
    {
        let mut out: Vec<(usize, usize)> = Vec::new();
        match self.max() {
            None => {
                proof {
                    if self.width > 0 && self@.len() > 0 {
                        assert(in_range(self@, 0, 0));
                    }
                    assert(self@.len() == 0);
                }
            },
            Some(m) => {
                let h = self.height();
                let w = self.width;
                let mut i: usize = 0;
                while i < h
                    invariant
                        w > 0,
                        h == self@.len(),
                        forall|a: int| 0 <= a < h ==> #[trigger] self@[a].len() == w,
                        i <= h,
                        out@ == hits(self@, m, i as int),
                    decreases h - i,
                {
                    let mut j: usize = 0;
                    while j < w
                        invariant
                            w > 0,
                            h == self@.len(),
                            forall|a: int| 0 <= a < h ==> #[trigger] self@[a].len() == w,
                            i < h,
                            j <= w,
                            out@ == hits(self@, m, i as int) + row_hits(self@[i as int], i as int, m, j as int),
                        decreases w - j,
                    {
                        if self.at(i, j) == m {
                            out.push((i, j));
                            assert(out@ =~= hits(self@, m, i as int) + row_hits(self@[i as int], i as int, m, j + 1));
                        }
                        j = j + 1;
                    }
                    i = i + 1;
                }
            },
        }
        out
    }

    /// Writes a score into a cell known to be in bounds.
    pub fn put(&mut self, i: usize, j: usize, score: Score)
        requires
            in_range(old(self)@, i as int, j as int),
        ensures
            final(self).spec_width() == old(self).spec_width(),
            final(self)@ == old(self)@.update(i as int, old(self)@[i as int].update(j as int, score)),
    {
        let _ = self.set(i, j, score);
    }
}

} // verus!
