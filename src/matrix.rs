//! Rectangular matrices of `i32` with wrap-around arithmetic.

use vstd::prelude::*;

use crate::text::{chars_of, lines, lines_of, parse_row, row_of, trim, trimmed, views, ParseError};

verus! {

/// Number of columns, read from the first row (0 for a matrix with no rows).
pub open spec fn cols_of(m: Seq<Seq<i32>>) -> nat {
    if m.len() == 0 {
        0
    } else {
        m[0].len()
    }
}

/// Every row has as many entries as the first one.
pub open spec fn is_rectangular(m: Seq<Seq<i32>>) -> bool {
    forall|i: int| 0 <= i < m.len() ==> #[trigger] m[i].len() == cols_of(m)
}

/// The shape check of addition and subtraction: equal row counts and equal
/// first-row lengths.
pub open spec fn same_shape(a: Seq<Seq<i32>>, b: Seq<Seq<i32>>) -> bool {
    a.len() == b.len() && cols_of(a) == cols_of(b)
}

/// A `rows` by `cols` matrix of zeros.
pub open spec fn zeros(rows: nat, cols: nat) -> Seq<Seq<i32>> {
    Seq::new(rows, |i: int| Seq::new(cols, |j: int| 0i32))
}

/// Entry-wise wrapping sum, shaped as `a`.
pub open spec fn sum_of(a: Seq<Seq<i32>>, b: Seq<Seq<i32>>) -> Seq<Seq<i32>> {
    Seq::new(a.len(), |i: int| Seq::new(cols_of(a), |j: int| a[i][j].wrapping_add(b[i][j])))
}

/// Entry-wise wrapping difference, shaped as `a`.
pub open spec fn difference_of(a: Seq<Seq<i32>>, b: Seq<Seq<i32>>) -> Seq<Seq<i32>> {
    Seq::new(a.len(), |i: int| Seq::new(cols_of(a), |j: int| a[i][j].wrapping_sub(b[i][j])))
}

/// Every entry of `a` multiplied by `k`, wrapping.
pub open spec fn scaled(a: Seq<Seq<i32>>, k: i32) -> Seq<Seq<i32>> {
    Seq::new(a.len(), |i: int| Seq::new(a[i].len(), |j: int| a[i][j].wrapping_mul(k)))
}

/// Wrapping sum of `a[i][k] * b[k][j]` for `k < n`, accumulated in order.
pub open spec fn dot_upto(a: Seq<Seq<i32>>, b: Seq<Seq<i32>>, i: int, j: int, n: nat) -> i32
    decreases n,
{
    if n == 0 {
        0i32
    } else {
        let k = n - 1;
        dot_upto(a, b, i, j, (n - 1) as nat).wrapping_add(a[i][k].wrapping_mul(b[k][j]))
    }
}

/// The matrix product, with wrapping accumulation: rows of `a` by columns
/// of `b`.
pub open spec fn product_of(a: Seq<Seq<i32>>, b: Seq<Seq<i32>>) -> Seq<Seq<i32>> {
    Seq::new(a.len(), |i: int| Seq::new(cols_of(b), |j: int| dot_upto(a, b, i, j, cols_of(a))))
}

/// Subtracting `a` from `b` and adding `a` back gives `b` again, entry by
/// entry, for any two rectangular matrices of the same shape (the wrap-around
/// of each step undoes the other); and a product has as many rows as `a` and,
/// in each, as many entries as `b` has columns.
pub proof fn matrix_laws(a: Seq<Seq<i32>>, b: Seq<Seq<i32>>)
    requires
        is_rectangular(a),
        is_rectangular(b),
    ensures
        same_shape(a, b) ==> is_rectangular(difference_of(b, a)),
        same_shape(a, b) ==> same_shape(a, difference_of(b, a)),
        same_shape(a, b) ==> sum_of(a, difference_of(b, a)) == b,
        product_of(a, b).len() == a.len(),
        is_rectangular(product_of(a, b)),
        a.len() > 0 ==> cols_of(product_of(a, b)) == cols_of(b),
{
    if same_shape(a, b) {
        let d = difference_of(b, a);
        assert forall|i: int| 0 <= i < d.len() implies #[trigger] d[i].len() == cols_of(d) by {}
        let s = sum_of(a, d);
        assert forall|i: int| 0 <= i < s.len() implies #[trigger] s[i] =~= b[i] by {
            assert(a[i].len() == cols_of(a));
            assert(b[i].len() == cols_of(b));
            assert forall|j: int| 0 <= j < s[i].len() implies #[trigger] s[i][j] == b[i][j] by {
                let x = a[i][j];
                let y = b[i][j];
                assert(x.wrapping_add(y.wrapping_sub(x)) == y);
            }
        }
        assert(s =~= b);
    }
    let p = product_of(a, b);
    assert forall|i: int| 0 <= i < p.len() implies #[trigger] p[i].len() == cols_of(p) by {}
}

/// A matrix, as the sequence of its rows.
#[derive(Debug, Clone, PartialEq)]
pub struct Matrix {
    pub data: Vec<Vec<i32>>,
}

impl View for Matrix {
    type V = Seq<Seq<i32>>;

    open spec fn view(&self) -> Seq<Seq<i32>> {
        self.data@.map_values(|r: Vec<i32>| r@)
    }
}

impl Matrix {
    /// Number of columns of the first row, 0 when there is none.
    fn cols(&self) -> (r: usize)
        ensures
            r == cols_of(self@),
    {
        if self.data.len() == 0 {
            0
        } else {
            self.data[0].len()
        }
    }

    /// A `rows` by `cols` matrix of zeros.
    pub fn new(rows: usize, cols: usize) -> (r: Matrix)
        ensures
            r@ == zeros(rows as nat, cols as nat),
    {
        let mut data: Vec<Vec<i32>> = Vec::new();
        let mut i: usize = 0;
        while i < rows
            invariant
                0 <= i <= rows,
                data@.len() == i,
                forall|k: int| 0 <= k < i ==> #[trigger] data@[k]@ == Seq::new(cols as nat, |j: int| 0i32),
            decreases rows - i,
        {
            let mut row: Vec<i32> = Vec::new();
            let mut j: usize = 0;
            while j < cols
                invariant
                    0 <= j <= cols,
                    row@ == Seq::new(j as nat, |t: int| 0i32),
                decreases cols - j,
            {
                row.push(0);
                j = j + 1;
                proof {
                    assert(row@ =~= Seq::new(j as nat, |t: int| 0i32));
                }
            }
            data.push(row);
            i = i + 1;
        }
        let r = Matrix { data };
        proof {
            assert(r@ =~~= zeros(rows as nat, cols as nat));
        }
        r
    }

    /// Entry-wise sum or difference, shaped as `self`.
    fn combine(&self, other: &Matrix, subtract: bool) -> (r: Matrix)
        requires
            is_rectangular(self@),
            is_rectangular(other@),
            same_shape(self@, other@),
        ensures
            subtract ==> r@ == difference_of(self@, other@),
            !subtract ==> r@ == sum_of(self@, other@),
    {
        let n = self.data.len();
        let c = self.cols();
        let ghost a = self@;
        let ghost b = other@;
        let ghost want = if subtract { difference_of(a, b) } else { sum_of(a, b) };
        let mut data: Vec<Vec<i32>> = Vec::new();
        let mut i: usize = 0;
        while i < n
            invariant
                n == a.len(),
                c == cols_of(a),
                a == self@,
                b == other@,
                is_rectangular(a),
                is_rectangular(b),
                same_shape(a, b),
                want == (if subtract { difference_of(a, b) } else { sum_of(a, b) }),
                0 <= i <= n,
                data@.len() == i,
                forall|k: int| 0 <= k < i ==> #[trigger] data@[k]@ == want[k],
            decreases n - i,
        {
            let mut row: Vec<i32> = Vec::new();
            let mut j: usize = 0;
            assert(a[i as int].len() == c);
            assert(b[i as int].len() == c);
            assert(a[i as int] == self.data@[i as int]@);
            assert(b[i as int] == other.data@[i as int]@);
            while j < c
                invariant
                    n == a.len(),
                    c == cols_of(a),
                    a == self@,
                    b == other@,
                    same_shape(a, b),
                    0 <= i < n,
                    self.data@[i as int]@.len() == c,
                    other.data@[i as int]@.len() == c,
                    want == (if subtract { difference_of(a, b) } else { sum_of(a, b) }),
                    0 <= j <= c,
                    row@ == want[i as int].subrange(0, j as int),
                decreases c - j,
            {
                let x = self.data[i][j];
                let y = other.data[i][j];
                if subtract {
                    row.push(x.wrapping_sub(y));
                } else {
                    row.push(x.wrapping_add(y));
                }
                j = j + 1;
                proof {
                    assert(row@ =~= want[i as int].subrange(0, j as int));
                }
            }
            proof {
                assert(row@ =~= want[i as int]);
            }
            data.push(row);
            i = i + 1;
        }
        let r = Matrix { data };
        proof {
            assert(r@ =~~= want);
        }
        r
    }

    /// Entry-wise sum. Fails when the row counts or the first rows' lengths
    /// differ.
    pub fn add(&self, other: &Matrix) -> (r: Result<Matrix, &'static str>)
        requires
            is_rectangular(self@),
            is_rectangular(other@),
        ensures
            r is Err <==> !same_shape(self@, other@),
            r matches Ok(m) ==> m@ == sum_of(self@, other@),
    {
        if self.data.len() != other.data.len() || self.cols() != other.cols() {
            return Err("Matrices must have the same dimensions for addition.");
        }
        Ok(self.combine(other, false))
    }

    /// Entry-wise difference. Fails when the row counts or the first rows'
    /// lengths differ.
    pub fn subtract(&self, other: &Matrix) -> (r: Result<Matrix, &'static str>)
        requires
            is_rectangular(self@),
            is_rectangular(other@),
        ensures
            r is Err <==> !same_shape(self@, other@),
            r matches Ok(m) ==> m@ == difference_of(self@, other@),
    {
        if self.data.len() != other.data.len() || self.cols() != other.cols() {
            return Err("Matrices must have the same dimensions for subtraction.");
        }
        Ok(self.combine(other, true))
    }
    /// The product `self * other`, rows of `self` by columns of `other`, with
    /// wrapping accumulation. Fails when the columns of `self` are not as many
    /// as the rows of `other`.
    pub fn multiply(&self, other: &Matrix) -> (r: Result<Matrix, &'static str>)
        requires
            is_rectangular(self@),
            is_rectangular(other@),
        ensures
            r is Err <==> cols_of(self@) != other@.len(),
            r matches Ok(m) ==> m@ == product_of(self@, other@),
    {
        let n = self.data.len();
        let inner = self.cols();
        if inner != other.data.len() {
            return Err("Invalid dimensions for matrix multiplication.");
        }
        let c = other.cols();
        let ghost a = self@;
        let ghost b = other@;
        let mut data: Vec<Vec<i32>> = Vec::new();
        let mut i: usize = 0;
        while i < n
            invariant
                n == a.len(),
                inner == cols_of(a),
                inner == b.len(),
                c == cols_of(b),
                a == self@,
                b == other@,
                is_rectangular(a),
                is_rectangular(b),
                0 <= i <= n,
                data@.len() == i,
                forall|k: int| 0 <= k < i ==> #[trigger] data@[k]@ == product_of(a, b)[k],
            decreases n - i,
        {
            let mut row: Vec<i32> = Vec::new();
            let mut j: usize = 0;
            assert(a[i as int].len() == inner);
            assert(a[i as int] == self.data@[i as int]@);
            while j < c
                invariant
                    n == a.len(),
                    inner == cols_of(a),
                    inner == b.len(),
                    c == cols_of(b),
                    a == self@,
                    b == other@,
                    is_rectangular(b),
                    0 <= i < n,
                    self.data@[i as int]@.len() == inner,
                    0 <= j <= c,
                    row@ == product_of(a, b)[i as int].subrange(0, j as int),
                decreases c - j,
            {
                let mut acc: i32 = 0;
                let mut k: usize = 0;
                while k < inner
                    invariant
                        inner == cols_of(a),
                        inner == b.len(),
                        c == cols_of(b),
                        a == self@,
                        b == other@,
                        is_rectangular(b),
                        0 <= i < n,
                        n == a.len(),
                        0 <= j < c,
                        self.data@[i as int]@.len() == inner,
                        0 <= k <= inner,
                        acc == dot_upto(a, b, i as int, j as int, k as nat),
                    decreases inner - k,
                {
                    assert(b[k as int].len() == c);
                    assert(b[k as int] == other.data@[k as int]@);
                    assert(a[i as int] == self.data@[i as int]@);
                    acc = acc.wrapping_add(self.data[i][k].wrapping_mul(other.data[k][j]));
                    k = k + 1;
                }
                row.push(acc);
                j = j + 1;
                proof {
                    assert(row@ =~= product_of(a, b)[i as int].subrange(0, j as int));
                }
            }
            proof {
                assert(row@ =~= product_of(a, b)[i as int]);
            }
            data.push(row);
            i = i + 1;
        }
        let r = Matrix { data };
        proof {
            assert(r@ =~~= product_of(a, b));
        }
        Ok(r)
    }

    /// Every entry multiplied by `scalar`, wrapping.
    pub fn scalar_multiply(&self, scalar: i32) -> (r: Matrix)
        ensures
            r@ == scaled(self@, scalar),
    {
        let n = self.data.len();
        let ghost a = self@;
        let mut data: Vec<Vec<i32>> = Vec::new();
        let mut i: usize = 0;
        while i < n
            invariant
                n == a.len(),
                a == self@,
                0 <= i <= n,
                data@.len() == i,
                forall|k: int| 0 <= k < i ==> #[trigger] data@[k]@ == scaled(a, scalar)[k],
            decreases n - i,
        {
            let src = &self.data[i];
            assert(a[i as int] == src@);
            let mut row: Vec<i32> = Vec::new();
            let mut j: usize = 0;
            while j < src.len()
                invariant
                    n == a.len(),
                    a == self@,
                    0 <= i < n,
                    a[i as int] == src@,
                    0 <= j <= src@.len(),
                    row@ == scaled(a, scalar)[i as int].subrange(0, j as int),
                decreases src@.len() - j,
            {
                row.push(src[j].wrapping_mul(scalar));
                j = j + 1;
                proof {
                    assert(row@ =~= scaled(a, scalar)[i as int].subrange(0, j as int));
                }
            }
            proof {
                assert(row@ =~= scaled(a, scalar)[i as int]);
            }
            data.push(row);
            i = i + 1;
        }
        let r = Matrix { data };
        proof {
            assert(r@ =~~= scaled(a, scalar));
        }
        r
    }
}

/// The matrices that `lines` hold: rows accumulate until a blank line, which
/// ends the current matrix and starts the next; the end of the lines ends the
/// last one. Nothing if any row fails.
pub open spec fn matrices_of(lines: Seq<Seq<char>>) -> Option<Seq<Seq<Seq<i32>>>>
    decreases lines.len(),
{
    if lines.len() == 0 {
        Some(seq![Seq::empty()])
    } else {
        match matrices_of(lines.drop_last()) {
            None => None,
            Some(ms) => if trim(lines.last()).len() == 0 {
                Some(ms.push(Seq::empty()))
            } else {
                match row_of(lines.last()) {
                    None => None,
                    Some(r) => Some(ms.update(ms.len() - 1, ms.last().push(r))),
                }
            },
        }
    }
}

pub open spec fn matrix_views(v: Seq<Matrix>) -> Seq<Seq<Seq<i32>>> {
    v.map_values(|m: Matrix| m@)
}

proof fn lemma_matrices_none(t: Seq<Seq<char>>, k: int)
    requires
        0 <= k <= t.len(),
        matrices_of(t.subrange(0, k)) is None,
    ensures
        matrices_of(t) is None,
    decreases t.len() - k,
{
    if k < t.len() {
        assert(t.subrange(0, k + 1).drop_last() =~= t.subrange(0, k));
        lemma_matrices_none(t, k + 1);
    } else {
        assert(t.subrange(0, k) =~= t);
    }
}

/// Reads matrices from `text`: one comma-separated row of integers per
/// line, a blank line between matrices. The first field that is not an
/// integer fails the whole text.
pub fn parse_matrices(text: &str) -> (r: Result<Vec<Matrix>, ParseError>)
    ensures
        match matrices_of(lines_of(text@)) {
            Some(ms) => r matches Ok(v) && matrix_views(v@) == ms,
            None => r == Err::<Vec<Matrix>, ParseError>(ParseError::InvalidInteger),
        },
{
    let chars = chars_of(text);
    let ls = lines(&chars);
    let ghost t = views(ls@);
    let mut out: Vec<Matrix> = Vec::new();
    let mut current = Matrix { data: Vec::new() };
    let mut i: usize = 0;
    proof {
        assert(t.subrange(0, 0) =~= Seq::<Seq<char>>::empty());
        assert(current@ =~= Seq::<Seq<i32>>::empty());
        assert(matrix_views(out@).push(current@) =~= seq![Seq::<Seq<i32>>::empty()]);
    }
    while i < ls.len()
        invariant
            t == views(ls@),
            t == lines_of(text@),
            0 <= i <= ls@.len(),
            matrices_of(t.subrange(0, i as int)) == Some(matrix_views(out@).push(current@)),
        decreases ls@.len() - i,
    {
        proof {
            assert(t.subrange(0, i + 1).drop_last() =~= t.subrange(0, i as int));
            assert(t.subrange(0, i + 1).last() == ls@[i as int]@);
        }
        let ghost before = matrix_views(out@).push(current@);
        let blank = trimmed(&ls[i]);
        if blank.len() == 0 {
            let done = current;
            out.push(done);
            current = Matrix { data: Vec::new() };
            proof {
                assert(current@ =~= Seq::<Seq<i32>>::empty());
                assert(matrix_views(out@).push(current@) =~= before.push(Seq::empty()));
            }
        } else {
            match parse_row(&ls[i]) {
                Some(row) => {
                    let ghost rv = row@;
                    let ghost cur_before = current@;
                    current.data.push(row);
                    proof {
                        assert(current@ =~= cur_before.push(rv));
                        assert(matrix_views(out@).push(current@) =~= before.update(
                            before.len() - 1,
                            before.last().push(rv),
                        ));
                    }
                },
                None => {
                    proof {
                        lemma_matrices_none(t, i + 1);
                    }
                    return Err(ParseError::InvalidInteger);
                },
            }
        }
        i = i + 1;
    }
    proof {
        assert(t.subrange(0, t.len() as int) =~= t);
    }
    out.push(current);
    proof {
        assert(matrix_views(out@) =~= matrices_of(t).unwrap());
    }
    Ok(out)
}

/// The three pairwise operations of the matrix reduction.
#[derive(Debug, Clone, Copy, PartialEq, Eq, Structural)]
pub enum MatrixOp {
    Add,
    Subtract,
    Multiply,
}

/// What the operation gives on `a` and `b`, nothing where the shapes forbid it.
pub open spec fn op_result(a: Seq<Seq<i32>>, b: Seq<Seq<i32>>, op: MatrixOp) -> Option<
    Seq<Seq<i32>>,
> {
    match op {
        MatrixOp::Add => if same_shape(a, b) {
            Some(sum_of(a, b))
        } else {
            None
        },
        MatrixOp::Subtract => if same_shape(a, b) {
            Some(difference_of(a, b))
        } else {
            None
        },
        MatrixOp::Multiply => if cols_of(a) == b.len() {
            Some(product_of(a, b))
        } else {
            None
        },
    }
}

/// Adds a pairwise result to the running total: a pair that the shapes
/// forbid is passed over; a result that cannot be added to the total stops
/// the reduction.
pub open spec fn accumulate(total: Option<Seq<Seq<i32>>>, r: Option<Seq<Seq<i32>>>) -> Option<
    Seq<Seq<i32>>,
> {
    match total {
        None => None,
        Some(t) => match r {
            None => Some(t),
            Some(x) => if same_shape(t, x) {
                Some(sum_of(t, x))
            } else {
                None
            },
        },
    }
}

/// The total after the pairs `(i, j')` for `i < j' < j`, from `start`.
pub open spec fn pairs_from(
    ms: Seq<Seq<Seq<i32>>>,
    op: MatrixOp,
    i: int,
    j: int,
    start: Option<Seq<Seq<i32>>>,
) -> Option<Seq<Seq<i32>>>
    decreases j - i,
{
    if j <= i + 1 {
        start
    } else {
        accumulate(pairs_from(ms, op, i, j - 1, start), op_result(ms[i], ms[j - 1], op))
    }
}

/// The total after every pair `(i', j)` with `i' < i` and `i' < j < n`, in
/// order, from a zero matrix shaped as the first one.
pub open spec fn pairs_upto(ms: Seq<Seq<Seq<i32>>>, op: MatrixOp, n: int, i: int) -> Option<
    Seq<Seq<i32>>,
>
    decreases i,
{
    if i <= 0 {
        Some(zeros(ms[0].len(), cols_of(ms[0])))
    } else {
        pairs_from(ms, op, i - 1, n, pairs_upto(ms, op, n, i - 1))
    }
}

proof fn lemma_results_rectangular(a: Seq<Seq<i32>>, b: Seq<Seq<i32>>, r: nat, c: nat)
    ensures
        is_rectangular(sum_of(a, b)),
        is_rectangular(difference_of(a, b)),
        is_rectangular(product_of(a, b)),
        is_rectangular(zeros(r, c)),
{
    let s = sum_of(a, b);
    assert forall|i: int| 0 <= i < s.len() implies #[trigger] s[i].len() == cols_of(s) by {}
    let d = difference_of(a, b);
    assert forall|i: int| 0 <= i < d.len() implies #[trigger] d[i].len() == cols_of(d) by {}
    let p = product_of(a, b);
    assert forall|i: int| 0 <= i < p.len() implies #[trigger] p[i].len() == cols_of(p) by {}
    let z = zeros(r, c);
    assert forall|i: int| 0 <= i < z.len() implies #[trigger] z[i].len() == cols_of(z) by {}
}

impl Matrix {
    /// Whether every row is as long as the first.
    pub fn is_rectangular(&self) -> (r: bool)
        ensures
            r == is_rectangular(self@),
    {
        let c = self.cols();
        let mut i: usize = 0;
        while i < self.data.len()
            invariant
                c == cols_of(self@),
                0 <= i <= self@.len(),
                forall|k: int| 0 <= k < i ==> #[trigger] self@[k].len() == c,
            decreases self@.len() - i,
        {
            assert(self@[i as int] == self.data@[i as int]@);
            if self.data[i].len() != c {
                return false;
            }
            i = i + 1;
        }
        true
    }

    /// The operation on `self` and `other`, nothing where the shapes forbid it.
    fn apply(&self, other: &Matrix, op: MatrixOp) -> (r: Option<Matrix>)
        requires
            is_rectangular(self@),
            is_rectangular(other@),
        ensures
            match op_result(self@, other@, op) {
                Some(x) => r matches Some(m) && m@ == x,
                None => r is None,
            },
    {
        let res = match op {
            MatrixOp::Add => self.add(other),
            MatrixOp::Subtract => self.subtract(other),
            MatrixOp::Multiply => self.multiply(other),
        };
        match res {
            Ok(m) => Some(m),
            Err(_) => None,
        }
    }
}

pub open spec fn all_rectangular(ms: Seq<Seq<Seq<i32>>>, n: int) -> bool {
    forall|k: int| 0 <= k < n ==> is_rectangular(#[trigger] ms[k])
}

/// For every pair `(i, j)` with `i < j < count`, `i` ascending and then `j`,
/// applies `op` to matrices `i` and `j` and adds each result that the shapes
/// allow to a running total, which starts as a zero matrix shaped as the
/// first. Nothing when `count` is 0 or more than there are matrices, when one
/// of the first `count` is not rectangular, or when a result cannot be added
/// to the total.
pub fn pairwise_total(ms: &Vec<Matrix>, count: usize, op: MatrixOp) -> (r: Option<Matrix>)
    ensures
        (count == 0 || count > ms@.len()) ==> r is None,
        (1 <= count <= ms@.len() && !all_rectangular(matrix_views(ms@), count as int)) ==> r is None,
        (1 <= count <= ms@.len() && all_rectangular(matrix_views(ms@), count as int)) ==> match pairs_upto(
            matrix_views(ms@),
            op,
            count as int,
            count as int,
        ) {
            Some(x) => r matches Some(m) && m@ == x,
            None => r is None,
        },
{
    if count == 0 || count > ms.len() {
        return None;
    }
    let ghost all = matrix_views(ms@);
    let mut k: usize = 0;
    while k < count
        invariant
            count <= ms@.len(),
            all == matrix_views(ms@),
            0 <= k <= count,
            all_rectangular(all, k as int),
        decreases count - k,
    {
        if !ms[k].is_rectangular() {
            proof {
                assert(!is_rectangular(all[k as int]));
            }
            return None;
        }
        k = k + 1;
    }
    let first = &ms[0];
    let mut total: Option<Matrix> = Some(Matrix::new(first.data.len(), first.cols()));
    proof {
        lemma_results_rectangular(all[0], all[0], all[0].len(), cols_of(all[0]));
    }
    let mut i: usize = 0;
    while i < count
        invariant
            1 <= count <= ms@.len(),
            all == matrix_views(ms@),
            all_rectangular(all, count as int),
            0 <= i <= count,
            match pairs_upto(all, op, count as int, i as int) {
                Some(x) => total matches Some(m) && m@ == x && is_rectangular(x),
                None => total is None,
            },
        decreases count - i,
    {
        let ghost at_row = pairs_upto(all, op, count as int, i as int);
        let mut j: usize = i + 1;
        while j < count
            invariant
                1 <= count <= ms@.len(),
                all == matrix_views(ms@),
                all_rectangular(all, count as int),
                0 <= i < count,
                i + 1 <= j <= count,
                at_row == pairs_upto(all, op, count as int, i as int),
                match pairs_from(all, op, i as int, j as int, at_row) {
                    Some(x) => total matches Some(m) && m@ == x && is_rectangular(x),
                    None => total is None,
                },
            decreases count - j,
        {
            assert(is_rectangular(all[i as int]));
            assert(is_rectangular(all[j as int]));
            let res = ms[i].apply(&ms[j], op);
            let ghost before = pairs_from(all, op, i as int, j as int, at_row);
            total = match total {
                None => None,
                Some(t) => match res {
                    None => Some(t),
                    Some(x) => {
                        proof {
                            lemma_results_rectangular(all[i as int], all[j as int], 0, 0);
                        }
                        match t.add(&x) {
                            Ok(s) => {
                                proof {
                                    lemma_results_rectangular(t@, x@, 0, 0);
                                }
                                Some(s)
                            },
                            Err(_) => None,
                        }
                    },
                },
            };
            j = j + 1;
        }
        i = i + 1;
    }
    total
}

} // verus!
