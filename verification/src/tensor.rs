use vstd::prelude::*;
use crate::field::{Scalar, fr_sum, fr_prod, fr_val, fr_add, fr_mul, fr_from_u64, fr_is_zero};
use crate::stream::{Enumerator, StreamError};

verus! {

/// How many challenge bits one expansion window covers.
pub const TENSOR_EXPANSION_LOG: usize = 2;

/// How many non-identity factors one expansion window stores: one per
/// nonzero selector of `TENSOR_EXPANSION_LOG` bits.
pub const TENSOR_EXPANSION: usize = 3;

/// One element of a row-major sparse matrix stream: a value tagged with its
/// column, or the end-of-row sentinel. Every row, the last included, is
/// closed by exactly one sentinel; an empty row is a lone sentinel.
#[derive(Clone, Copy, Debug)]
pub enum MatrixElement {
    /// A (value, column) entry of the current row.
    Element((Scalar, usize)),
    /// The end-of-row sentinel.
    EOL,
}

/// A partial tensor: the ordered expansion windows, least-significant bit
/// group first, each holding the non-identity factors its selector can pick.
pub type PartialTensor = Vec<Vec<Scalar>>;

/// The selector that column `col` extracts from window `i`: the
/// `TENSOR_EXPANSION_LOG` bits of `col` at offset `i · TENSOR_EXPANSION_LOG`.
pub open spec fn window_selector(col: usize, i: int) -> usize {
    (col >> ((i * TENSOR_EXPANSION_LOG) as usize)) & TENSOR_EXPANSION
}

/// The windows are few enough that every selector shift stays inside the
/// width of a column index, whatever the machine's word size.
pub open spec fn tensor_wf(tensor: Seq<Seq<Scalar>>) -> bool {
    tensor.len() <= 16
}

/// Column `col` can be folded against the tensor: each window's selector
/// picks an existing factor (selector 0 picks none).
pub open spec fn col_fits(col: usize, tensor: Seq<Seq<Scalar>>) -> bool {
    forall|i: int| 0 <= i < tensor.len() ==> (#[trigger] window_selector(col, i)) as int
        <= tensor[i].len()
}

/// Every entry of the matrix stream can be folded against the tensor.
pub open spec fn matrix_fits(m: Seq<MatrixElement>, tensor: Seq<Seq<Scalar>>) -> bool {
    &&& tensor_wf(tensor)
    &&& forall|k: int| 0 <= k < m.len() ==> match #[trigger] m[k] {
        MatrixElement::Element((v, col)) => col_fits(col, tensor),
        MatrixElement::EOL => true,
    }
}

/// The value `v` of column `col` after the first `i` expansion windows have
/// been applied: each window whose selector is nonzero multiplies in its
/// selected factor; selector 0 stands for the implicit identity factor.
pub open spec fn scaled_upto(v: Scalar, col: usize, tensor: Seq<Seq<Scalar>>, i: int) -> Scalar
    decreases i,
{
    if i <= 0 {
        v
    } else {
        let prev = scaled_upto(v, col, tensor, i - 1);
        let sel = window_selector(col, i - 1);
        if sel != 0 {
            fr_prod(prev, tensor[i - 1][sel - 1])
        } else {
            prev
        }
    }
}

/// The value `v` of column `col` scaled by all the tensor factors its column
/// index selects: the entry's contribution to its row's inner product with
/// the implicit challenge vector.
pub open spec fn scaled(v: Scalar, col: usize, tensor: Seq<Seq<Scalar>>) -> Scalar {
    scaled_upto(v, col, tensor, tensor.len() as int)
}

/// The per-row fold results of the matrix stream, starting from a partial
/// accumulator `acc` for the current row: every entry with a nonzero value
/// adds its scaled value into the accumulator, every sentinel emits the
/// accumulator and resets it; a trailing partial row emits nothing.
pub open spec fn fold_outputs(
    elems: Seq<MatrixElement>,
    tensor: Seq<Seq<Scalar>>,
    acc: Scalar,
) -> Seq<Scalar>
    decreases elems.len(),
{
    if elems.len() == 0 {
        Seq::empty()
    } else {
        match elems[0] {
            MatrixElement::EOL => seq![acc] + fold_outputs(elems.skip(1), tensor, fr_val(0)),
            MatrixElement::Element((v, col)) => fold_outputs(
                elems.skip(1),
                tensor,
                if v == fr_val(0) {
                    acc
                } else {
                    fr_sum(acc, scaled(v, col, tensor))
                },
            ),
        }
    }
}

/// The whole output column of the tensor fold: one inner product per row.
pub open spec fn row_outputs(elems: Seq<MatrixElement>, tensor: Seq<Seq<Scalar>>) -> Seq<Scalar> {
    fold_outputs(elems, tensor, fr_val(0))
}

/// How many end-of-row sentinels the stream holds.
pub open spec fn count_eol(elems: Seq<MatrixElement>) -> nat
    decreases elems.len(),
{
    if elems.len() == 0 {
        0
    } else {
        (if elems[0] is EOL { 1nat } else { 0nat }) + count_eol(elems.skip(1))
    }
}

/// The tensor fold emits exactly one value per end-of-row sentinel.
pub proof fn lemma_fold_outputs_len(elems: Seq<MatrixElement>, tensor: Seq<Seq<Scalar>>, acc: Scalar)
    ensures
        fold_outputs(elems, tensor, acc).len() == count_eol(elems),
    decreases elems.len(),
{
    if elems.len() > 0 {
        match elems[0] {
            MatrixElement::EOL => {
                lemma_fold_outputs_len(elems.skip(1), tensor, fr_val(0));
            },
            MatrixElement::Element((v, col)) => {
                if v == fr_val(0) {
                    lemma_fold_outputs_len(elems.skip(1), tensor, acc);
                } else {
                    lemma_fold_outputs_len(elems.skip(1), tensor, fr_sum(acc, scaled(v, col, tensor)));
                }
            },
        }
    }
}

/// Scales `v` by every tensor factor that the column index selects.
fn apply_tensor(v: Scalar, col: usize, tensor: &PartialTensor) -> (r: Scalar)
    requires
        tensor_wf(tensor@.map_values(|w: Vec<Scalar>| w@)),
        col_fits(col, tensor@.map_values(|w: Vec<Scalar>| w@)),
    ensures
        r == scaled(v, col, tensor@.map_values(|w: Vec<Scalar>| w@)),
{
    let ghost t = tensor@.map_values(|w: Vec<Scalar>| w@);
    let mut value = v;
    let mut i: usize = 0;
    while i < tensor.len()
        invariant
            i <= tensor.len(),
            tensor@.len() == t.len(),
            forall|k: int| 0 <= k < t.len() ==> t[k] == tensor@[k]@,
            tensor_wf(t),
            col_fits(col, t),
            value == scaled_upto(v, col, t, i as int),
        decreases tensor.len() - i,
    {
        let sel = (col >> (i * TENSOR_EXPANSION_LOG)) & TENSOR_EXPANSION;
        proof {
            assert(sel == window_selector(col, i as int));
        }
        if sel != 0 {
            value = fr_mul(value, tensor[i][sel - 1]);
        }
        i = i + 1;
    }
    value
}

/// The tensor-folded matrix transform: borrows a row-major sparse matrix
/// stream and a partial tensor, and streams one field element per row — the
/// row's inner product with the implicit challenge vector the tensor encodes.
#[derive(Clone, Copy)]
pub struct MatrixTensor<'a> {
    pub matrix: &'a Vec<MatrixElement>,
    pub tensor: &'a PartialTensor,
    pub len: usize,
}

/// The view of a partial tensor as a sequence of factor windows.
pub open spec fn tensor_view(tensor: &PartialTensor) -> Seq<Seq<Scalar>> {
    tensor@.map_values(|w: Vec<Scalar>| w@)
}

impl<'a> MatrixTensor<'a> {
    pub fn new(matrix: &'a Vec<MatrixElement>, tensor: &'a PartialTensor, len: usize) -> (r: Self)
        ensures
            r.matrix@ == matrix@,
            r.tensor == tensor,
            r.len == len,
    {
        MatrixTensor { matrix, tensor, len }
    }

    /// A fresh pass over the per-row fold results: one output per end-of-row
    /// sentinel of the matrix stream.
    pub fn stream(&self) -> (r: MatrixTensorIter<'a>)
        requires
            matrix_fits(self.matrix@, tensor_view(self.tensor)),
        ensures
            r.wf(),
            r.future() == row_outputs(self.matrix@, tensor_view(self.tensor)),
            r.future().len() == count_eol(self.matrix@),
    {
        let r = MatrixTensorIter { it_pos: 0, matrix: self.matrix, tensor: self.tensor };
        proof {
            assert(r.matrix@.skip(0) =~= self.matrix@);
            lemma_fold_outputs_len(self.matrix@, tensor_view(self.tensor), fr_val(0));
        }
        r
    }

    /// The declared output length: the number of rows.
    pub fn len(&self) -> (r: usize)
        ensures
            r == self.len,
    {
        self.len
    }

    /// Surfaces a row-count mismatch before anything downstream consumes the
    /// fold: the declared length must equal the number of end-of-row
    /// sentinels, which is exactly the number of values a pass emits.
    pub fn validate(&self) -> (r: Result<(), StreamError>)
        ensures
            r is Ok <==> self.len == count_eol(self.matrix@),
            r is Err ==> r == Err::<(), StreamError>(StreamError::RowCountMismatch),
    {
        let mut rows: usize = 0;
        let mut k: usize = 0;
        proof {
            assert(self.matrix@.skip(0) =~= self.matrix@);
        }
        while k < self.matrix.len()
            invariant
                k <= self.matrix@.len(),
                rows <= k,
                rows + count_eol(self.matrix@.skip(k as int)) == count_eol(self.matrix@),
            decreases self.matrix@.len() - k,
        {
            let is_eol = match self.matrix[k] {
                MatrixElement::EOL => true,
                MatrixElement::Element(_) => false,
            };
            proof {
                assert(self.matrix@.skip(k as int)[0] == self.matrix@[k as int]);
                assert(self.matrix@.skip(k as int).skip(1) =~= self.matrix@.skip(k as int + 1));
            }
            if is_eol {
                rows = rows + 1;
            }
            k = k + 1;
        }
        proof {
            assert(self.matrix@.skip(k as int).len() == 0);
        }
        if rows == self.len {
            Ok(())
        } else {
            Err(StreamError::RowCountMismatch)
        }
    }
}

/// One enumeration pass of the tensor fold.
pub struct MatrixTensorIter<'a> {
    pub it_pos: usize,
    pub matrix: &'a Vec<MatrixElement>,
    pub tensor: &'a PartialTensor,
}

impl<'a> Enumerator<Scalar> for MatrixTensorIter<'a> {
    open spec fn wf(&self) -> bool {
        &&& self.it_pos <= self.matrix@.len()
        &&& matrix_fits(self.matrix@, tensor_view(self.tensor))
    }

    open spec fn future(&self) -> Seq<Scalar> {
        row_outputs(self.matrix@.skip(self.it_pos as int), tensor_view(self.tensor))
    }

    fn next_item(&mut self) -> (r: Option<Scalar>) {
        let ghost t = tensor_view(self.tensor);
        let mut result = fr_from_u64(0);
        loop
            invariant
                self.it_pos <= self.matrix@.len(),
                matrix_fits(self.matrix@, t),
                t == tensor_view(self.tensor),
                self.matrix == old(self).matrix,
                self.tensor == old(self).tensor,
                fold_outputs(self.matrix@.skip(self.it_pos as int), t, result) == old(
                    self,
                ).future(),
            decreases self.matrix@.len() - self.it_pos,
        {
            if self.it_pos == self.matrix.len() {
                proof {
                    assert(old(self).future().len() == 0);
                }
                return None;
            }
            let ghost pos = self.it_pos as int;
            let e = self.matrix[self.it_pos];
            self.it_pos = self.it_pos + 1;
            proof {
                assert(self.matrix@.skip(pos)[0] == self.matrix@[pos]);
                assert(self.matrix@.skip(pos).skip(1) =~= self.matrix@.skip(pos + 1));
            }
            match e {
                MatrixElement::EOL => {
                    proof {
                        assert(old(self).future()[0] == result);
                        assert(self.future() =~= old(self).future().skip(1));
                    }
                    return Some(result);
                },
                MatrixElement::Element((v, col)) => {
                    if !fr_is_zero(&v) {
                        let s = apply_tensor(v, col, self.tensor);
                        result = fr_add(result, s);
                    }
                },
            }
        }
    }
}


/// `2^n`.
pub open spec fn two_pow(n: nat) -> nat
    decreases n,
{
    if n == 0 {
        1
    } else {
        2 * two_pow((n - 1) as nat)
    }
}

proof fn lemma_two_pow_mono(a: nat, b: nat)
    requires
        a <= b,
    ensures
        two_pow(a) <= two_pow(b),
    decreases b,
{
    if a < b {
        lemma_two_pow_mono(a, (b - 1) as nat);
    }
}

/// The dense multilinear expansion of the challenges at index `x`: the
/// product, over the set bits of `x`, of the corresponding challenges (the
/// empty product being the field's one, and products accumulated from the
/// low bit up).
pub open spec fn tensor_at(ch: Seq<Scalar>, x: int) -> Scalar
    decreases ch.len(),
{
    if ch.len() == 0 {
        fr_val(1)
    } else {
        let half = two_pow((ch.len() - 1) as nat) as int;
        if x >= half {
            fr_prod(tensor_at(ch.take(ch.len() - 1), x - half), ch[ch.len() - 1])
        } else {
            tensor_at(ch.take(ch.len() - 1), x)
        }
    }
}

/// The dense (time-strategy) tensor expansion: materializes all `2^k`
/// multilinear coefficients of the challenge vector, by repeated doubling.
pub fn tensor(ch: &Vec<Scalar>) -> (r: Vec<Scalar>)
    requires
        two_pow(ch@.len()) <= usize::MAX,
    ensures
        r@.len() == two_pow(ch@.len()),
        forall|x: int| 0 <= x < r@.len() ==> r@[x] == tensor_at(ch@, x),
{
    let mut table: Vec<Scalar> = Vec::new();
    table.push(fr_from_u64(1));
    let mut j: usize = 0;
    proof {
        assert(ch@.take(0) =~= Seq::<Scalar>::empty());
    }
    while j < ch.len()
        invariant
            j <= ch@.len(),
            two_pow(ch@.len()) <= usize::MAX,
            table@.len() == two_pow(j as nat),
            forall|x: int| 0 <= x < table@.len() ==> table@[x] == tensor_at(ch@.take(j as int), x),
        decreases ch@.len() - j,
    {
        let m = table.len();
        proof {
            lemma_two_pow_mono(j as nat + 1, ch@.len());
        }
        let mut x: usize = 0;
        while x < m
            invariant
                x <= m,
                j < ch@.len(),
                m == two_pow(j as nat),
                2 * m <= usize::MAX,
                table@.len() == m + x,
                forall|q: int| 0 <= q < m ==> table@[q] == tensor_at(ch@.take(j as int), q),
                forall|q: int| 0 <= q < x ==> table@[m + q] == fr_prod(
                    tensor_at(ch@.take(j as int), q),
                    ch@[j as int],
                ),
            decreases m - x,
        {
            let f = fr_mul(table[x], ch[j]);
            table.push(f);
            x = x + 1;
        }
        j = j + 1;
        proof {
            let prev = ch@.take(j as int - 1);
            let cur = ch@.take(j as int);
            assert(cur.take(j as int - 1) =~= prev);
            assert(cur[j - 1] == ch@[j - 1]);
            assert forall|q: int| 0 <= q < table@.len() implies table@[q] == tensor_at(cur, q) by {
                if q < m {
                    assert(tensor_at(cur, q) == tensor_at(prev, q));
                } else {
                    assert(tensor_at(cur, q) == fr_prod(tensor_at(prev, q - m), cur[j - 1]));
                }
            }
        }
    }
    proof {
        assert(ch@.take(ch@.len() as int) =~= ch@);
    }
    table
}

/// The factor window that challenges `2w` and `2w + 1` expand to: the three
/// products a nonzero two-bit selector can pick, or a single factor for an
/// unpaired tail challenge.
pub open spec fn expanded_window(ch: Seq<Scalar>, w: int) -> Seq<Scalar> {
    if 2 * w + 1 < ch.len() {
        seq![ch[2 * w], ch[2 * w + 1], fr_prod(ch[2 * w], ch[2 * w + 1])]
    } else {
        seq![ch[2 * w]]
    }
}

/// The partial tensor expanded from a challenge vector: one window per pair
/// of challenges, least-significant pair first.
pub open spec fn expanded_tensor(ch: Seq<Scalar>) -> Seq<Seq<Scalar>> {
    Seq::new(((ch.len() + 1) / 2) as nat, |w: int| expanded_window(ch, w))
}

/// A two-bit selector can never exceed the three factors of a full window.
proof fn lemma_full_windows_fit(col: usize, t: Seq<Seq<Scalar>>)
    requires
        forall|i: int| 0 <= i < t.len() ==> t[i].len() == 3,
    ensures
        col_fits(col, t),
{
    assert forall|i: int| 0 <= i < t.len() implies (#[trigger] window_selector(col, i)) as int
        <= t[i].len() by {
        let sh = (i * TENSOR_EXPANSION_LOG) as usize;
        assert((col >> sh) & 3usize <= 3usize) by (bit_vector);
        assert(window_selector(col, i) == (col >> sh) & 3);
    }
}

/// Precomputes the expansion windows of a challenge vector: selecting window
/// `w`'s factor by the two bits of any index at offset `2w`, and multiplying
/// the selections of all windows (selector 0 selecting nothing), yields the
/// dense multilinear expansion of the challenges at that index. A vector of
/// up to 32 challenges, evenly paired, gives windows that accept any column.
pub fn expand_tensor(ch: &Vec<Scalar>) -> (r: PartialTensor)
    ensures
        tensor_view(&r) == expanded_tensor(ch@),
        ch@.len() <= 32 ==> tensor_wf(expanded_tensor(ch@)),
        ch@.len() % 2 == 0 ==> forall|col: usize| col_fits(col, expanded_tensor(ch@)),
{
    proof {
        let t = expanded_tensor(ch@);
        if ch@.len() % 2 == 0 {
            assert forall|i: int| 0 <= i < t.len() implies t[i].len() == 3 by {
                assert(2 * i + 1 < ch@.len());
            }
            assert forall|col: usize| col_fits(col, t) by {
                lemma_full_windows_fit(col, t);
            }
        }
    }
    let mut r: PartialTensor = Vec::new();
    let mut i: usize = 0;
    while i < ch.len()
        invariant
            i <= ch@.len(),
            i % 2 == 0 || i == ch@.len(),
            r@.len() == (i + 1) / 2,
            forall|q: int| 0 <= q < r@.len() ==> (#[trigger] r@[q])@ == expanded_window(ch@, q),
        decreases ch@.len() - i,
    {
        let mut window: Vec<Scalar> = Vec::new();
        window.push(ch[i]);
        if i + 1 < ch.len() {
            window.push(ch[i + 1]);
            window.push(fr_mul(ch[i], ch[i + 1]));
            proof {
                assert(window@ =~= expanded_window(ch@, r@.len() as int));
            }
            r.push(window);
            i = i + 2;
        } else {
            proof {
                assert(window@ =~= expanded_window(ch@, r@.len() as int));
            }
            r.push(window);
            i = i + 1;
        }
    }
    proof {
        assert(tensor_view(&r) =~= expanded_tensor(ch@));
    }
    r
}

/// The row-major stream of the diagonal matrix with `v` on the diagonal:
/// one single-entry row per position, rows enumerated from the highest
/// column index down, each closed by its sentinel.
pub open spec fn diagonal_seq(v: Scalar, n: nat) -> Seq<MatrixElement> {
    Seq::new(
        2 * n,
        |k: int|
            if k % 2 == 0 {
                MatrixElement::Element((v, ((n - 1) as int - k / 2) as usize))
            } else {
                MatrixElement::EOL
            },
    )
}


/// The structural half of the identity-matrix law: folding the diagonal
/// matrix yields exactly one output per row, rows in descending column
/// order, each output the row's single entry scaled by the factors its
/// column selects (added onto the fresh row accumulator); a zero entry is
/// skipped and its row folds to the accumulator itself.
pub proof fn lemma_diagonal_fold(v: Scalar, n: nat, t: Seq<Seq<Scalar>>)
    ensures
        row_outputs(diagonal_seq(v, n), t) == Seq::new(
            n,
            |i: int|
                if v == fr_val(0) {
                    fr_val(0)
                } else {
                    fr_sum(fr_val(0), scaled(v, ((n - 1) as int - i) as usize, t))
                },
        ),
    decreases n,
{
    let d = diagonal_seq(v, n);
    let goal = Seq::new(
        n,
        |i: int|
            if v == fr_val(0) {
                fr_val(0)
            } else {
                fr_sum(fr_val(0), scaled(v, ((n - 1) as int - i) as usize, t))
            },
    );
    if n == 0 {
        assert(d.len() == 0);
        assert(row_outputs(d, t) =~= goal);
    } else {
        assert(d[0] == MatrixElement::Element((v, ((n - 1) as int) as usize)));
        assert(d.skip(1)[0] == d[1]);
        assert(d[1] is EOL);
        assert(d.skip(1).skip(1) =~= d.skip(2));
        assert(d.skip(2) =~= diagonal_seq(v, (n - 1) as nat));
        lemma_diagonal_fold(v, (n - 1) as nat, t);
        let acc1 = if v == fr_val(0) {
            fr_val(0)
        } else {
            fr_sum(fr_val(0), scaled(v, ((n - 1) as int) as usize, t))
        };
        assert(row_outputs(d, t) == fold_outputs(d.skip(1), t, acc1));
        assert(fold_outputs(d.skip(1), t, acc1) == seq![acc1] + row_outputs(
            diagonal_seq(v, (n - 1) as nat),
            t,
        ));
        assert(row_outputs(d, t) =~= goal);
    }
}


/// Builds the diagonal matrix stream.
pub fn diagonal_matrix(v: Scalar, n: usize) -> (r: Vec<MatrixElement>)
    requires
        2 * n <= usize::MAX,
    ensures
        r@ == diagonal_seq(v, n as nat),
{
    let mut r: Vec<MatrixElement> = Vec::new();
    let mut i: usize = 0;
    while i < n
        invariant
            i <= n,
            2 * n <= usize::MAX,
            r@.len() == 2 * i,
            forall|k: int| 0 <= k < r@.len() ==> r@[k] == diagonal_seq(v, n as nat)[k],
        decreases n - i,
    {
        r.push(MatrixElement::Element((v, n - 1 - i)));
        r.push(MatrixElement::EOL);
        i = i + 1;
    }
    proof {
        assert(r@ =~= diagonal_seq(v, n as nat));
    }
    r
}

} // verus!

