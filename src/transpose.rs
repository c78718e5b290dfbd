//! Transposition ciphers: the member stream is laid out in a padded matrix and
//! read back after a transpose or a quarter turn (scytale and route ciphers), or
//! column by column in keyword order (columnar).
use crate::common::{
    all_members, alphabet_error, build_alphabet, chars_of, index_of, keeps_member_slots,
    keeps_non_members,
    lemma_index_of, lemma_members_are_members, lemma_refill_keeps_non_members,
    lemma_refill_round_trip, members, positions_of, refill_chars, refilled, string_of,
    valid_alphabet, widen, encoded, Cipher, CipherError, build_key, valid_key, key_error,
    lemma_members_of_members, lemma_members_of_refilled, lemma_refill_twice_long,
    lemma_refill_members_then, lemma_index_of_at,
};
use vstd::arithmetic::div_mod::{
    lemma_fundamental_div_mod, lemma_fundamental_div_mod_converse, lemma_small_mod,
};
use ndarray::{Array1, Axis};
use rand::Rng;
use vstd::prelude::*;
use vstd::relations::injective_on;
use vstd::set_lib::{lemma_int_range, lemma_map_size, lemma_subset_equality, set_int_range};

verus! {

/// How a transposition cipher permutes its matrix.
#[derive(Debug, Clone, Copy, PartialEq, Eq, Structural)]
pub enum MatrixOp {
    /// `out[c][r] = in[r][c]`.
    Transpose,
    /// A quarter turn clockwise: transpose, then reverse each row.
    RotateRight,
    /// A quarter turn counter-clockwise: transpose, then reverse the order of the rows.
    RotateLeft,
}

/// The operation that undoes `op`.
pub open spec fn inverse_op(op: MatrixOp) -> MatrixOp {
    match op {
        MatrixOp::Transpose => MatrixOp::Transpose,
        MatrixOp::RotateRight => MatrixOp::RotateLeft,
        MatrixOp::RotateLeft => MatrixOp::RotateRight,
    }
}

/// For position `k` of the row-major `cols x rows` result of `op` on a
/// row-major `rows x cols` matrix, the position it is read from.
pub open spec fn op_source(op: MatrixOp, rows: int, cols: int, k: int) -> int {
    let i = k / rows;
    let j = k % rows;
    match op {
        MatrixOp::Transpose => j * cols + i,
        MatrixOp::RotateRight => (rows - 1 - j) * cols + i,
        MatrixOp::RotateLeft => j * cols + (cols - 1 - i),
    }
}

/// `op` applied to the row-major `rows x cols` matrix `v`, flattened row-major.
pub open spec fn permuted<A>(op: MatrixOp, v: Seq<A>, rows: int, cols: int) -> Seq<A> {
    Seq::new(v.len(), |k: int| v[op_source(op, rows, cols, k)])
}

/// The values of `s` below `n`, in order (the others are padding).
pub open spec fn kept(s: Seq<usize>, n: int) -> Seq<usize>
    decreases s.len(),
{
    if s.len() == 0 {
        Seq::empty()
    } else if s[0] < n {
        seq![s[0]] + kept(s.drop_first(), n)
    } else {
        kept(s.drop_first(), n)
    }
}

/// How many values of `s` are below `n`.
pub open spec fn open_count(s: Seq<usize>, n: int) -> nat
    decreases s.len(),
{
    if s.len() == 0 {
        0
    } else if s[0] < n {
        1 + open_count(s.drop_first(), n)
    } else {
        open_count(s.drop_first(), n)
    }
}

/// Walks `template`: a padding value is kept, each other slot takes the next
/// value of `c` (the template's own value once `c` is used up).
pub open spec fn fill(c: Seq<usize>, template: Seq<usize>, n: int) -> Seq<usize>
    decreases template.len(),
{
    if template.len() == 0 {
        Seq::empty()
    } else if template[0] >= n || c.len() == 0 {
        seq![template[0]] + fill(c, template.drop_first(), n)
    } else {
        seq![c[0]] + fill(c.drop_first(), template.drop_first(), n)
    }
}

/// Positions of `s` that hold a value below `n`.
pub open spec fn open_set(s: Seq<usize>, n: int) -> Set<int> {
    Set::new(|k: int| 0 <= k < s.len() && s[k] < n)
}

/// Division facts for a position of a `rows x cols` matrix.
pub proof fn lemma_cell(k: int, rows: int, cols: int)
    requires
        rows > 0,
        0 <= k < rows * cols,
    ensures
        k == (k / rows) * rows + k % rows,
        0 <= k % rows < rows,
        0 <= k / rows < cols,
{
    lemma_fundamental_div_mod(k, rows);
    let i = k / rows;
    let j = k % rows;
    assert(k == i * rows + j) by (nonlinear_arith)
        requires
            k == rows * i + j,
    ;
    assert(i < cols) by (nonlinear_arith)
        requires
            k == rows * i + j,
            0 <= j < rows,
            k < rows * cols,
            rows > 0,
    ;
    assert(0 <= i) by (nonlinear_arith)
        requires
            k == rows * i + j,
            j < rows,
            k >= 0,
            rows > 0,
    ;
}

/// A position written as `a * cols + b` with `b < cols` lies in a `rows x cols`
/// matrix when `a < rows`.
pub proof fn lemma_in_matrix(a: int, b: int, rows: int, cols: int)
    requires
        0 <= a < rows,
        0 <= b < cols,
    ensures
        0 <= a * cols + b < rows * cols,
{
    assert(0 <= a * cols + b < rows * cols) by (nonlinear_arith)
        requires
            0 <= a < rows,
            0 <= b < cols,
    ;
}

/// Every source position lies in the matrix, and the inverse operation on the
/// transposed shape leads back.
pub proof fn lemma_op_source(op: MatrixOp, rows: int, cols: int, k: int)
    requires
        rows > 0,
        cols > 0,
        0 <= k < rows * cols,
    ensures
        0 <= op_source(op, rows, cols, k) < rows * cols,
        0 <= op_source(inverse_op(op), cols, rows, k) < rows * cols,
        op_source(op, rows, cols, op_source(inverse_op(op), cols, rows, k)) == k,
{
    lemma_cell(k, rows, cols);
    let i = k / rows;
    let j = k % rows;
    lemma_in_matrix(j, i, rows, cols);
    lemma_in_matrix(rows - 1 - j, i, rows, cols);
    lemma_in_matrix(j, cols - 1 - i, rows, cols);
    assert(rows * cols == cols * rows) by (nonlinear_arith);
    lemma_cell(k, cols, rows);
    let i2 = k / cols;
    let j2 = k % cols;
    let back = op_source(inverse_op(op), cols, rows, k);
    match op {
        MatrixOp::Transpose => {
            lemma_in_matrix(j2, i2, cols, rows);
            lemma_fundamental_div_mod_converse(back, rows, j2, i2);
        },
        MatrixOp::RotateRight => {
            lemma_in_matrix(j2, rows - 1 - i2, cols, rows);
            lemma_fundamental_div_mod_converse(back, rows, j2, rows - 1 - i2);
        },
        MatrixOp::RotateLeft => {
            lemma_in_matrix(cols - 1 - j2, i2, cols, rows);
            lemma_fundamental_div_mod_converse(back, rows, cols - 1 - j2, i2);
        },
    }
}

/// Applying the inverse operation to the transposed shape restores the matrix.
pub proof fn lemma_permuted_inverse<A>(op: MatrixOp, v: Seq<A>, rows: int, cols: int)
    requires
        rows > 0,
        cols > 0,
        v.len() == rows * cols,
    ensures
        permuted(inverse_op(op), permuted(op, v, rows, cols), cols, rows) == v,
{
    assert forall|k: int| 0 <= k < v.len() implies #[trigger] permuted(
        inverse_op(op),
        permuted(op, v, rows, cols),
        cols,
        rows,
    )[k] == v[k] by {
        lemma_op_source(op, rows, cols, k);
    }
    assert(permuted(inverse_op(op), permuted(op, v, rows, cols), cols, rows) =~= v);
}

/// The number of kept values is the number of open positions.
pub proof fn lemma_kept_len(s: Seq<usize>, n: int)
    ensures
        kept(s, n).len() == open_count(s, n),
    decreases s.len(),
{
    if s.len() > 0 {
        lemma_kept_len(s.drop_first(), n);
    }
}

/// Counting open positions from the back.
pub proof fn lemma_open_count_push(s: Seq<usize>, x: usize, n: int)
    ensures
        open_count(s.push(x), n) == open_count(s, n) + if x < n {
            1nat
        } else {
            0nat
        },
    decreases s.len(),
{
    if s.len() > 0 {
        lemma_open_count_push(s.drop_first(), x, n);
        assert(s.push(x).drop_first() =~= s.drop_first().push(x));
        assert(s.push(x)[0] == s[0]);
    } else {
        assert(s.push(x).drop_first() =~= Seq::<usize>::empty());
        assert(s.push(x)[0] == x);
        assert(open_count(Seq::<usize>::empty(), n) == 0);
    }
}

/// The open positions form a finite set of the counted size.
pub proof fn lemma_open_set(s: Seq<usize>, n: int)
    ensures
        open_set(s, n).finite(),
        open_set(s, n).len() == open_count(s, n),
    decreases s.len(),
{
    if s.len() == 0 {
        assert(open_set(s, n) =~= Set::<int>::empty());
    } else {
        let p = s.drop_last();
        let x = s.last();
        lemma_open_set(p, n);
        lemma_open_count_push(p, x, n);
        assert(p.push(x) =~= s);
        if x < n {
            assert(open_set(s, n) =~= open_set(p, n).insert(p.len() as int));
        } else {
            assert(open_set(s, n) =~= open_set(p, n));
        }
    }
}

/// A permutation keeps the number of open positions.
pub proof fn lemma_permuted_count(op: MatrixOp, s: Seq<usize>, rows: int, cols: int, n: int)
    requires
        rows > 0,
        cols > 0,
        s.len() == rows * cols,
    ensures
        open_count(permuted(op, s, rows, cols), n) == open_count(s, n),
{
    let y = permuted(op, s, rows, cols);
    let f = |k: int| op_source(op, rows, cols, k);
    lemma_open_set(y, n);
    lemma_open_set(s, n);
    assert(injective_on(f, open_set(y, n))) by {
        assert forall|k1: int, k2: int|
            open_set(y, n).contains(k1) && open_set(y, n).contains(k2) && #[trigger] f(k1)
                == #[trigger] f(k2) implies k1 == k2 by {
            assert(rows * cols == cols * rows) by (nonlinear_arith);
            lemma_op_source(inverse_op(op), cols, rows, k1);
            lemma_op_source(inverse_op(op), cols, rows, k2);
            assert(inverse_op(inverse_op(op)) == op);
        }
    }
    assert(open_set(y, n).map(f) =~= open_set(s, n)) by {
        assert forall|p: int| open_set(s, n).contains(p) implies #[trigger] open_set(y, n).map(
            f,
        ).contains(p) by {
            lemma_op_source(op, rows, cols, p);
            let k = op_source(inverse_op(op), cols, rows, p);
            assert(open_set(y, n).contains(k));
            assert(f(k) == p);
        }
        assert forall|p: int| #[trigger] open_set(y, n).map(f).contains(p) implies open_set(
            s,
            n,
        ).contains(p) by {
            let k = choose|k: int| open_set(y, n).contains(k) && f(k) == p;
            lemma_op_source(op, rows, cols, k);
        }
    }
    lemma_map_size(open_set(y, n), open_set(s, n), f);
}

/// `s` and `t` have their padding at the same positions, with the same values.
pub open spec fn same_padding(s: Seq<usize>, t: Seq<usize>, n: int) -> bool {
    &&& s.len() == t.len()
    &&& forall|k: int| 0 <= k < s.len() ==> (#[trigger] s[k] >= n) == (t[k] >= n)
    &&& forall|k: int| 0 <= k < s.len() && s[k] >= n ==> #[trigger] s[k] == t[k]
}

/// `total` slots, the first `m` open (value 0), the rest padding (value `pad`).
pub open spec fn tail_layout(total: int, m: int, pad: usize) -> Seq<usize> {
    Seq::new(total as nat, |k: int| if k < m { 0usize } else { pad })
}

/// Where the padding of a `rows x cols` matrix holding `m` values goes: after
/// the last value, or one at the end of each of the last rows.
pub open spec fn layout(pad_cols: bool, rows: int, cols: int, m: int, pad: usize) -> Seq<usize> {
    if pad_cols {
        permuted(MatrixOp::Transpose, tail_layout(cols * rows, m, pad), cols, rows)
    } else {
        tail_layout(rows * cols, m, pad)
    }
}

/// The number of columns needed for `m` values in `rows` rows.
pub open spec fn ceil_div(m: int, rows: int) -> int {
    (m + rows - 1) / rows
}

/// Encryption of a stream of positions below `n`: laid out with padding `n`,
/// permuted, and read back without the padding.
pub open spec fn transposed_stream(op: MatrixOp, pad_cols: bool, rows: int, n: usize, x: Seq<usize>) -> Seq<
    usize,
> {
    let cols = ceil_div(x.len() as int, rows);
    kept(
        permuted(op, fill(x, layout(pad_cols, rows, cols, x.len() as int, n), n as int), rows, cols),
        n as int,
    )
}

/// Decryption of a stream of positions below `n`: the padding is put where
/// encryption left it, and the inverse permutation is applied.
pub open spec fn untransposed_stream(
    op: MatrixOp,
    pad_cols: bool,
    rows: int,
    n: usize,
    c: Seq<usize>,
) -> Seq<usize> {
    let cols = ceil_div(c.len() as int, rows);
    let padding = permuted(op, layout(pad_cols, rows, cols, c.len() as int, n), rows, cols);
    kept(permuted(inverse_op(op), fill(c, padding, n as int), cols, rows), n as int)
}

/// Filling keeps the template's length, and its padding.
pub proof fn lemma_fill_shape(c: Seq<usize>, t: Seq<usize>, n: int)
    requires
        forall|k: int| 0 <= k < c.len() ==> #[trigger] c[k] < n,
    ensures
        same_padding(fill(c, t, n), t, n),
    decreases t.len(),
{
    if t.len() > 0 {
        let f = fill(c, t, n);
        if t[0] >= n || c.len() == 0 {
            lemma_fill_shape(c, t.drop_first(), n);
            let r = fill(c, t.drop_first(), n);
            assert forall|k: int| 0 < k < f.len() implies f[k] == r[k - 1] && t[k]
                == t.drop_first()[k - 1] by {}
        } else {
            assert forall|k: int| 0 <= k < c.drop_first().len() implies #[trigger] c.drop_first()[k]
                < n by {
                assert(c.drop_first()[k] == c[k + 1]);
            }
            lemma_fill_shape(c.drop_first(), t.drop_first(), n);
            let r = fill(c.drop_first(), t.drop_first(), n);
            assert forall|k: int| 0 < k < f.len() implies f[k] == r[k - 1] && t[k]
                == t.drop_first()[k - 1] by {}
        }
    }
}

/// Templates with the same padding are filled alike, while the values last.
pub proof fn lemma_fill_same_padding(c: Seq<usize>, t1: Seq<usize>, t2: Seq<usize>, n: int)
    requires
        same_padding(t1, t2, n),
        c.len() >= open_count(t1, n),
    ensures
        fill(c, t1, n) == fill(c, t2, n),
    decreases t1.len(),
{
    if t1.len() > 0 {
        assert(same_padding(t1.drop_first(), t2.drop_first(), n)) by {
            assert forall|k: int| 0 <= k < t1.drop_first().len() implies t1.drop_first()[k]
                == t1[k + 1] && t2.drop_first()[k] == t2[k + 1] by {}
        }
        assert(t1[0] >= n <==> t2[0] >= n);
        if t1[0] >= n {
            lemma_fill_same_padding(c, t1.drop_first(), t2.drop_first(), n);
        } else {
            lemma_fill_same_padding(c.drop_first(), t1.drop_first(), t2.drop_first(), n);
        }
    }
}

/// Templates with the same padding have the same number of open positions.
pub proof fn lemma_same_padding_count(s: Seq<usize>, t: Seq<usize>, n: int)
    requires
        same_padding(s, t, n),
    ensures
        open_count(s, n) == open_count(t, n),
    decreases s.len(),
{
    if s.len() > 0 {
        assert(same_padding(s.drop_first(), t.drop_first(), n)) by {
            assert forall|k: int| 0 <= k < s.drop_first().len() implies s.drop_first()[k] == s[k
                + 1] && t.drop_first()[k] == t[k + 1] by {}
        }
        assert(s[0] >= n <==> t[0] >= n);
        lemma_same_padding_count(s.drop_first(), t.drop_first(), n);
    }
}

/// A permutation moves padding along with the values.
pub proof fn lemma_permuted_same_padding(op: MatrixOp, s: Seq<usize>, t: Seq<usize>, rows: int, cols: int, n: int)
    requires
        rows > 0,
        cols > 0,
        s.len() == rows * cols,
        same_padding(s, t, n),
    ensures
        same_padding(permuted(op, s, rows, cols), permuted(op, t, rows, cols), n),
{
    assert forall|k: int| 0 <= k < s.len() implies 0 <= #[trigger] op_source(op, rows, cols, k)
        < s.len() by {
        lemma_op_source(op, rows, cols, k);
    }
}

/// Filling exactly the open positions and dropping the padding gives the values back.
pub proof fn lemma_kept_fill(c: Seq<usize>, t: Seq<usize>, n: int)
    requires
        c.len() == open_count(t, n),
        forall|k: int| 0 <= k < c.len() ==> #[trigger] c[k] < n,
    ensures
        kept(fill(c, t, n), n) == c,
    decreases t.len(),
{
    if t.len() > 0 {
        if t[0] >= n {
            lemma_kept_fill(c, t.drop_first(), n);
            let r = fill(c, t.drop_first(), n);
            assert((seq![t[0]] + r).drop_first() =~= r);
        } else {
            assert forall|k: int| 0 <= k < c.drop_first().len() implies #[trigger] c.drop_first()[k]
                < n by {
                assert(c.drop_first()[k] == c[k + 1]);
            }
            lemma_kept_fill(c.drop_first(), t.drop_first(), n);
            let r = fill(c.drop_first(), t.drop_first(), n);
            assert((seq![c[0]] + r).drop_first() =~= r);
            assert(seq![c[0]] + c.drop_first() =~= c);
        }
    } else {
        assert(c =~= Seq::<usize>::empty());
    }
}

/// Refilling a sequence's own values around its own padding rebuilds it.
pub proof fn lemma_fill_kept(s: Seq<usize>, n: int)
    ensures
        fill(kept(s, n), s, n) == s,
    decreases s.len(),
{
    if s.len() > 0 {
        lemma_fill_kept(s.drop_first(), n);
        if s[0] < n {
            let r = kept(s.drop_first(), n);
            assert((seq![s[0]] + r).drop_first() =~= r);
        }
        assert(seq![s[0]] + s.drop_first() =~= s);
    }
}

/// Kept values are below the bound.
pub proof fn lemma_kept_below(s: Seq<usize>, n: int)
    ensures
        forall|k: int| 0 <= k < kept(s, n).len() ==> #[trigger] kept(s, n)[k] < n,
    decreases s.len(),
{
    if s.len() > 0 {
        lemma_kept_below(s.drop_first(), n);
        let r = kept(s.drop_first(), n);
        if s[0] < n {
            assert forall|k: int| 0 < k < kept(s, n).len() implies kept(s, n)[k] == r[k - 1] by {}
        }
    }
}

/// The tail layout has exactly `m` open positions.
pub proof fn lemma_tail_count(total: int, m: int, pad: usize)
    requires
        0 <= m <= total,
        pad > 0,
    ensures
        open_count(tail_layout(total, m, pad), pad as int) == m,
    decreases total,
{
    if total > 0 {
        if m == total {
            lemma_tail_count(total - 1, m - 1, pad);
            assert(tail_layout(total - 1, m - 1, pad).push(0usize) =~= tail_layout(total, m, pad));
            lemma_open_count_push(tail_layout(total - 1, m - 1, pad), 0usize, pad as int);
        } else {
            lemma_tail_count(total - 1, m, pad);
            assert(tail_layout(total - 1, m, pad).push(pad) =~= tail_layout(total, m, pad));
            lemma_open_count_push(tail_layout(total - 1, m, pad), pad, pad as int);
        }
    } else {
        assert(tail_layout(total, m, pad) =~= Seq::<usize>::empty());
    }
}

/// `rows * ceil_div(m, rows)` slots hold `m` values, with fewer than `rows` to spare.
pub proof fn lemma_ceil_div(m: int, rows: int)
    requires
        m >= 0,
        rows > 0,
    ensures
        ceil_div(m, rows) >= 0,
        rows * ceil_div(m, rows) >= m,
        rows * ceil_div(m, rows) < m + rows,
        m > 0 ==> ceil_div(m, rows) > 0,
        m == 0 ==> ceil_div(m, rows) == 0,
{
    lemma_fundamental_div_mod(m + rows - 1, rows);
    let q = (m + rows - 1) / rows;
    let r = (m + rows - 1) % rows;
    assert(rows * q >= m && rows * q < m + rows) by (nonlinear_arith)
        requires
            m + rows - 1 == rows * q + r,
            0 <= r < rows,
    ;
    assert(q >= 0) by (nonlinear_arith)
        requires
            rows * q >= m,
            m >= 0,
            rows > 0,
            rows * q < m + rows,
    ;
    if m == 0 {
        lemma_small_mod((rows - 1) as nat, rows as nat);
        lemma_fundamental_div_mod_converse(rows - 1, rows, 0, rows - 1);
    }
    if m > 0 {
        assert(q > 0) by (nonlinear_arith)
            requires
                rows * q >= m,
                m > 0,
                rows > 0,
        ;
    }
}

/// A layout has the size of the matrix and exactly `m` open positions.
pub proof fn lemma_layout(pad_cols: bool, rows: int, cols: int, m: int, pad: usize)
    requires
        rows > 0,
        cols > 0,
        0 <= m <= rows * cols,
        pad > 0,
    ensures
        layout(pad_cols, rows, cols, m, pad).len() == rows * cols,
        open_count(layout(pad_cols, rows, cols, m, pad), pad as int) == m,
        forall|k: int|
            0 <= k < rows * cols ==> #[trigger] layout(pad_cols, rows, cols, m, pad)[k] == 0
                || layout(pad_cols, rows, cols, m, pad)[k] == pad,
{
    assert(rows * cols == cols * rows) by (nonlinear_arith);
    lemma_tail_count(rows * cols, m, pad);
    if pad_cols {
        lemma_permuted_count(MatrixOp::Transpose, tail_layout(cols * rows, m, pad), cols, rows, pad as int);
        assert forall|k: int| 0 <= k < rows * cols implies #[trigger] layout(
            pad_cols,
            rows,
            cols,
            m,
            pad,
        )[k] == 0 || layout(pad_cols, rows, cols, m, pad)[k] == pad by {
            lemma_op_source(MatrixOp::Transpose, cols, rows, k);
        }
    }
}

/// Decryption undoes encryption on streams of positions, and encryption keeps
/// the number of positions.
pub proof fn lemma_stream_round_trip(op: MatrixOp, pad_cols: bool, rows: int, n: usize, x: Seq<usize>)
    requires
        rows > 0,
        n > 0,
        forall|k: int| 0 <= k < x.len() ==> #[trigger] x[k] < n,
    ensures
        transposed_stream(op, pad_cols, rows, n, x).len() == x.len(),
        forall|k: int|
            0 <= k < x.len() ==> #[trigger] transposed_stream(op, pad_cols, rows, n, x)[k] < n,
        untransposed_stream(op, pad_cols, rows, n, transposed_stream(op, pad_cols, rows, n, x))
            == x,
{
    let m = x.len() as int;
    let ni = n as int;
    let cols = ceil_div(m, rows);
    lemma_ceil_div(m, rows);
    let t = layout(pad_cols, rows, cols, m, n);
    let c = transposed_stream(op, pad_cols, rows, n, x);
    lemma_kept_below(permuted(op, fill(x, t, ni), rows, cols), ni);
    if m == 0 {
        assert(rows * cols == 0) by (nonlinear_arith)
            requires
                cols == 0,
        ;
        assert(t.len() == 0) by {
            if pad_cols {
                assert(cols * rows == 0);
            }
        }
        assert(fill(x, t, ni) =~= Seq::<usize>::empty());
        assert(c =~= Seq::<usize>::empty());
        assert(x =~= Seq::<usize>::empty());
        let padding = permuted(op, layout(pad_cols, rows, cols, 0, n), rows, cols);
        assert(fill(c, padding, ni) =~= Seq::<usize>::empty());
    } else {
        lemma_layout(pad_cols, rows, cols, m, n);
        let p = fill(x, t, ni);
        lemma_fill_shape(x, t, ni);
        lemma_kept_fill(x, t, ni);
        let y = permuted(op, p, rows, cols);
        lemma_kept_len(y, ni);
        lemma_permuted_count(op, p, rows, cols, ni);
        lemma_same_padding_count(p, t, ni);
        assert(c.len() == m);
        let ty = permuted(op, t, rows, cols);
        lemma_permuted_same_padding(op, p, t, rows, cols, ni);
        lemma_permuted_count(op, t, rows, cols, ni);
        assert(same_padding(ty, y, ni)) by {
            assert forall|k: int| 0 <= k < ty.len() && ty[k] >= ni implies #[trigger] ty[k]
                == y[k] by {}
        }
        lemma_fill_same_padding(c, ty, y, ni);
        lemma_fill_kept(y, ni);
        lemma_permuted_inverse(op, p, rows, cols);
    }
}

/// Column `j` is read before column `q`: its key is smaller, or equal with `j`
/// further left.
pub open spec fn reads_before(keys: Seq<int>, j: int, q: int) -> bool {
    keys[j] < keys[q] || (keys[j] == keys[q] && j < q)
}

/// How many of the first `upto` columns are read before column `q`.
pub open spec fn count_before(keys: Seq<int>, q: int, upto: int) -> nat
    decreases upto,
{
    if upto <= 0 {
        0
    } else {
        count_before(keys, q, upto - 1) + if reads_before(keys, upto - 1, q) {
            1nat
        } else {
            0nat
        }
    }
}

/// The place of column `q` in reading order.
pub open spec fn rank(keys: Seq<int>, q: int) -> int {
    count_before(keys, q, keys.len() as int) as int
}

/// The column read at place `p`.
pub open spec fn column_at(keys: Seq<int>, p: int) -> int {
    choose|q: int| 0 <= q < keys.len() && rank(keys, q) == p
}

/// Counting is monotone in the predicate, and strictly so when one more column
/// qualifies.
pub proof fn lemma_count_before_mono(keys: Seq<int>, q1: int, q2: int, upto: int)
    requires
        0 <= upto <= keys.len(),
        0 <= q1 < keys.len(),
        0 <= q2 < keys.len(),
        reads_before(keys, q1, q2),
    ensures
        count_before(keys, q1, upto) <= count_before(keys, q2, upto),
        upto > q1 ==> count_before(keys, q1, upto) < count_before(keys, q2, upto),
    decreases upto,
{
    if upto > 0 {
        lemma_count_before_mono(keys, q1, q2, upto - 1);
    }
}

/// Counting never exceeds the number of columns looked at, and leaves `q` itself out.
pub proof fn lemma_count_before_bound(keys: Seq<int>, q: int, upto: int)
    requires
        0 <= upto <= keys.len(),
        0 <= q < keys.len(),
    ensures
        count_before(keys, q, upto) <= upto,
        upto > q ==> count_before(keys, q, upto) < upto,
    decreases upto,
{
    if upto > 0 {
        lemma_count_before_bound(keys, q, upto - 1);
    }
}

/// Every column has a distinct place in reading order, and every place has a column.
pub proof fn lemma_rank(keys: Seq<int>)
    ensures
        forall|q: int| 0 <= q < keys.len() ==> 0 <= #[trigger] rank(keys, q) < keys.len(),
        forall|q1: int, q2: int|
            0 <= q1 < keys.len() && 0 <= q2 < keys.len() && #[trigger] rank(keys, q1) == #[trigger] rank(
                keys,
                q2,
            ) ==> q1 == q2,
        forall|p: int|
            0 <= p < keys.len() ==> 0 <= #[trigger] column_at(keys, p) < keys.len() && rank(
                keys,
                column_at(keys, p),
            ) == p,
        forall|q: int| 0 <= q < keys.len() ==> #[trigger] column_at(keys, rank(keys, q)) == q,
{
    let len = keys.len() as int;
    assert forall|q: int| 0 <= q < len implies 0 <= #[trigger] rank(keys, q) < len by {
        lemma_count_before_bound(keys, q, len);
    }
    assert forall|q1: int, q2: int|
        0 <= q1 < len && 0 <= q2 < len && #[trigger] rank(keys, q1) == #[trigger] rank(keys, q2)
            implies q1 == q2 by {
        if q1 != q2 {
            if reads_before(keys, q1, q2) {
                lemma_count_before_mono(keys, q1, q2, len);
            } else {
                lemma_count_before_mono(keys, q2, q1, len);
            }
        }
    }
    let dom = set_int_range(0, len);
    let f = |q: int| rank(keys, q);
    lemma_int_range(0, len);
    assert(injective_on(f, dom));
    lemma_map_size(dom, dom.map(f), f);
    assert(dom.map(f).subset_of(dom)) by {
        assert forall|p: int| #[trigger] dom.map(f).contains(p) implies dom.contains(p) by {
            let q = choose|q: int| dom.contains(q) && f(q) == p;
        }
    }
    lemma_subset_equality(dom.map(f), dom);
    assert forall|p: int| 0 <= p < len implies 0 <= #[trigger] column_at(keys, p) < len && rank(
        keys,
        column_at(keys, p),
    ) == p by {
        assert(dom.map(f).contains(p));
        let q = choose|q: int| dom.contains(q) && f(q) == p;
        assert(0 <= q < len && rank(keys, q) == p);
    }
    assert forall|q: int| 0 <= q < len implies #[trigger] column_at(keys, rank(keys, q)) == q by {
        let p = rank(keys, q);
        assert(dom.map(f).contains(p)) by {
            assert(dom.contains(q) && f(q) == p);
        }
        let c = column_at(keys, p);
        assert(0 <= c < len && rank(keys, c) == p);
    }
}

/// Relies on ndarray: `into_shape_with_order` folds the vector row-major into a
/// `rows x cols` matrix (it fails only when the sizes differ or an axis length,
/// or the product of the lengths, exceeds `isize::MAX`), `t` reverses the
/// axes, and `as_standard_layout` with `into_shape_with_order` and `to_vec` read
/// the transposed matrix back row-major.
#[verifier::external_body]
pub fn transpose_vec(elems: Vec<usize>, shape: (usize, usize)) -> (r: Vec<usize>)
    requires
        elems@.len() == shape.0 * shape.1,
        shape.0 <= isize::MAX,
        shape.1 <= isize::MAX,
        shape.0 * shape.1 <= isize::MAX,
    ensures
        r@ == permuted(MatrixOp::Transpose, elems@, shape.0 as int, shape.1 as int),
{
    let n_elems = elems.len();
    let matrix = Array1::from_vec(elems).into_shape_with_order(shape).unwrap();
    let transpose = matrix.t().as_standard_layout().to_owned();
    transpose.into_shape_with_order(n_elems).unwrap().to_vec()
}

/// Relies on ndarray as [`transpose_vec`] does, with `invert_axis(Axis(1))`
/// reversing each row of the transposed view: a clockwise quarter turn.
#[verifier::external_body]
fn rotate_right_vec(elems: Vec<usize>, shape: (usize, usize)) -> (r: Vec<usize>)
    requires
        elems@.len() == shape.0 * shape.1,
        shape.0 <= isize::MAX,
        shape.1 <= isize::MAX,
        shape.0 * shape.1 <= isize::MAX,
    ensures
        r@ == permuted(MatrixOp::RotateRight, elems@, shape.0 as int, shape.1 as int),
{
    let n_elems = elems.len();
    let matrix = Array1::from_vec(elems).into_shape_with_order(shape).unwrap();
    let mut rotated = matrix.t();
    rotated.invert_axis(Axis(1));
    rotated.as_standard_layout().to_owned().into_shape_with_order(n_elems).unwrap().to_vec()
}

/// Relies on ndarray as [`transpose_vec`] does, with `invert_axis(Axis(0))`
/// reversing the order of the rows of the transposed view: a counter-clockwise
/// quarter turn.
#[verifier::external_body]
fn rotate_left_vec(elems: Vec<usize>, shape: (usize, usize)) -> (r: Vec<usize>)
    requires
        elems@.len() == shape.0 * shape.1,
        shape.0 <= isize::MAX,
        shape.1 <= isize::MAX,
        shape.0 * shape.1 <= isize::MAX,
    ensures
        r@ == permuted(MatrixOp::RotateLeft, elems@, shape.0 as int, shape.1 as int),
{
    let n_elems = elems.len();
    let matrix = Array1::from_vec(elems).into_shape_with_order(shape).unwrap();
    let mut rotated = matrix.t();
    rotated.invert_axis(Axis(0));
    rotated.as_standard_layout().to_owned().into_shape_with_order(n_elems).unwrap().to_vec()
}

/// A row-major `rows x cols` matrix turned a quarter clockwise, or counter-clockwise
/// when `counter` holds, flattened row-major.
pub fn rotate_vec(elems: Vec<usize>, shape: (usize, usize), counter: bool) -> (r: Vec<usize>)
    requires
        elems@.len() == shape.0 * shape.1,
        shape.0 <= isize::MAX,
        shape.1 <= isize::MAX,
        shape.0 * shape.1 <= isize::MAX,
    ensures
        r@ == permuted(
            if counter {
                MatrixOp::RotateLeft
            } else {
                MatrixOp::RotateRight
            },
            elems@,
            shape.0 as int,
            shape.1 as int,
        ),
{
    if counter {
        rotate_left_vec(elems, shape)
    } else {
        rotate_right_vec(elems, shape)
    }
}

/// The number of columns needed for `m` values in `rows` rows.
fn ceil_div_exec(m: usize, rows: usize) -> (r: usize)
    requires
        rows > 0,
    ensures
        r as int == ceil_div(m as int, rows as int),
{
        let q = m / rows;
        proof {
            lemma_fundamental_div_mod(m as int, rows as int);
            let rem = m as int % rows as int;
            if rem != 0 {
                assert(q < usize::MAX) by (nonlinear_arith)
                    requires
                        m as int == rows * q + rem,
                        0 < rem < rows,
                        m <= usize::MAX,
                ;
                assert(m + rows - 1 == (q + 1) * rows + (rem - 1)) by (nonlinear_arith)
                    requires
                        m as int == rows * q + rem,
                ;
                lemma_fundamental_div_mod_converse(m + rows - 1, rows as int, q + 1, rem - 1);
            } else {
                assert(m + rows - 1 == q * rows + (rows - 1)) by (nonlinear_arith)
                    requires
                        m as int == rows * q + rem,
                        rem == 0,
                ;
                lemma_fundamental_div_mod_converse(m + rows - 1, rows as int, q as int, rows - 1);
            }
        }
        let cols: usize = if m % rows == 0 {
            q
        } else {
            q + 1
        };
        cols
}

/// The column count and cell count of the padded matrix for `m` values in
/// `rows` rows, when that matrix is addressable (see [`matrix_fits`]).
fn matrix_size(m: usize, rows: usize) -> (r: Option<(usize, usize)>)
    requires
        rows > 0,
    ensures
        r is Some <==> matrix_fits(m as int, rows as int),
        r matches Some((cols, total)) ==> {
            &&& cols as int == ceil_div(m as int, rows as int)
            &&& total == rows * cols
            &&& total == cols * rows
            &&& cols <= isize::MAX
            &&& total <= isize::MAX
        },
{
    let cols = ceil_div_exec(m, rows);
    if rows > isize::MAX as usize {
        return None;
    }
    match rows.checked_mul(cols) {
        Some(total) => {
            if total > isize::MAX as usize {
                return None;
            }
            proof {
                assert(cols <= rows * cols) by (nonlinear_arith)
                    requires
                        rows > 0,
                        cols >= 0,
                ;
                assert(rows * cols == cols * rows) by (nonlinear_arith);
            }
            Some((cols, total))
        },
        None => None,
    }
}

/// The symbols of `alpha` at the positions of `idx`, all of which lie inside it.
fn symbols_of(idx: &Vec<usize>, alpha: &Vec<char>) -> (r: Vec<char>)
    requires
        forall|j: int| 0 <= j < idx@.len() ==> #[trigger] idx@[j] < alpha@.len(),
    ensures
        r@ == idx@.map_values(|i: usize| alpha@[i as int]),
{
    let mut out: Vec<char> = Vec::new();
    let mut k: usize = 0;
    while k < idx.len()
        invariant
            k <= idx@.len(),
            forall|j: int| 0 <= j < idx@.len() ==> #[trigger] idx@[j] < alpha@.len(),
            out@ == idx@.take(k as int).map_values(|i: usize| alpha@[i as int]),
        decreases idx.len() - k,
    {
        out.push(alpha[idx[k]]);
        proof {
            assert(out@ =~= idx@.take(k + 1).map_values(|i: usize| alpha@[i as int]));
        }
        k = k + 1;
    }
    proof {
        assert(idx@.take(k as int) =~= idx@);
    }
    out
}

/// `op` applied to the row-major `rows x cols` matrix `v`.
fn apply(op: MatrixOp, v: Vec<usize>, rows: usize, cols: usize) -> (r: Vec<usize>)
    requires
        v@.len() == rows * cols,
        rows <= isize::MAX,
        cols <= isize::MAX,
        rows * cols <= isize::MAX,
    ensures
        r@ == permuted(op, v@, rows as int, cols as int),
{
    match op {
        MatrixOp::Transpose => transpose_vec(v, (rows, cols)),
        MatrixOp::RotateRight => rotate_vec(v, (rows, cols), false),
        MatrixOp::RotateLeft => rotate_vec(v, (rows, cols), true),
    }
}

/// The operation that undoes `op`.
fn inverse(op: MatrixOp) -> (r: MatrixOp)
    ensures
        r == inverse_op(op),
{
    match op {
        MatrixOp::Transpose => MatrixOp::Transpose,
        MatrixOp::RotateRight => MatrixOp::RotateLeft,
        MatrixOp::RotateLeft => MatrixOp::RotateRight,
    }
}

/// The padding layout of a `rows x cols` matrix holding `m` values (see [`layout`]).
fn layout_vec(pad_cols: bool, rows: usize, cols: usize, m: usize, pad: usize) -> (r: Vec<usize>)
    requires
        rows <= isize::MAX,
        cols <= isize::MAX,
        rows * cols <= isize::MAX,
    ensures
        r@ == layout(pad_cols, rows as int, cols as int, m as int, pad),
{
    let total = rows * cols;
    let mut tail: Vec<usize> = Vec::new();
    let mut k: usize = 0;
    while k < total
        invariant
            k <= total,
            tail@ == tail_layout(total as int, m as int, pad).take(k as int),
        decreases total - k,
    {
        tail.push(if k < m {
            0
        } else {
            pad
        });
        proof {
            assert(tail@ =~= tail_layout(total as int, m as int, pad).take(k + 1));
        }
        k = k + 1;
    }
    proof {
        assert(tail@ =~= tail_layout(total as int, m as int, pad));
        assert(rows * cols == cols * rows) by (nonlinear_arith);
    }
    if pad_cols {
        transpose_vec(tail, (cols, rows))
    } else {
        tail
    }
}

/// `c` written into the open slots of `template` (see [`fill`]).
fn fill_vec(c: &Vec<usize>, template: &Vec<usize>, n: usize) -> (r: Vec<usize>)
    ensures
        r@ == fill(c@, template@, n as int),
{
    let mut out: Vec<usize> = Vec::new();
    let mut i: usize = 0;
    let mut j: usize = 0;
    proof {
        assert(c@.skip(0) =~= c@);
        assert(template@.skip(0) =~= template@);
        assert(out@ + fill(c@, template@, n as int) =~= fill(c@, template@, n as int));
    }
    while j < template.len()
        invariant
            i <= c@.len(),
            j <= template@.len(),
            out@ + fill(c@.skip(i as int), template@.skip(j as int), n as int) == fill(
                c@,
                template@,
                n as int,
            ),
        decreases template.len() - j,
    {
        let t = template[j];
        proof {
            assert(template@.skip(j as int).drop_first() =~= template@.skip(j + 1));
            assert(c@.skip(i as int).len() > 0 ==> c@.skip(i as int).drop_first() =~= c@.skip(
                i + 1,
            ));
        }
        if t >= n || i >= c.len() {
            out.push(t);
            proof {
                let rest = fill(c@.skip(i as int), template@.skip(j + 1), n as int);
                assert(out@ + rest =~= out@.drop_last() + (seq![t] + rest));
            }
        } else {
            let v = c[i];
            out.push(v);
            proof {
                let rest = fill(c@.skip(i + 1), template@.skip(j + 1), n as int);
                assert(out@ + rest =~= out@.drop_last() + (seq![v] + rest));
            }
            i = i + 1;
        }
        j = j + 1;
    }
    proof {
        assert(template@.skip(j as int) =~= Seq::<usize>::empty());
        assert(out@ + Seq::<usize>::empty() =~= out@);
    }
    out
}

/// The values of `s` below `n`, in order.
fn kept_vec(s: &Vec<usize>, n: usize) -> (r: Vec<usize>)
    ensures
        r@ == kept(s@, n as int),
{
    let mut out: Vec<usize> = Vec::new();
    let mut i: usize = 0;
    proof {
        assert(s@.skip(0) =~= s@);
        assert(out@ + kept(s@, n as int) =~= kept(s@, n as int));
    }
    while i < s.len()
        invariant
            i <= s@.len(),
            out@ + kept(s@.skip(i as int), n as int) == kept(s@, n as int),
        decreases s.len() - i,
    {
        let v = s[i];
        proof {
            assert(s@.skip(i as int).drop_first() =~= s@.skip(i + 1));
        }
        if v < n {
            out.push(v);
            proof {
                let rest = kept(s@.skip(i + 1), n as int);
                assert(out@ + rest =~= out@.drop_last() + (seq![v] + rest));
            }
        }
        i = i + 1;
    }
    proof {
        assert(s@.skip(i as int) =~= Seq::<usize>::empty());
        assert(out@ + Seq::<usize>::empty() =~= out@);
    }
    out
}

/// The positions of the members of `t` in `a`.
pub open spec fn index_stream(t: Seq<char>, a: Seq<char>) -> Seq<usize> {
    members(t, a).map_values(|c: char| index_of(a, c) as usize)
}

/// The padded matrix for `m` values in `rows` rows has an addressable size:
/// neither the row count nor the number of cells exceeds `isize::MAX`.
pub open spec fn matrix_fits(m: int, rows: int) -> bool {
    rows <= isize::MAX && rows * ceil_div(m, rows) <= isize::MAX
}

/// A transposition of the members of `t`, written back into `t`; a text whose
/// matrix would not be addressable is returned as it is.
pub open spec fn transposition_text(
    op: MatrixOp,
    pad_cols: bool,
    rows: int,
    decrypt: bool,
    a: Seq<char>,
    t: Seq<char>,
) -> Seq<char> {
    let x = index_stream(t, a);
    if !matrix_fits(x.len() as int, rows) {
        t
    } else {
        let s = if decrypt {
            untransposed_stream(op, pad_cols, rows, a.len() as usize, x)
        } else {
            transposed_stream(op, pad_cols, rows, a.len() as usize, x)
        };
        refilled(s.map_values(|i: usize| a[i as int]), t, a)
    }
}

/// A scytale or route cipher: a matrix of a given number of rows, a padding
/// policy, and a permutation.
#[derive(Debug)]
pub struct Transpose {
    alphabet: Vec<char>,
    num_rows: usize,
    pad_cols: bool,
    matrixop: MatrixOp,
}

impl Transpose {
    /// Well-formed: a valid alphabet and at least one row.
    #[verifier::type_invariant]
    pub closed spec fn inv(&self) -> bool {
        valid_alphabet(self.alphabet@) && self.alphabet@.len() <= usize::MAX && self.num_rows > 0
    }

    /// The alphabet.
    pub closed spec fn alpha(&self) -> Seq<char> {
        self.alphabet@
    }

    /// The number of rows of the encryption matrix.
    pub closed spec fn rows(&self) -> int {
        self.num_rows as int
    }

    /// The padding policy.
    pub closed spec fn pads_cols(&self) -> bool {
        self.pad_cols
    }

    /// The permutation.
    pub closed spec fn op(&self) -> MatrixOp {
        self.matrixop
    }

    /// Encryption of `t`.
    pub open spec fn encrypt_spec(&self, t: Seq<char>) -> Seq<char> {
        transposition_text(self.op(), self.pads_cols(), self.rows(), false, self.alpha(), t)
    }

    /// Decryption of `t`.
    pub open spec fn decrypt_spec(&self, t: Seq<char>) -> Seq<char> {
        transposition_text(self.op(), self.pads_cols(), self.rows(), true, self.alpha(), t)
    }

    fn new(alphabet: &str, num_rows: usize, pad_cols: bool, matrixop: MatrixOp) -> (r: Result<
        Self,
        CipherError,
    >)
        ensures
            r is Ok <==> valid_alphabet(alphabet@) && num_rows > 0,
            r matches Err(e) ==> e == (if !valid_alphabet(alphabet@) {
                alphabet_error(alphabet@)
            } else {
                CipherError::ZeroRows
            }),
            r matches Ok(c) ==> c.inv() && c.alpha() == alphabet@ && c.rows() == num_rows
                && c.pads_cols() == pad_cols && c.op() == matrixop,
    {
        let symbols = match build_alphabet(alphabet) {
            Ok(v) => v,
            Err(e) => {
                return Err(e);
            },
        };
        if num_rows == 0 {
            return Err(CipherError::ZeroRows);
        }
        assert(symbols@.len() == symbols.len());
        Ok(Transpose { alphabet: symbols, num_rows, pad_cols, matrixop })
    }

    /// A scytale: the matrix is transposed.
    pub fn as_flip(alphabet: &str, num_rows: usize, pad_cols: bool) -> (r: Result<
        Self,
        CipherError,
    >)
        ensures
            r is Ok <==> valid_alphabet(alphabet@) && num_rows > 0,
            r matches Err(e) ==> e == (if !valid_alphabet(alphabet@) {
                alphabet_error(alphabet@)
            } else {
                CipherError::ZeroRows
            }),
            r matches Ok(c) ==> c.inv() && c.alpha() == alphabet@ && c.rows() == num_rows
                && c.pads_cols() == pad_cols && c.op() == MatrixOp::Transpose,
    {
        Self::new(alphabet, num_rows, pad_cols, MatrixOp::Transpose)
    }

    /// A route cipher that turns the matrix a quarter clockwise.
    pub fn as_right(alphabet: &str, num_rows: usize, pad_cols: bool) -> (r: Result<
        Self,
        CipherError,
    >)
        ensures
            r is Ok <==> valid_alphabet(alphabet@) && num_rows > 0,
            r matches Err(e) ==> e == (if !valid_alphabet(alphabet@) {
                alphabet_error(alphabet@)
            } else {
                CipherError::ZeroRows
            }),
            r matches Ok(c) ==> c.inv() && c.alpha() == alphabet@ && c.rows() == num_rows
                && c.pads_cols() == pad_cols && c.op() == MatrixOp::RotateRight,
    {
        Self::new(alphabet, num_rows, pad_cols, MatrixOp::RotateRight)
    }

    /// A route cipher that turns the matrix a quarter counter-clockwise.
    pub fn as_left(alphabet: &str, num_rows: usize, pad_cols: bool) -> (r: Result<
        Self,
        CipherError,
    >)
        ensures
            r is Ok <==> valid_alphabet(alphabet@) && num_rows > 0,
            r matches Err(e) ==> e == (if !valid_alphabet(alphabet@) {
                alphabet_error(alphabet@)
            } else {
                CipherError::ZeroRows
            }),
            r matches Ok(c) ==> c.inv() && c.alpha() == alphabet@ && c.rows() == num_rows
                && c.pads_cols() == pad_cols && c.op() == MatrixOp::RotateLeft,
    {
        Self::new(alphabet, num_rows, pad_cols, MatrixOp::RotateLeft)
    }

    fn transpose(&self, input: &str, decrypt: bool) -> (r: String)
        ensures
            r@ == transposition_text(
                self.op(),
                self.pads_cols(),
                self.rows(),
                decrypt,
                self.alpha(),
                input@,
            ),
    {
        proof {
            use_type_invariant(self);
        }
        let ghost a = self.alphabet@;
        let text = chars_of(input);
        let x = positions_of(&text, &self.alphabet);
        proof {
            let mm = members(input@, a);
            assert(widen(x@).len() == mm.len());
            assert(x@ =~= index_stream(input@, a)) by {
                assert forall|k: int| 0 <= k < x@.len() implies x@[k] == index_stream(input@, a)[k] by {
                    assert(widen(x@)[k] == x@[k] as int);
                    assert(encoded(mm, a)[k] == index_of(a, mm[k]));
                }
            }
        }
        let m = x.len();
        let rows = self.num_rows;
        let n = self.alphabet.len();
        let cols = match matrix_size(m, rows) {
            Some((cols, _)) => cols,
            None => {
                return string_of(&text);
            },
        };
        proof {
            lemma_ceil_div(m as int, rows as int);
        }
        let template = layout_vec(self.pad_cols, rows, cols, m, n);
        let matrixed = if !decrypt {
            let padded = fill_vec(&x, &template, n);
            proof {
                lemma_fill_shape(x@, template@, n as int);
                assert forall|k: int| 0 <= k < x@.len() implies #[trigger] x@[k] < n by {
                    assert(widen(x@)[k] == x@[k] as int);
                }
                if cols > 0 {
                    lemma_layout(self.pad_cols, rows as int, cols as int, m as int, n);
                } else {
                    assert(rows * cols == 0) by (nonlinear_arith)
                        requires
                            cols == 0,
                    ;
                    assert(cols * rows == 0) by (nonlinear_arith)
                        requires
                            cols == 0,
                    ;
                }
            }
            apply(self.matrixop, padded, rows, cols)
        } else {
            proof {
                if cols > 0 {
                    lemma_layout(self.pad_cols, rows as int, cols as int, m as int, n);
                } else {
                    assert(rows * cols == 0) by (nonlinear_arith)
                        requires
                            cols == 0,
                    ;
                    assert(cols * rows == 0) by (nonlinear_arith)
                        requires
                            cols == 0,
                    ;
                }
            }
            let padding = apply(self.matrixop, template, rows, cols);
            let d = fill_vec(&x, &padding, n);
            proof {
                lemma_fill_shape(x@, padding@, n as int);
                assert forall|k: int| 0 <= k < x@.len() implies #[trigger] x@[k] < n by {
                    assert(widen(x@)[k] == x@[k] as int);
                }
                assert(rows * cols == cols * rows) by (nonlinear_arith);
            }
            apply(inverse(self.matrixop), d, cols, rows)
        };
        let stream = kept_vec(&matrixed, n);
        proof {
            lemma_kept_below(matrixed@, n as int);
        }
        let symbols = symbols_of(&stream, &self.alphabet);
        let filled = refill_chars(&symbols, &text, &self.alphabet);
        string_of(&filled)
    }
}

/// Decryption of a stream of `m` positions gives `m` positions.
pub proof fn lemma_untransposed_len(op: MatrixOp, pad_cols: bool, rows: int, n: usize, c: Seq<usize>)
    requires
        rows > 0,
        n > 0,
        forall|k: int| 0 <= k < c.len() ==> #[trigger] c[k] < n,
    ensures
        untransposed_stream(op, pad_cols, rows, n, c).len() == c.len(),
{
    let m = c.len() as int;
    let ni = n as int;
    let cols = ceil_div(m, rows);
    lemma_ceil_div(m, rows);
    let t = layout(pad_cols, rows, cols, m, n);
    let padding = permuted(op, t, rows, cols);
    let d = fill(c, padding, ni);
    if m == 0 {
        assert(rows * cols == 0) by (nonlinear_arith)
            requires
                cols == 0,
        ;
        assert(t.len() == 0) by {
            if pad_cols {
                assert(cols * rows == 0) by (nonlinear_arith)
                    requires
                        cols == 0,
                ;
            }
        }
        assert(d =~= Seq::<usize>::empty());
        lemma_kept_len(permuted(inverse_op(op), d, cols, rows), ni);
    } else {
        lemma_layout(pad_cols, rows, cols, m, n);
        lemma_permuted_count(op, t, rows, cols, ni);
        lemma_fill_shape(c, padding, ni);
        lemma_same_padding_count(d, padding, ni);
        assert(rows * cols == cols * rows) by (nonlinear_arith);
        lemma_permuted_count(inverse_op(op), d, cols, rows, ni);
        lemma_kept_len(permuted(inverse_op(op), d, cols, rows), ni);
    }
}

/// The positions of the members of a text are below the alphabet size, and
/// name those members.
pub proof fn lemma_index_stream(t: Seq<char>, a: Seq<char>)
    requires
        valid_alphabet(a),
        a.len() <= usize::MAX,
    ensures
        index_stream(t, a).len() == members(t, a).len(),
        forall|k: int|
            0 <= k < index_stream(t, a).len() ==> #[trigger] index_stream(t, a)[k] < a.len()
                && a[index_stream(t, a)[k] as int] == members(t, a)[k],
{
    lemma_members_are_members(t, a);
    assert forall|k: int| 0 <= k < index_stream(t, a).len() implies #[trigger] index_stream(t, a)[k]
        < a.len() && a[index_stream(t, a)[k] as int] == members(t, a)[k] by {
        assert(a.contains(members(t, a)[k]));
        lemma_index_of(a, members(t, a)[k]);
    }
}

/// Symbols looked up at positions inside the alphabet are members.
pub proof fn lemma_lookup_members(s: Seq<usize>, a: Seq<char>)
    requires
        forall|k: int| 0 <= k < s.len() ==> #[trigger] s[k] < a.len(),
    ensures
        all_members(s.map_values(|i: usize| a[i as int]), a),
{
    let e = s.map_values(|i: usize| a[i as int]);
    assert forall|k: int| 0 <= k < e.len() implies a.contains(#[trigger] e[k]) by {
        assert(a[s[k] as int] == e[k]);
    }
}

impl Transpose {
    /// Decrypting an encrypted text gives it back, for every permutation and
    /// both padding policies.
    pub proof fn lemma_round_trip(&self, t: Seq<char>)
        requires
            self.inv(),
        ensures
            self.decrypt_spec(self.encrypt_spec(t)) == t,
    {
        let a = self.alpha();
        let n = a.len() as usize;
        let rows = self.rows();
        let op = self.op();
        let pc = self.pads_cols();
        let x = index_stream(t, a);
        lemma_index_stream(t, a);
        if matrix_fits(x.len() as int, rows) {
            lemma_stream_round_trip(op, pc, rows, n, x);
            let s = transposed_stream(op, pc, rows, n, x);
            let e = s.map_values(|i: usize| a[i as int]);
            assert(all_members(e, a)) by {
                assert forall|k: int| 0 <= k < e.len() implies a.contains(#[trigger] e[k]) by {
                    assert(a[s[k] as int] == e[k]);
                }
            }
            lemma_refill_round_trip(t, e, a);
            let u = self.encrypt_spec(t);
            assert(index_stream(u, a) =~= s) by {
                assert forall|k: int| 0 <= k < s.len() implies #[trigger] index_stream(u, a)[k]
                    == s[k] by {
                    crate::common::lemma_index_of_at(a, s[k] as int);
                }
            }
            assert(x.map_values(|i: usize| a[i as int]) =~= members(t, a));
        }
    }

    /// Both directions keep every non-member in place, and the text length, and
    /// put a member in every member slot.
    pub proof fn lemma_keeps_non_members(&self, t: Seq<char>, decrypt: bool)
        requires
            self.inv(),
        ensures
            transposition_text(self.op(), self.pads_cols(), self.rows(), decrypt, self.alpha(), t).len()
                == t.len(),
            keeps_non_members(
                transposition_text(self.op(), self.pads_cols(), self.rows(), decrypt, self.alpha(), t),
                t,
                self.alpha(),
            ),
            keeps_member_slots(
                transposition_text(self.op(), self.pads_cols(), self.rows(), decrypt, self.alpha(), t),
                t,
                self.alpha(),
            ),
    {
        let a = self.alpha();
        let n = a.len() as usize;
        let x = index_stream(t, a);
        lemma_index_stream(t, a);
        if matrix_fits(x.len() as int, self.rows()) {
            lemma_stream_round_trip(self.op(), self.pads_cols(), self.rows(), n, x);
            lemma_untransposed_len(self.op(), self.pads_cols(), self.rows(), n, x);
            let s = if decrypt {
                untransposed_stream(self.op(), self.pads_cols(), self.rows(), n, x)
            } else {
                transposed_stream(self.op(), self.pads_cols(), self.rows(), n, x)
            };
            lemma_kept_below(
                permuted(
                    inverse_op(self.op()),
                    fill(
                        x,
                        permuted(
                            self.op(),
                            layout(
                                self.pads_cols(),
                                self.rows(),
                                ceil_div(x.len() as int, self.rows()),
                                x.len() as int,
                                n,
                            ),
                            self.rows(),
                            ceil_div(x.len() as int, self.rows()),
                        ),
                        n as int,
                    ),
                    ceil_div(x.len() as int, self.rows()),
                    self.rows(),
                ),
                n as int,
            );
            lemma_lookup_members(s, a);
            crate::common::lemma_substitution_keeps_non_members(
                t,
                s.map_values(|i: usize| a[i as int]),
                a,
            );
        }
    }
}

impl Cipher for Transpose {
    fn encrypt(&self, plaintext: &str) -> (r: String)
        ensures
            r@ == self.encrypt_spec(plaintext@),
            r@.len() == plaintext@.len(),
            keeps_non_members(r@, plaintext@, self.alpha()),
            keeps_member_slots(r@, plaintext@, self.alpha()),
    {
        proof {
            use_type_invariant(self);
            self.lemma_keeps_non_members(plaintext@, false);
        }
        self.transpose(plaintext, false)
    }

    fn decrypt(&self, ciphertxt: &str) -> (r: String)
        ensures
            r@ == self.decrypt_spec(ciphertxt@),
            r@.len() == ciphertxt@.len(),
            keeps_non_members(r@, ciphertxt@, self.alpha()),
            keeps_member_slots(r@, ciphertxt@, self.alpha()),
    {
        proof {
            use_type_invariant(self);
            self.lemma_keeps_non_members(ciphertxt@, true);
        }
        self.transpose(ciphertxt, true)
    }
}

/// Relies on `rand::thread_rng` and `Rng::gen_range`: a value drawn from `[0, bound)`.
#[verifier::external_body]
fn random_below(bound: usize) -> (r: usize)
    requires
        bound > 0,
    ensures
        r < bound,
{
    rand::thread_rng().gen_range(0..bound)
}

/// The alphabet positions of the symbols of a keyword.
pub open spec fn key_positions(kw: Seq<char>, a: Seq<char>) -> Seq<int> {
    encoded(kw, a)
}

/// How many padding symbols complete the last row of `m` values in `cols` columns.
pub open spec fn pad_len(m: int, cols: int) -> int {
    cols * ceil_div(m, cols) - m
}

/// The matrix `v` (row-major, `keys.len()` columns) read column by column in
/// key order: place `p` holds the column read at place `p`, top to bottom.
pub open spec fn columnar_stream(keys: Seq<int>, v: Seq<usize>, rows: int) -> Seq<usize> {
    Seq::new(v.len(), |k: int| v[(k % rows) * keys.len() + column_at(keys, k / rows)])
}

/// The columns of a ciphertext back in keyword order, as the rows of a
/// `keys.len() x rows` matrix; slots past the end of `c` hold `pad`.
pub open spec fn column_runs(keys: Seq<int>, c: Seq<usize>, rows: int, pad: usize) -> Seq<usize> {
    Seq::new(
        (keys.len() * rows) as nat,
        |k: int|
            {
                let src = rank(keys, k / rows) * rows + k % rows;
                if src < c.len() {
                    c[src]
                } else {
                    pad
                }
            },
    )
}

/// Decryption of a stream of positions below `n`: the columns are put back in
/// keyword order and the matrix is read row by row.
pub open spec fn uncolumnar_stream(keys: Seq<int>, c: Seq<usize>, n: usize) -> Seq<usize> {
    let rows = ceil_div(c.len() as int, keys.len() as int);
    kept(
        permuted(MatrixOp::Transpose, column_runs(keys, c, rows, n), keys.len() as int, rows),
        n as int,
    )
}

/// Columnar encryption of `t` with `pad` completing the last row.
pub open spec fn columnar_encrypt(a: Seq<char>, kw: Seq<char>, t: Seq<char>, pad: Seq<usize>) -> Seq<
    char,
> {
    let x = index_stream(t, a);
    if !matrix_fits(x.len() as int, kw.len() as int) {
        t
    } else {
        let rows = ceil_div(x.len() as int, kw.len() as int);
        refilled(
            columnar_stream(key_positions(kw, a), x + pad, rows).map_values(|i: usize| a[i as int]),
            t,
            a,
        )
    }
}

/// Columnar decryption of `t`.
pub open spec fn columnar_decrypt(a: Seq<char>, kw: Seq<char>, t: Seq<char>) -> Seq<char> {
    let x = index_stream(t, a);
    if !matrix_fits(x.len() as int, kw.len() as int) {
        t
    } else {
        refilled(
            uncolumnar_stream(key_positions(kw, a), x, a.len() as usize).map_values(
                |i: usize| a[i as int],
            ),
            t,
            a,
        )
    }
}

/// A usable padding for `m` values in `cols` columns over `n` symbols.
pub open spec fn valid_pad(pad: Seq<usize>, m: int, cols: int, n: int) -> bool {
    pad.len() == pad_len(m, cols) && forall|k: int| 0 <= k < pad.len() ==> #[trigger] pad[k] < n
}

/// The place in reading order of every column.
fn ranks_of(keys: &Vec<usize>) -> (r: Vec<usize>)
    ensures
        r@.len() == keys@.len(),
        forall|q: int| 0 <= q < keys@.len() ==> #[trigger] r@[q] as int == rank(widen(keys@), q),
{
    let ghost k = widen(keys@);
    let len = keys.len();
    let mut out: Vec<usize> = Vec::new();
    let mut q: usize = 0;
    while q < len
        invariant
            len == keys@.len(),
            k == widen(keys@),
            q <= len,
            out@.len() == q,
            forall|i: int| 0 <= i < q ==> #[trigger] out@[i] as int == rank(k, i),
        decreases len - q,
    {
        let mut count: usize = 0;
        let mut j: usize = 0;
        while j < len
            invariant
                len == keys@.len(),
                k == widen(keys@),
                q < len,
                j <= len,
                count as int == count_before(k, q as int, j as int),
                count <= j,
            decreases len - j,
        {
            proof {
                assert(k[j as int] == keys@[j as int] as int);
                assert(k[q as int] == keys@[q as int] as int);
            }
            if keys[j] < keys[q] || (keys[j] == keys[q] && j < q) {
                count = count + 1;
            }
            j = j + 1;
        }
        out.push(count);
        q = q + 1;
    }
    out
}

/// The column with place `p` in reading order.
fn column_with_rank(ranks: &Vec<usize>, p: usize, ghost_keys: Ghost<Seq<int>>) -> (r: usize)
    requires
        ranks@.len() == ghost_keys@.len(),
        forall|q: int| 0 <= q < ranks@.len() ==> #[trigger] ranks@[q] as int == rank(ghost_keys@, q),
        p < ranks@.len(),
    ensures
        r as int == column_at(ghost_keys@, p as int),
        r < ranks@.len(),
{
    proof {
        lemma_rank(ghost_keys@);
    }
    let mut q: usize = 0;
    while q < ranks.len()
        invariant
            ranks@.len() == ghost_keys@.len(),
            forall|i: int| 0 <= i < ranks@.len() ==> #[trigger] ranks@[i] as int == rank(ghost_keys@, i),
            forall|i: int| 0 <= i < q ==> ranks@[i] != p,
            p < ranks@.len(),
            q <= ranks@.len(),
        decreases ranks.len() - q,
    {
        if ranks[q] == p {
            proof {
                lemma_rank(ghost_keys@);
                let c = column_at(ghost_keys@, p as int);
                assert(rank(ghost_keys@, c) == p);
                assert(rank(ghost_keys@, q as int) == rank(ghost_keys@, c));
            }
            return q;
        }
        q = q + 1;
    }
    proof {
        let c = column_at(ghost_keys@, p as int);
        assert(ranks@[c] == p);
    }
    0
}

/// A rail fence cipher; it has no operations yet.
pub struct RailFence {}

/// A columnar transposition keyed by a keyword.
#[derive(Debug)]
pub struct Columnar {
    alphabet: Vec<char>,
    keyword: Vec<char>,
}

impl Columnar {
    /// Well-formed: a valid alphabet and a valid keyword over it.
    #[verifier::type_invariant]
    pub closed spec fn inv(&self) -> bool {
        &&& valid_alphabet(self.alphabet@)
        &&& self.alphabet@.len() <= usize::MAX
        &&& valid_key(self.keyword@, self.alphabet@)
    }

    /// The alphabet.
    pub closed spec fn alpha(&self) -> Seq<char> {
        self.alphabet@
    }

    /// The keyword.
    pub closed spec fn keyword(&self) -> Seq<char> {
        self.keyword@
    }

    /// How many members `t` has.
    pub open spec fn member_count(&self, t: Seq<char>) -> int {
        index_stream(t, self.alpha()).len() as int
    }

    /// Builds the cipher; fails on an invalid alphabet, or on a keyword that is
    /// empty or holds a non-member.
    pub fn new(alphabet: &str, keyword: &str) -> (r: Result<Self, CipherError>)
        ensures
            r is Ok <==> valid_alphabet(alphabet@) && valid_key(keyword@, alphabet@),
            r matches Err(e) ==> e == (if !valid_alphabet(alphabet@) {
                alphabet_error(alphabet@)
            } else {
                key_error(keyword@)
            }),
            r matches Ok(c) ==> c.inv() && c.alpha() == alphabet@ && c.keyword() == keyword@,
    {
        let symbols = match build_alphabet(alphabet) {
            Ok(v) => v,
            Err(e) => {
                return Err(e);
            },
        };
        let key = match build_key(keyword, &symbols) {
            Ok(v) => v,
            Err(e) => {
                return Err(e);
            },
        };
        assert(symbols@.len() == symbols.len());
        Ok(Columnar { alphabet: symbols, keyword: key })
    }

    /// The alphabet positions of the members of `text`, and of the keyword.
    fn positions(&self, text: &Vec<char>) -> (r: (Vec<usize>, Vec<usize>))
        requires
            self.inv(),
        ensures
            r.0@ == index_stream(text@, self.alpha()),
            forall|k: int| 0 <= k < r.0@.len() ==> #[trigger] r.0@[k] < self.alpha().len(),
            widen(r.1@) == key_positions(self.keyword(), self.alpha()),
            r.1@.len() == self.keyword().len(),
    {
        let ghost a = self.alphabet@;
        let x = positions_of(text, &self.alphabet);
        let keys = positions_of(&self.keyword, &self.alphabet);
        proof {
            let mm = members(text@, a);
            assert(widen(x@).len() == mm.len());
            assert(x@ =~= index_stream(text@, a)) by {
                assert forall|k: int| 0 <= k < x@.len() implies x@[k] == index_stream(text@, a)[k] by {
                    assert(widen(x@)[k] == x@[k] as int);
                    assert(encoded(mm, a)[k] == index_of(a, mm[k]));
                }
            }
            lemma_members_of_members(self.keyword@, a);
            assert(widen(keys@).len() == keys@.len());
        }
        (x, keys)
    }

    /// Encryption with `pad` completing the last row of the matrix. Gives `None`
    /// when the matrix is addressable and `pad` has the wrong length or holds a
    /// position outside the alphabet.
    pub fn encrypt_with_pad(&self, plaintext: &str, pad: &Vec<usize>) -> (r: Option<String>)
        ensures
            r is Some <==> (matrix_fits(self.member_count(plaintext@), self.keyword().len() as int)
                ==> valid_pad(
                pad@,
                self.member_count(plaintext@),
                self.keyword().len() as int,
                self.alpha().len() as int,
            )),
            r matches Some(s) ==> s@ == columnar_encrypt(
                self.alpha(),
                self.keyword(),
                plaintext@,
                pad@,
            ),
    {
        proof {
            use_type_invariant(self);
        }
        let ghost a = self.alphabet@;
        let text = chars_of(plaintext);
        let (x, keys) = self.positions(&text);
        let ghost kk = widen(keys@);
        let m = x.len();
        let cols = self.keyword.len();
        let n = self.alphabet.len();
        let (rows, total) = match matrix_size(m, cols) {
            Some(size) => size,
            None => {
                return Some(string_of(&text));
            },
        };
        proof {
            lemma_ceil_div(m as int, cols as int);
        }
        proof {
            assert(matrix_fits(m as int, cols as int));
            assert(x@.len() == self.member_count(plaintext@));
        }
        if pad.len() != total - m {
            return None;
        }
        let mut v: Vec<usize> = Vec::new();
        let mut i: usize = 0;
        while i < m
            invariant
                i <= m,
                m == x@.len(),
                v@ == x@.take(i as int),
            decreases m - i,
        {
            v.push(x[i]);
            proof {
                assert(v@ =~= x@.take(i + 1));
            }
            i = i + 1;
        }
        let mut j: usize = 0;
        while j < pad.len()
            invariant
                j <= pad@.len(),
                m == x@.len(),
                v@ == x@ + pad@.take(j as int),
                forall|k: int| 0 <= k < j ==> #[trigger] pad@[k] < n,
                n == self.alphabet@.len(),
                cols == self.keyword@.len(),
                m as int == self.member_count(plaintext@),
                matrix_fits(m as int, cols as int),
            decreases pad.len() - j,
        {
            if pad[j] >= n {
                proof {
                    assert(!valid_pad(pad@, m as int, cols as int, n as int));
                }
                return None;
            }
            v.push(pad[j]);
            proof {
                assert(v@ =~= x@ + pad@.take(j + 1));
            }
            j = j + 1;
        }
        proof {
            assert(x@.take(m as int) =~= x@);
            assert(pad@.take(j as int) =~= pad@);
            assert(v@.len() == rows * cols);
        }
        let ghost vv = v@;
        let t = transpose_vec(v, (rows, cols));
        let ranks = ranks_of(&keys);
        let mut out: Vec<usize> = Vec::new();
        let mut p: usize = 0;
        while p < cols
            invariant
                p <= cols,
                cols == kk.len(),
                rows * cols == total,
                t@ == permuted(MatrixOp::Transpose, vv, rows as int, cols as int),
                vv.len() == total,
                ranks@.len() == kk.len(),
                forall|q: int| 0 <= q < ranks@.len() ==> #[trigger] ranks@[q] as int == rank(kk, q),
                out@.len() == p * rows,
                forall|k: int|
                    0 <= k < out@.len() ==> #[trigger] out@[k] == columnar_stream(kk, vv, rows as int)[k],
            decreases cols - p,
        {
            let q = column_with_rank(&ranks, p, Ghost(kk));
            let mut r: usize = 0;
            while r < rows
                invariant
                    r <= rows,
                    p < cols,
                    q < cols,
                    q as int == column_at(kk, p as int),
                    cols == kk.len(),
                    rows * cols == total,
                    t@ == permuted(MatrixOp::Transpose, vv, rows as int, cols as int),
                    vv.len() == total,
                    out@.len() == p * rows + r,
                    forall|k: int|
                        0 <= k < out@.len() ==> #[trigger] out@[k] == columnar_stream(kk, vv, rows as int)[k],
                decreases rows - r,
            {
                proof {
                    lemma_in_matrix(q as int, r as int, cols as int, rows as int);
                    lemma_in_matrix(p as int, r as int, cols as int, rows as int);
                    assert(cols * rows == rows * cols) by (nonlinear_arith);
                    lemma_fundamental_div_mod_converse(q * rows + r, rows as int, q as int, r as int);
                    lemma_fundamental_div_mod_converse(p * rows + r, rows as int, p as int, r as int);
                    lemma_in_matrix(r as int, q as int, rows as int, cols as int);
                }
                let value = t[q * rows + r];
                out.push(value);
                r = r + 1;
            }
            proof {
                assert((p + 1) * rows == p * rows + rows) by (nonlinear_arith);
            }
            p = p + 1;
        }
        proof {
            assert(out@ =~= columnar_stream(kk, vv, rows as int));
            assert forall|k: int| 0 <= k < out@.len() implies #[trigger] out@[k] < n by {
                let pp = k / (rows as int);
                lemma_cell(k, rows as int, cols as int);
                lemma_rank(kk);
                lemma_in_matrix(k % (rows as int), column_at(kk, pp), rows as int, cols as int);
                let src = (k % (rows as int)) * (cols as int) + column_at(kk, pp);
                if src < m {
                    assert(vv[src] == x@[src]);
                } else {
                    assert(vv[src] == pad@[src - m]);
                }
            }
        }
        let symbols = symbols_of(&out, &self.alphabet);
        let filled = refill_chars(&symbols, &text, &self.alphabet);
        Some(string_of(&filled))
    }

    /// Decryption: the columns are put back in keyword order and the matrix is
    /// read row by row; a random tail added by encryption stays at the end.
    fn decipher(&self, ciphertxt: &str) -> (r: String)
        ensures
            r@ == columnar_decrypt(self.alpha(), self.keyword(), ciphertxt@),
    {
        proof {
            use_type_invariant(self);
        }
        let ghost a = self.alphabet@;
        let text = chars_of(ciphertxt);
        let (x, keys) = self.positions(&text);
        let ghost kk = widen(keys@);
        let m = x.len();
        let cols = self.keyword.len();
        let n = self.alphabet.len();
        let (rows, total) = match matrix_size(m, cols) {
            Some(size) => size,
            None => {
                return string_of(&text);
            },
        };
        let ranks = ranks_of(&keys);
        let mut joined: Vec<usize> = Vec::new();
        let mut q: usize = 0;
        while q < cols
            invariant
                q <= cols,
                cols == kk.len(),
                cols * rows == total,
                m == x@.len(),
                ranks@.len() == kk.len(),
                forall|i: int| 0 <= i < ranks@.len() ==> #[trigger] ranks@[i] as int == rank(kk, i),
                joined@.len() == q * rows,
                forall|k: int|
                    0 <= k < joined@.len() ==> #[trigger] joined@[k] == column_runs(kk, x@, rows as int, n)[k],
            decreases cols - q,
        {
            proof {
                lemma_rank(kk);
            }
            let place = ranks[q];
            let mut r: usize = 0;
            while r < rows
                invariant
                    r <= rows,
                    q < cols,
                    place < cols,
                    place as int == rank(kk, q as int),
                    cols == kk.len(),
                    cols * rows == total,
                    m == x@.len(),
                    joined@.len() == q * rows + r,
                    forall|k: int|
                        0 <= k < joined@.len() ==> #[trigger] joined@[k] == column_runs(kk, x@, rows as int, n)[k],
                decreases rows - r,
            {
                proof {
                    lemma_in_matrix(place as int, r as int, cols as int, rows as int);
                    lemma_in_matrix(q as int, r as int, cols as int, rows as int);
                    lemma_fundamental_div_mod_converse(q * rows + r, rows as int, q as int, r as int);
                }
                let src = place * rows + r;
                let value = if src < m {
                    x[src]
                } else {
                    n
                };
                joined.push(value);
                r = r + 1;
            }
            proof {
                assert((q + 1) * rows == q * rows + rows) by (nonlinear_arith);
            }
            q = q + 1;
        }
        proof {
            assert(joined@ =~= column_runs(kk, x@, rows as int, n));
        }
        let mat = transpose_vec(joined, (cols, rows));
        let stream = kept_vec(&mat, n);
        proof {
            lemma_kept_below(mat@, n as int);
        }
        let symbols = symbols_of(&stream, &self.alphabet);
        let filled = refill_chars(&symbols, &text, &self.alphabet);
        string_of(&filled)
    }
}

/// Dropping padding from a stream without padding changes nothing.
pub proof fn lemma_kept_all(s: Seq<usize>, n: int)
    requires
        forall|k: int| 0 <= k < s.len() ==> #[trigger] s[k] < n,
    ensures
        kept(s, n) == s,
    decreases s.len(),
{
    if s.len() > 0 {
        assert forall|k: int| 0 <= k < s.drop_first().len() implies #[trigger] s.drop_first()[k]
            < n by {
            assert(s.drop_first()[k] == s[k + 1]);
        }
        lemma_kept_all(s.drop_first(), n);
        assert(seq![s[0]] + s.drop_first() =~= s);
    }
}

impl Columnar {
    /// Decryption of `t`.
    pub open spec fn decrypt_spec(&self, t: Seq<char>) -> Seq<char> {
        columnar_decrypt(self.alpha(), self.keyword(), t)
    }

    /// Decrypting a columnar ciphertext gives the plaintext back, followed by the
    /// symbols of the padding that completed the last row.
    pub proof fn lemma_decrypt_encrypted(&self, t: Seq<char>, pad: Seq<usize>)
        requires
            self.inv(),
            matrix_fits(self.member_count(t), self.keyword().len() as int),
            valid_pad(pad, self.member_count(t), self.keyword().len() as int, self.alpha().len() as int),
        ensures
            self.decrypt_spec(columnar_encrypt(self.alpha(), self.keyword(), t, pad)) == t
                + pad.map_values(|i: usize| self.alpha()[i as int]),
    {
        let a = self.alpha();
        let kw = self.keyword();
        let n = a.len() as usize;
        let ni = n as int;
        let len = kw.len() as int;
        let keys = key_positions(kw, a);
        let x = index_stream(t, a);
        let m = x.len() as int;
        let rows = ceil_div(m, len);
        lemma_ceil_div(m, len);
        lemma_index_stream(t, a);
        lemma_rank(keys);
        let v = x + pad;
        assert(v.len() == len * rows);
        assert(rows * len == len * rows) by (nonlinear_arith);
        assert forall|k: int| 0 <= k < v.len() implies #[trigger] v[k] < ni by {
            if k < m {
                assert(v[k] == x[k]);
            } else {
                assert(v[k] == pad[k - m]);
            }
        }
        let c = columnar_stream(keys, v, rows);
        assert forall|k: int| 0 <= k < c.len() implies #[trigger] c[k] == v[(k % rows) * len
            + column_at(keys, k / rows)] && 0 <= (k % rows) * len + column_at(keys, k / rows) < v.len()
            && c[k] < ni by {
            lemma_cell(k, rows, len);
            lemma_in_matrix(k % rows, column_at(keys, k / rows), rows, len);
        }
        let e = c.map_values(|i: usize| a[i as int]);
        assert(all_members(e, a)) by {
            assert forall|k: int| 0 <= k < e.len() implies a.contains(#[trigger] e[k]) by {
                assert(a[c[k] as int] == e[k]);
            }
        }
        let u = refilled(e, t, a);
        assert(u == columnar_encrypt(a, kw, t, pad));
        lemma_members_of_refilled(e, t, a);
        assert(index_stream(u, a) =~= c) by {
            assert forall|k: int| 0 <= k < c.len() implies #[trigger] index_stream(u, a)[k] == c[k] by {
                lemma_index_of_at(a, c[k] as int);
            }
        }
        lemma_fundamental_div_mod_converse(len * rows + len - 1, len, rows, len - 1);
        assert(ceil_div(c.len() as int, len) == rows);
        assert(matrix_fits(c.len() as int, len));
        let runs = column_runs(keys, c, rows, n);
        let back = permuted(MatrixOp::Transpose, runs, len, rows);
        assert(back =~= v) by {
            assert forall|k: int| 0 <= k < v.len() implies #[trigger] back[k] == v[k] by {
                lemma_cell(k, len, rows);
                let q = k % len;
                let r = k / len;
                lemma_in_matrix(q, r, len, rows);
                lemma_fundamental_div_mod_converse(q * rows + r, rows, q, r);
                let src = rank(keys, q) * rows + r;
                lemma_in_matrix(rank(keys, q), r, len, rows);
                lemma_fundamental_div_mod_converse(src, rows, rank(keys, q), r);
                assert(k == r * len + q) by (nonlinear_arith)
                    requires
                        k == (k / len) * len + k % len,
                        q == k % len,
                        r == k / len,
                ;
            }
        }
        lemma_kept_all(v, ni);
        let vs = v.map_values(|i: usize| a[i as int]);
        assert(vs =~= members(t, a) + pad.map_values(|i: usize| a[i as int]));
        lemma_refill_twice_long(e, vs, t, a);
        lemma_refill_members_then(t, pad.map_values(|i: usize| a[i as int]), a);
    }

    /// Encryption keeps every non-member in place and puts a member in every
    /// member slot; the padding comes at the end.
    pub proof fn lemma_encrypt_keeps_non_members(&self, t: Seq<char>, pad: Seq<usize>)
        requires
            self.inv(),
            matrix_fits(self.member_count(t), self.keyword().len() as int) ==> valid_pad(
                pad,
                self.member_count(t),
                self.keyword().len() as int,
                self.alpha().len() as int,
            ),
        ensures
            keeps_non_members(columnar_encrypt(self.alpha(), self.keyword(), t, pad), t, self.alpha()),
            keeps_member_slots(columnar_encrypt(self.alpha(), self.keyword(), t, pad), t, self.alpha()),
            matrix_fits(self.member_count(t), self.keyword().len() as int) ==> columnar_encrypt(
                self.alpha(),
                self.keyword(),
                t,
                pad,
            ).len() == t.len() + pad_len(self.member_count(t), self.keyword().len() as int),
    {
        let a = self.alpha();
        let x = index_stream(t, a);
        let len = self.keyword().len() as int;
        lemma_index_stream(t, a);
        if matrix_fits(x.len() as int, len) {
            let rows = ceil_div(x.len() as int, len);
            lemma_ceil_div(x.len() as int, len);
            let e = columnar_stream(key_positions(self.keyword(), a), x + pad, rows).map_values(
                |i: usize| a[i as int],
            );
            lemma_refill_keeps_non_members(e, t, a);
            let keys = key_positions(self.keyword(), a);
            let v = x + pad;
            lemma_rank(keys);
            let c = columnar_stream(keys, v, rows);
            assert forall|k: int| 0 <= k < c.len() implies #[trigger] c[k] < a.len() by {
                lemma_cell(k, rows, len);
                lemma_in_matrix(k % rows, column_at(keys, k / rows), rows, len);
                let src = (k % rows) * len + column_at(keys, k / rows);
                if src < x.len() {
                    assert(v[src] == x[src]);
                } else {
                    assert(v[src] == pad[src - x.len()]);
                }
            }
            lemma_lookup_members(c, a);
            crate::common::lemma_refill_member_slots(e, t, a);
        }
    }
}

/// Decryption of `m` positions gives `m` positions: every position of the
/// ciphertext lands in exactly one cell of the matrix.
pub proof fn lemma_uncolumnar_len(keys: Seq<int>, c: Seq<usize>, n: usize)
    requires
        keys.len() > 0,
        n > 0,
        forall|k: int| 0 <= k < c.len() ==> #[trigger] c[k] < n,
    ensures
        uncolumnar_stream(keys, c, n).len() == c.len(),
{
    let len = keys.len() as int;
    let m = c.len() as int;
    let ni = n as int;
    let rows = ceil_div(m, len);
    lemma_ceil_div(m, len);
    let runs = column_runs(keys, c, rows, n);
    let back = permuted(MatrixOp::Transpose, runs, len, rows);
    lemma_kept_len(back, ni);
    if m == 0 {
        assert(len * rows == 0) by (nonlinear_arith)
            requires
                rows == 0,
        ;
        assert(open_count(back, ni) == 0) by {
            assert(back.len() == 0);
        }
    } else {
        lemma_permuted_count(MatrixOp::Transpose, runs, len, rows, ni);
        lemma_open_set(runs, ni);
        lemma_rank(keys);
        let g = |k: int| rank(keys, k / rows) * rows + k % rows;
        let open = open_set(runs, ni);
        assert forall|k: int| 0 <= k < len * rows implies (#[trigger] open.contains(k) <==> g(k)
            < m) && 0 <= g(k) < len * rows by {
            lemma_cell(k, rows, len);
            assert(len * rows == rows * len) by (nonlinear_arith);
            lemma_in_matrix(rank(keys, k / rows), k % rows, len, rows);
        }
        assert(injective_on(g, open)) by {
            assert forall|k1: int, k2: int|
                open.contains(k1) && open.contains(k2) && #[trigger] g(k1) == #[trigger] g(k2) implies k1
                == k2 by {
                lemma_cell(k1, rows, len);
                lemma_cell(k2, rows, len);
                lemma_fundamental_div_mod_converse(g(k1), rows, rank(keys, k1 / rows), k1 % rows);
                lemma_fundamental_div_mod_converse(g(k2), rows, rank(keys, k2 / rows), k2 % rows);
                assert(rank(keys, k1 / rows) == rank(keys, k2 / rows));
            }
        }
        assert(open.map(g) =~= set_int_range(0, m)) by {
            assert forall|p: int| set_int_range(0, m).contains(p) implies #[trigger] open.map(g).contains(
                p,
            ) by {
                assert(p < len * rows);
                lemma_cell(p, rows, len);
                let col = column_at(keys, p / rows);
                let k = col * rows + p % rows;
                lemma_in_matrix(col, p % rows, len, rows);
                lemma_fundamental_div_mod_converse(k, rows, col, p % rows);
                assert(g(k) == p);
                assert(open.contains(k));
            }
            assert forall|p: int| #[trigger] open.map(g).contains(p) implies set_int_range(0, m).contains(
                p,
            ) by {
                let k = choose|k: int| open.contains(k) && g(k) == p;
                lemma_cell(k, rows, len);
                assert(0 <= rank(keys, k / rows));
            }
        }
        lemma_map_size(open, set_int_range(0, m), g);
        lemma_int_range(0, m);
    }
}

impl Columnar {
    /// Decryption keeps every non-member in place, and puts a member in every
    /// member slot.
    pub proof fn lemma_decrypt_keeps_non_members(&self, t: Seq<char>)
        requires
            self.inv(),
        ensures
            self.decrypt_spec(t).len() == t.len(),
            keeps_non_members(self.decrypt_spec(t), t, self.alpha()),
            keeps_member_slots(self.decrypt_spec(t), t, self.alpha()),
    {
        let a = self.alpha();
        let x = index_stream(t, a);
        lemma_index_stream(t, a);
        if matrix_fits(x.len() as int, self.keyword().len() as int) {
            lemma_uncolumnar_len(key_positions(self.keyword(), a), x, a.len() as usize);
            let rows = ceil_div(x.len() as int, self.keyword().len() as int);
            lemma_kept_below(
                permuted(
                    MatrixOp::Transpose,
                    column_runs(key_positions(self.keyword(), a), x, rows, a.len() as usize),
                    self.keyword().len() as int,
                    rows,
                ),
                a.len() as int,
            );
            lemma_lookup_members(uncolumnar_stream(key_positions(self.keyword(), a), x, a.len() as usize), a);
            crate::common::lemma_substitution_keeps_non_members(
                t,
                uncolumnar_stream(key_positions(self.keyword(), a), x, a.len() as usize).map_values(
                    |i: usize| a[i as int],
                ),
                a,
            );
        }
    }
}

impl Cipher for Columnar {
    fn encrypt(&self, plaintext: &str) -> (r: String)
        ensures
            exists|pad: Seq<usize>|
                {
                    &&& (matrix_fits(self.member_count(plaintext@), self.keyword().len() as int)
                        ==> valid_pad(
                        pad,
                        self.member_count(plaintext@),
                        self.keyword().len() as int,
                        self.alpha().len() as int,
                    ))
                    &&& r@ == columnar_encrypt(self.alpha(), self.keyword(), plaintext@, pad)
                },
            keeps_non_members(r@, plaintext@, self.alpha()),
            keeps_member_slots(r@, plaintext@, self.alpha()),
            matrix_fits(self.member_count(plaintext@), self.keyword().len() as int) ==> r@.len()
                == plaintext@.len() + pad_len(
                self.member_count(plaintext@),
                self.keyword().len() as int,
            ),
    {
        proof {
            use_type_invariant(self);
        }
        let text = chars_of(plaintext);
        let (x, _keys) = self.positions(&text);
        let m = x.len();
        let cols = self.keyword.len();
        let n = self.alphabet.len();
        proof {
            lemma_ceil_div(m as int, cols as int);
        }
        let n_pad: usize = match matrix_size(m, cols) {
            Some((_, total)) => total - m,
            None => 0,
        };
        let mut pad: Vec<usize> = Vec::new();
        while pad.len() < n_pad
            invariant
                pad@.len() <= n_pad,
                n == self.alphabet@.len(),
                n > 0,
                forall|k: int| 0 <= k < pad@.len() ==> #[trigger] pad@[k] < n,
            decreases n_pad - pad@.len(),
        {
            pad.push(random_below(n));
        }
        match self.encrypt_with_pad(plaintext, &pad) {
            Some(s) => {
                proof {
                    self.lemma_encrypt_keeps_non_members(plaintext@, pad@);
                }
                s
            },
            None => {
                proof {
                    assert(false);
                }
                string_of(&text)
            },
        }
    }

    fn decrypt(&self, ciphertxt: &str) -> (r: String)
        ensures
            r@ == self.decrypt_spec(ciphertxt@),
            r@.len() == ciphertxt@.len(),
            keeps_non_members(r@, ciphertxt@, self.alpha()),
            keeps_member_slots(r@, ciphertxt@, self.alpha()),
    {
        proof {
            use_type_invariant(self);
            self.lemma_decrypt_keeps_non_members(ciphertxt@);
        }
        self.decipher(ciphertxt)
    }
}

} // verus!
