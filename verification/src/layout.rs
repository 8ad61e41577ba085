//! Layout of flat row-major buffers: SIMD lane counts, chunking into rows and
//! lanes, flattening, mirroring and transposing square matrices.
use vstd::prelude::*;
use vstd::arithmetic::div_mod::lemma_fundamental_div_mod_converse;
use vstd::arithmetic::div_mod::lemma_div_plus_one;
use vstd::arithmetic::div_mod::{lemma_fundamental_div_mod, lemma_mod_bound};
use vstd::arithmetic::mul::lemma_mul_inequality;

verus! {

/// Number of `f32` lanes in one SIMD register of the wide backend.
pub const LANES: usize = 4;

/// Number of chunks of `size` elements needed to hold `len` elements
/// (the last chunk may be shorter).
pub open spec fn chunk_count(len: int, size: int) -> int {
    (len + size - 1) / size
}

/// Number of SIMD registers needed to hold `n` values: `n` rounded up to the
/// next multiple of `LANES` and divided by it. The quotient and remainder are
/// taken separately, so no intermediate sum can overflow and every `n` is
/// accepted.
pub fn wide_size(n: usize) -> (r: usize)
    ensures
        r == chunk_count(n as int, LANES as int),
        r * LANES >= n,
        r * LANES < n + LANES,
{
    let whole = n / LANES;
    if n % LANES == 0 {
        whole
    } else {
        whole + 1
    }
}

/// Exclusive end index of chunk `k` when `len` elements are cut into chunks
/// of `size`: the chunk is cut short by the end of the data.
pub open spec fn chunk_end(len: int, size: int, k: int) -> int {
    if (k + 1) * size <= len {
        (k + 1) * size
    } else {
        len
    }
}

/// `s` cut into consecutive chunks of `size` elements; every chunk but the
/// last holds exactly `size` elements, the last holds what is left.
pub open spec fn chunks_spec<T>(s: Seq<T>, size: int) -> Seq<Seq<T>> {
    Seq::new(
        chunk_count(s.len() as int, size) as nat,
        |k: int| s.subrange(k * size, chunk_end(s.len() as int, size, k)),
    )
}

/// The element sequences of a sequence of vectors.
pub open spec fn seq_views<T>(rows: Seq<Vec<T>>) -> Seq<Seq<T>> {
    rows.map_values(|r: Vec<T>| r@)
}

proof fn lemma_mul_succ(k: int, size: int)
    ensures
        (k + 1) * size == k * size + size,
        (k - 1) * size == k * size - size,
{
    assert((k + 1) * size == k * size + size) by (nonlinear_arith);
    assert((k - 1) * size == k * size - size) by (nonlinear_arith);
}

/// `k` chunks are needed exactly when the first `k - 1` chunks do not
/// cover `len` elements and `k` chunks do.
proof fn lemma_chunk_count_exact(len: int, size: int, k: int)
    requires
        size > 0,
        k >= 1,
        (k - 1) * size < len,
        len <= k * size,
    ensures
        chunk_count(len, size) == k,
{
    lemma_mul_succ(k, size);
    lemma_fundamental_div_mod_converse(len + size - 1, size, k, len + size - 1 - k * size);
}

/// Every chunk starts inside the data.
proof fn lemma_chunk_start_in_range(len: int, size: int, k: int)
    requires
        size > 0,
        len >= 0,
        0 <= k < chunk_count(len, size),
    ensures
        0 <= k * size < len,
        k * size < chunk_end(len, size, k),
        chunk_end(len, size, k) <= len,
{
    let x = len + size - 1;
    let q = x / size;
    lemma_fundamental_div_mod(x, size);
    lemma_mod_bound(x, size);
    let r = x % size;
    assert(0 <= k * size < len) by (nonlinear_arith)
        requires
            x == size * q + r,
            0 <= r < size,
            0 <= k < q,
            x == len + size - 1,
            size > 0,
    ;
    lemma_mul_succ(k, size);
}

/// Cuts `v` into consecutive chunks of `size` elements, as `slice::chunks`
/// does: the last chunk holds the remaining `v.len() % size` elements when
/// `size` does not divide `v.len()`.
pub fn chunks_of<T: Copy>(v: &[T], size: usize) -> (r: Vec<Vec<T>>)
    requires
        size > 0,
    ensures
        seq_views(r@) == chunks_spec(v@, size as int),
{
    let len = v.len();
    let mut out: Vec<Vec<T>> = Vec::new();
    let mut start: usize = 0;
    while start < len
        invariant
            size > 0,
            len == v@.len(),
            start <= len,
            out.len() == 0 ==> start == 0,
            out.len() > 0 ==> start == chunk_end(len as int, size as int, out.len() - 1),
            out.len() > 0 ==> (out.len() - 1) * size < len,
            start < len ==> start == out.len() * size,
            forall|j: int|
                0 <= j < out.len() ==> #[trigger] out@[j]@ == v@.subrange(
                    j * size,
                    chunk_end(len as int, size as int, j),
                ),
        decreases len - start,
    {
        let end = if len - start > size {
            start + size
        } else {
            len
        };
        let mut chunk: Vec<T> = Vec::new();
        let mut i = start;
        while i < end
            invariant
                start <= i <= end,
                end <= len,
                len == v@.len(),
                chunk@ == v@.subrange(start as int, i as int),
            decreases end - i,
        {
            chunk.push(v[i]);
            i += 1;
        }
        proof {
            lemma_mul_succ(out.len() as int, size as int);
        }
        out.push(chunk);
        start = end;
    }
    proof {
        let k = out.len() as int;
        if len > 0 {
            lemma_mul_succ(k, size as int);
            lemma_chunk_count_exact(len as int, size as int, k);
        } else {
            lemma_fundamental_div_mod_converse(size - 1, size as int, 0, size - 1);
        }
        assert(seq_views(out@).len() == chunks_spec(v@, size as int).len());
        assert forall|j: int| 0 <= j < out.len() implies #[trigger] seq_views(out@)[j] == chunks_spec(
            v@,
            size as int,
        )[j] by {
            assert(out@[j]@ == v@.subrange(j * size, chunk_end(len as int, size as int, j)));
        }
        assert(seq_views(out@) =~= chunks_spec(v@, size as int));
    }
    out
}


/// Cutting a sequence into chunks loses and reorders nothing: concatenating
/// the chunks of `s` in order gives `s` back, whatever the chunk size.
pub proof fn lemma_chunks_flatten<T>(s: Seq<T>, size: int)
    requires
        size > 0,
    ensures
        chunks_spec(s, size).flatten() == s,
    decreases s.len(),
{
    let len = s.len() as int;
    let c = chunks_spec(s, size);
    if len == 0 {
        lemma_fundamental_div_mod_converse(size - 1, size, 0, size - 1);
        assert(c.flatten() =~= s);
    } else if len <= size {
        lemma_chunk_count_exact(len, size, 1);
        c.lemma_flatten_one_element();
        assert(c[0] =~= s);
    } else {
        let t = s.skip(size);
        lemma_chunks_flatten(t, size);
        let ct = chunks_spec(t, size);
        lemma_div_plus_one(len - 1, size);
        assert(chunk_count(len, size) == chunk_count(len - size, size) + 1);
        assert forall|k: int| 0 <= k < ct.len() implies #[trigger] c.drop_first()[k] == ct[k] by {
            lemma_mul_succ(k, size);
            lemma_mul_succ(k + 1, size);
            assert(c.drop_first()[k] == c[k + 1]);
            lemma_chunk_start_in_range(len - size, size, k);
            lemma_chunk_start_in_range(len, size, k + 1);
            assert(chunk_end(len, size, k + 1) == chunk_end(len - size, size, k) + size);
            assert((k + 1) * size == k * size + size);
            assert(c[k + 1] == s.subrange((k + 1) * size, chunk_end(len, size, k + 1)));
            assert(ct[k] == t.subrange(k * size, chunk_end(len - size, size, k)));
            assert(c[k + 1] =~= ct[k]);
        }
        assert(c.drop_first() =~= ct);
        assert(c[0] =~= s.take(size));
        assert(c.flatten() == c[0] + c.drop_first().flatten());
        assert(s.take(size) + t =~= s);
    }
}


/// Every chunk holds between one and `size` elements, so each lane chunk of a
/// row fits one SIMD register (which takes one to `LANES` values).
pub proof fn lemma_chunk_lengths<T>(s: Seq<T>, size: int, k: int)
    requires
        size > 0,
        0 <= k < chunks_spec(s, size).len(),
    ensures
        1 <= chunks_spec(s, size)[k].len() <= size,
{
    lemma_chunk_start_in_range(s.len() as int, size, k);
    lemma_mul_succ(k, size);
}

/// A row of `n` values packed into SIMD registers takes exactly
/// `wide_size(n)` registers: the chunk count for `LANES`-wide chunks.
pub proof fn lemma_lane_chunks_count<T>(s: Seq<T>)
    ensures
        chunks_spec(s, LANES as int).len() == chunk_count(s.len() as int, LANES as int),
        chunk_count(s.len() as int, LANES as int) * LANES >= s.len(),
{
}

/// Index range `start .. end` of chunk `k` when `len` items are cut into
/// chunks of `size` (as `slice::chunks` and `par_chunks_mut` cut them).
pub fn chunk_bounds(len: usize, size: usize, k: usize) -> (r: (usize, usize))
    requires
        size > 0,
        k < chunk_count(len as int, size as int),
    ensures
        r.0 == k * size,
        r.1 == chunk_end(len as int, size as int, k as int),
        r.0 < r.1 <= len,
{
    proof {
        lemma_chunk_start_in_range(len as int, size as int, k as int);
        lemma_mul_succ(k as int, size as int);
    }
    let start = k * size;
    let end = if len - start > size {
        start + size
    } else {
        len
    };
    (start, end)
}

/// The chunks cover every index once: index `i < len` lies in chunk
/// `i / size`, and in no other.
pub proof fn lemma_chunk_of_index(len: int, size: int, i: int, k: int)
    requires
        size > 0,
        0 <= i < len,
    ensures
        0 <= i / size < chunk_count(len, size),
        (i / size) * size <= i < chunk_end(len, size, i / size),
        0 <= k < chunk_count(len, size) && k * size <= i < chunk_end(len, size, k) ==> k == i
            / size,
{
    let q = i / size;
    lemma_fundamental_div_mod(i, size);
    lemma_mod_bound(i, size);
    let x = len + size - 1;
    lemma_fundamental_div_mod(x, size);
    lemma_mod_bound(x, size);
    lemma_mul_succ(q, size);
    assert(q * size == size * q) by (nonlinear_arith);
    assert(0 <= q) by (nonlinear_arith)
        requires
            i == size * q + i % size,
            0 <= i % size < size,
            0 <= i,
            size > 0,
    ;
    assert(q < chunk_count(len, size)) by (nonlinear_arith)
        requires
            i == size * q + i % size,
            0 <= i % size < size,
            i < len,
            x == len + size - 1,
            x == size * (x / size) + x % size,
            0 <= x % size < size,
            size > 0,
            chunk_count(len, size) == x / size,
    ;
    if 0 <= k < chunk_count(len, size) && k * size <= i < chunk_end(len, size, k) {
        lemma_mul_succ(k, size);
        if k < q {
            lemma_mul_inequality(k + 1, q, size);
        } else if k > q {
            lemma_mul_inequality(q + 1, k, size);
        }
    }
}

/// The rows of a flat row-major buffer with `n_cols` columns; no rows at all
/// when the buffer is empty or a dimension is zero. The row count is not
/// checked against `vec`: the rows are the `n_cols`-wide chunks of `vec`.
pub open spec fn split_rows_spec<T>(vec: Seq<T>, n_rows: int, n_cols: int) -> Seq<Seq<T>> {
    if vec.len() == 0 || n_rows == 0 || n_cols == 0 {
        Seq::empty()
    } else {
        chunks_spec(vec, n_cols)
    }
}

/// Cuts a flat row-major buffer into its rows of `n_cols` values; returns no
/// rows when `vec` is empty or either dimension is zero.
pub fn split_rows<T: Copy>(vec: &[T], n_rows: usize, n_cols: usize) -> (r: Vec<Vec<T>>)
    ensures
        seq_views(r@) == split_rows_spec(vec@, n_rows as int, n_cols as int),
{
    if vec.len() == 0 || n_rows == 0 || n_cols == 0 {
        let r: Vec<Vec<T>> = Vec::new();
        assert(seq_views(r@) =~= Seq::<Seq<T>>::empty());
        r
    } else {
        chunks_of(vec, n_cols)
    }
}

/// Concatenates the rows of `rows` in order into one flat row-major buffer.
pub fn flatten_rows<T: Copy>(rows: &[Vec<T>]) -> (r: Vec<T>)
    ensures
        r@ == seq_views(rows@).flatten(),
{
    let mut out: Vec<T> = Vec::new();
    let mut i: usize = 0;
    while i < rows.len()
        invariant
            i <= rows.len(),
            out@ == seq_views(rows@.take(i as int)).flatten(),
        decreases rows.len() - i,
    {
        let row = &rows[i];
        let mut j: usize = 0;
        let ghost prefix = out@;
        while j < row.len()
            invariant
                j <= row.len(),
                out@ == prefix + row@.take(j as int),
            decreases row.len() - j,
        {
            out.push(row[j]);
            j += 1;
            proof {
                assert(out@ =~= prefix + row@.take(j as int));
            }
        }
        proof {
            assert(row@.take(j as int) =~= row@);
            assert(seq_views(rows@.take(i + 1)) =~= seq_views(rows@.take(i as int)).push(row@));
            seq_views(rows@.take(i as int)).lemma_flatten_push(row@);
        }
        i += 1;
    }
    proof {
        assert(rows@.take(i as int) =~= rows@);
    }
    out
}

/// Flattening rows that all have `c` elements puts element `j` of row `k`
/// at offset `k * c + j`.
proof fn lemma_flatten_uniform<T>(rows: Seq<Seq<T>>, c: int)
    requires
        c >= 0,
        forall|k: int| 0 <= k < rows.len() ==> #[trigger] rows[k].len() == c,
    ensures
        rows.flatten().len() == rows.len() * c,
        forall|k: int, j: int|
            0 <= k < rows.len() && 0 <= j < c ==> rows.flatten()[k * c + j] == #[trigger] rows[k][j],
    decreases rows.len(),
{
    if rows.len() == 0 {
        assert(rows.flatten().len() == 0);
    } else {
        let init = rows.drop_last();
        let last = rows.last();
        lemma_flatten_uniform(init, c);
        assert(init.push(last) =~= rows);
        init.lemma_flatten_push(last);
        let n = rows.len() as int;
        lemma_mul_succ(n - 1, c);
        assert forall|k: int, j: int| 0 <= k < rows.len() && 0 <= j < c implies rows.flatten()[k * c
            + j] == #[trigger] rows[k][j] by {
            if k < n - 1 {
                lemma_index_bounds_rect(n - 1, c, k, j);
                assert(init[k] == rows[k]);
            } else {
                assert(rows.flatten()[k * c + j] == last[j]);
            }
        }
    }
}

/// Offsets of a `rows × c` row-major layout lie inside it, and row `k`
/// occupies offsets `k * c .. (k + 1) * c`.
proof fn lemma_index_bounds_rect(rows: int, c: int, k: int, j: int)
    requires
        0 <= k < rows,
        0 <= j < c,
    ensures
        0 <= k * c + j < rows * c,
        k * c <= k * c + j < (k + 1) * c,
        (k + 1) * c <= rows * c,
{
    lemma_mul_succ(k, c);
    lemma_mul_inequality(k + 1, rows, c);
    assert(0 <= k * c) by (nonlinear_arith)
        requires
            0 <= k,
            0 < c,
    ;
}

/// Rows of equal, non-zero length survive a round trip through one flat
/// row-major buffer: cutting the concatenation of `n` rows of `c` values
/// into rows of `c` values gives the same rows back.
pub proof fn lemma_split_flatten_roundtrip<T>(rows: Seq<Seq<T>>, c: int)
    requires
        c > 0,
        rows.len() > 0,
        forall|k: int| 0 <= k < rows.len() ==> #[trigger] rows[k].len() == c,
    ensures
        split_rows_spec(rows.flatten(), rows.len() as int, c) == rows,
{
    let n = rows.len() as int;
    let flat = rows.flatten();
    lemma_flatten_uniform(rows, c);
    lemma_index_bounds_rect(n, c, 0, 0);
    lemma_mul_succ(n, c);
    lemma_chunk_count_exact(n * c, c, n);
    let ch = chunks_spec(flat, c);
    assert forall|k: int| 0 <= k < n implies #[trigger] ch[k] == rows[k] by {
        lemma_index_bounds_rect(n, c, k, 0);
        lemma_mul_succ(k, c);
        assert(chunk_end(n * c, c, k) == (k + 1) * c);
        assert forall|j: int| 0 <= j < c implies #[trigger] ch[k][j] == rows[k][j] by {
            assert(ch[k][j] == flat[k * c + j]);
        }
        assert(ch[k] =~= rows[k]);
    }
    assert(ch =~= rows);
}

/// A flat buffer of exactly `n_rows * n_cols` values is cut into `n_rows`
/// rows of `n_cols` values each.
pub proof fn lemma_split_rows_shape<T>(vec: Seq<T>, n_rows: int, n_cols: int)
    requires
        n_rows > 0,
        n_cols > 0,
        vec.len() == n_rows * n_cols,
    ensures
        split_rows_spec(vec, n_rows, n_cols).len() == n_rows,
        forall|k: int|
            0 <= k < n_rows ==> (#[trigger] split_rows_spec(vec, n_rows, n_cols)[k]).len()
                == n_cols,
{
    lemma_index_bounds_rect(n_rows, n_cols, 0, 0);
    lemma_mul_succ(n_rows, n_cols);
    lemma_chunk_count_exact(n_rows * n_cols, n_cols, n_rows);
    assert forall|k: int| 0 <= k < n_rows implies (#[trigger] split_rows_spec(
        vec,
        n_rows,
        n_cols,
    )[k]).len() == n_cols by {
        lemma_index_bounds_rect(n_rows, n_cols, k, 0);
        lemma_mul_succ(k, n_cols);
    }
}

/// Row and column count of a list of rows when all rows have the length of
/// the first; `None` when some row's length differs. An empty list has
/// zero rows and zero columns.
pub open spec fn uniform_dims_spec<T>(rows: Seq<Seq<T>>) -> Option<(int, int)> {
    if rows.len() == 0 {
        Some((0, 0))
    } else if forall|i: int| 0 <= i < rows.len() ==> #[trigger] rows[i].len() == rows[0].len() {
        Some((rows.len() as int, rows[0].len() as int))
    } else {
        None
    }
}

/// Rows are accepted only when every row is as long as the reported column
/// count, and the reported row count is the number of rows; they are refused
/// only when some row differs in length from the first.
pub proof fn lemma_uniform_dims_law<T>(rows: Seq<Seq<T>>)
    ensures
        uniform_dims_spec(rows) matches Some((n, c)) ==> n == rows.len() && forall|i: int|
            0 <= i < rows.len() ==> #[trigger] rows[i].len() == c,
        uniform_dims_spec(rows) is None ==> exists|i: int|
            0 <= i < rows.len() && #[trigger] rows[i].len() != rows[0].len(),
{
}

/// Shape of a list of embedding rows: `(rows, columns)` when every row has
/// as many columns as the first, `None` otherwise.
pub fn uniform_dims<T>(rows: &[Vec<T>]) -> (r: Option<(usize, usize)>)
    ensures
        match r {
            Some((n, c)) => uniform_dims_spec(seq_views(rows@)) == Some((n as int, c as int)),
            None => uniform_dims_spec(seq_views(rows@)) is None,
        },
{
    if rows.len() == 0 {
        return Some((0, 0));
    }
    let cols = rows[0].len();
    let mut i: usize = 0;
    while i < rows.len()
        invariant
            0 < rows.len(),
            i <= rows.len(),
            cols == rows@[0]@.len(),
            forall|k: int| 0 <= k < i ==> #[trigger] rows@[k]@.len() == cols,
        decreases rows.len() - i,
    {
        if rows[i].len() != cols {
            proof {
                let v = seq_views(rows@);
                assert(v[i as int].len() != v[0].len());
            }
            return None;
        }
        i += 1;
    }
    proof {
        let v = seq_views(rows@);
        assert forall|k: int| 0 <= k < v.len() implies #[trigger] v[k].len() == v[0].len() by {
            assert(rows@[k]@.len() == cols);
        }
    }
    Some((rows.len(), cols))
}


/// Entry `(i, j)` of the square `n × n` matrix stored row-major in `s`.
pub open spec fn entry<T>(s: Seq<T>, n: int, i: int, j: int) -> T {
    s[i * n + j]
}

/// Distinct entries of a row-major matrix have distinct offsets.
proof fn lemma_index_injective(n: int, i: int, j: int, a: int, b: int)
    requires
        0 <= i,
        0 <= a,
        0 <= j < n,
        0 <= b < n,
        i * n + j == a * n + b,
    ensures
        i == a,
        j == b,
{
    if i < a {
        lemma_mul_succ(i, n);
        lemma_mul_inequality(i + 1, a, n);
    } else if a < i {
        lemma_mul_succ(a, n);
        lemma_mul_inequality(a + 1, i, n);
    }
}

/// Copies the strict upper triangle of the square `r × r` row-major matrix
/// `m` onto its lower triangle, so that `m` becomes symmetric; the upper
/// triangle and the diagonal are left as they were.
pub fn mirror_upper_to_lower<T: Copy>(m: &mut Vec<T>, r: usize)
    requires
        old(m).len() == r * r,
    ensures
        final(m).len() == r * r,
        forall|i: int, j: int|
            0 <= i <= j < r ==> #[trigger] entry(final(m)@, r as int, i, j) == entry(
                old(m)@,
                r as int,
                i,
                j,
            ),
        forall|i: int, j: int|
            0 <= j < i < r ==> #[trigger] entry(final(m)@, r as int, i, j) == entry(
                old(m)@,
                r as int,
                j,
                i,
            ),
{
    let ghost orig = m@;
    let ghost n = r as int;
    let total = m.len();
    let mut i: usize = 0;
    while i < r
        invariant
            total == n * n,
            i <= r,
            m@.len() == n * n,
            orig.len() == n * n,
            n == r as int,
            forall|a: int, b: int|
                0 <= a <= b < n ==> #[trigger] entry(m@, n, a, b) == entry(orig, n, a, b),
            forall|a: int, b: int|
                0 <= b < a < n && b < i ==> #[trigger] entry(m@, n, a, b) == entry(orig, n, b, a),
            forall|a: int, b: int|
                0 <= b < a < n && b >= i ==> #[trigger] entry(m@, n, a, b) == entry(orig, n, a, b),
        decreases r - i,
    {
        let mut j: usize = i + 1;
        while j < r
            invariant
                total == n * n,
                i < r,
                i + 1 <= j <= r,
                m@.len() == n * n,
                orig.len() == n * n,
                n == r as int,
                forall|a: int, b: int|
                    0 <= a <= b < n ==> #[trigger] entry(m@, n, a, b) == entry(orig, n, a, b),
                forall|a: int, b: int|
                    0 <= b < a < n && (b < i || (b == i && a < j)) ==> #[trigger] entry(
                        m@,
                        n,
                        a,
                        b,
                    ) == entry(orig, n, b, a),
                forall|a: int, b: int|
                    0 <= b < a < n && (b > i || (b == i && a >= j)) ==> #[trigger] entry(
                        m@,
                        n,
                        a,
                        b,
                    ) == entry(orig, n, a, b),
            decreases r - j,
        {
            proof {
                lemma_index_bounds_rect(n, n, i as int, j as int);
                lemma_index_bounds_rect(n, n, j as int, i as int);
            }
            let upper = i * r + j;
            let lower = j * r + i;
            let v = m[upper];
            assert(entry(m@, n, i as int, j as int) == v);
            assert(v == entry(orig, n, i as int, j as int));
            let ghost before = m@;
            m.set(lower, v);
            proof {
                assert forall|a: int, b: int| 0 <= a < n && 0 <= b < n && (a != j || b != i) implies
                    #[trigger] entry(m@, n, a, b) == entry(before, n, a, b) by {
                    lemma_index_bounds_rect(n, n, a, b);
                    if a * n + b == j * n + i {
                        lemma_index_injective(n, a, b, j as int, i as int);
                    }
                }
                assert(entry(m@, n, j as int, i as int) == v);
            }
            j += 1;
        }
        i += 1;
    }
}

/// Entry `(i, j)` of the square matrix lies on a flagged row or column.
pub open spec fn on_flagged_line(flagged: Seq<bool>, i: int, j: int) -> bool {
    flagged[i] || flagged[j]
}

/// Sets to `zero` every entry of the square `r × r` row-major matrix `m` that
/// lies on the row or the column of a flagged index; the other entries are
/// left as they were.
pub fn clear_flagged_lines<T: Copy>(m: &mut Vec<T>, r: usize, flagged: &[bool], zero: T)
    requires
        old(m).len() == r * r,
        flagged@.len() == r,
    ensures
        final(m).len() == r * r,
        forall|i: int, j: int|
            0 <= i < r && 0 <= j < r ==> #[trigger] entry(final(m)@, r as int, i, j) == (if on_flagged_line(
                flagged@,
                i,
                j,
            ) {
                zero
            } else {
                entry(old(m)@, r as int, i, j)
            }),
{
    let ghost orig = m@;
    let ghost n = r as int;
    let total = m.len();
    let mut i: usize = 0;
    while i < r
        invariant
            total == n * n,
            i <= r,
            n == r as int,
            flagged@.len() == n,
            m@.len() == n * n,
            orig.len() == n * n,
            forall|a: int, b: int|
                0 <= a < n && 0 <= b < n ==> #[trigger] entry(m@, n, a, b) == (if (flagged@[a] && a
                    < i) || (flagged@[b] && b < i) {
                    zero
                } else {
                    entry(orig, n, a, b)
                }),
        decreases r - i,
    {
        if flagged[i] {
            let mut j: usize = 0;
            while j < r
                invariant
                    total == n * n,
                    i < r,
                    j <= r,
                    n == r as int,
                    flagged@.len() == n,
                    flagged@[i as int],
                    m@.len() == n * n,
                    orig.len() == n * n,
                    forall|a: int, b: int|
                        0 <= a < n && 0 <= b < n ==> #[trigger] entry(m@, n, a, b) == (if (flagged@[a]
                            && a < i) || (flagged@[b] && b < i) || (a == i && b < j) || (b == i && a
                            < j) {
                            zero
                        } else {
                            entry(orig, n, a, b)
                        }),
                decreases r - j,
            {
                proof {
                    lemma_index_bounds_rect(n, n, i as int, j as int);
                    lemma_index_bounds_rect(n, n, j as int, i as int);
                }
                let ghost before = m@;
                m.set(i * r + j, zero);
                let ghost middle = m@;
                m.set(j * r + i, zero);
                proof {
                    assert forall|a: int, b: int| 0 <= a < n && 0 <= b < n implies #[trigger] entry(
                        m@,
                        n,
                        a,
                        b,
                    ) == (if (a == i && b == j) || (a == j && b == i) {
                        zero
                    } else {
                        entry(before, n, a, b)
                    }) by {
                        lemma_index_bounds_rect(n, n, a, b);
                        if a * n + b == i * n + j {
                            lemma_index_injective(n, a, b, i as int, j as int);
                        }
                        if a * n + b == j * n + i {
                            lemma_index_injective(n, a, b, j as int, i as int);
                        }
                    }
                }
                j += 1;
            }
        }
        i += 1;
    }
}

/// The transpose of the square `n × n` row-major matrix `m`: entry `(i, j)`
/// of the result is entry `(j, i)` of `m`.
pub fn transpose_square<T: Copy>(m: &[T], n: usize) -> (t: Vec<T>)
    requires
        m@.len() == n * n,
    ensures
        t@.len() == n * n,
        forall|i: int, j: int|
            0 <= i < n && 0 <= j < n ==> #[trigger] entry(t@, n as int, i, j) == entry(
                m@,
                n as int,
                j,
                i,
            ),
{
    let ghost nn = n as int;
    let total = m.len();
    let mut out: Vec<T> = Vec::new();
    let mut i: usize = 0;
    while i < n
        invariant
            total == nn * nn,
            i <= n,
            nn == n as int,
            m@.len() == nn * nn,
            out@.len() == i * nn,
            forall|a: int, b: int|
                0 <= a < i && 0 <= b < nn ==> #[trigger] entry(out@, nn, a, b) == entry(
                    m@,
                    nn,
                    b,
                    a,
                ),
        decreases n - i,
    {
        let mut j: usize = 0;
        while j < n
            invariant
                total == nn * nn,
                i < n,
                j <= n,
                nn == n as int,
                m@.len() == nn * nn,
                out@.len() == i * nn + j,
                forall|a: int, b: int|
                    0 <= a < i && 0 <= b < nn ==> #[trigger] entry(out@, nn, a, b) == entry(
                        m@,
                        nn,
                        b,
                        a,
                    ),
                forall|b: int| 0 <= b < j ==> #[trigger] entry(out@, nn, i as int, b) == entry(m@, nn, b, i as int),
            decreases n - j,
        {
            proof {
                lemma_index_bounds_rect(nn, nn, j as int, i as int);
                lemma_index_bounds_rect(nn, nn, i as int, j as int);
            }
            let v = m[j * n + i];
            let ghost before = out@;
            out.push(v);
            proof {
                assert forall|a: int, b: int| 0 <= a < i && 0 <= b < nn implies #[trigger] entry(out@, nn, a, b) == entry(
                    m@,
                    nn,
                    b,
                    a,
                ) by {
                    lemma_index_bounds_rect(nn, nn, a, b);
                    lemma_mul_inequality(a + 1, i as int, nn);
                    assert(entry(out@, nn, a, b) == entry(before, nn, a, b));
                }
                assert forall|b: int| 0 <= b < j + 1 implies #[trigger] entry(out@, nn, i as int, b) == entry(m@, nn, b, i as int) by {
                    if b < j {
                        assert(entry(out@, nn, i as int, b) == entry(before, nn, i as int, b));
                    }
                }
            }
            j += 1;
        }
        proof {
            lemma_mul_succ(i as int, nn);
        }
        i += 1;
    }
    proof {
        assert(out@.len() == nn * nn);
    }
    out
}

/// Mirroring yields a symmetric matrix.
pub proof fn lemma_mirror_symmetric<T>(before: Seq<T>, after: Seq<T>, n: int)
    requires
        forall|i: int, j: int|
            0 <= i <= j < n ==> #[trigger] entry(after, n, i, j) == entry(before, n, i, j),
        forall|i: int, j: int|
            0 <= j < i < n ==> #[trigger] entry(after, n, i, j) == entry(before, n, j, i),
    ensures
        forall|i: int, j: int|
            0 <= i < n && 0 <= j < n ==> #[trigger] entry(after, n, i, j) == entry(after, n, j, i),
{
    assert forall|i: int, j: int| 0 <= i < n && 0 <= j < n implies #[trigger] entry(after, n, i, j)
        == entry(after, n, j, i) by {
        if i <= j {
            assert(entry(after, n, j, i) == entry(before, n, i, j) || i == j);
        } else {
            assert(entry(after, n, i, j) == entry(before, n, j, i));
        }
    }
}

/// Transposing twice gives the matrix back.
pub proof fn lemma_transpose_involution<T>(m: Seq<T>, t: Seq<T>, tt: Seq<T>, n: int)
    requires
        forall|i: int, j: int|
            0 <= i < n && 0 <= j < n ==> #[trigger] entry(t, n, i, j) == entry(m, n, j, i),
        forall|i: int, j: int|
            0 <= i < n && 0 <= j < n ==> #[trigger] entry(tt, n, i, j) == entry(t, n, j, i),
    ensures
        forall|i: int, j: int|
            0 <= i < n && 0 <= j < n ==> #[trigger] entry(tt, n, i, j) == entry(m, n, i, j),
{
    assert forall|i: int, j: int| 0 <= i < n && 0 <= j < n implies #[trigger] entry(tt, n, i, j)
        == entry(m, n, i, j) by {
        assert(entry(t, n, j, i) == entry(m, n, i, j));
    }
}

} // verus!
