//! Luma comparison primitives: mean, median and pairwise-gradient boolean
//! sequences over a flat buffer of 8-bit grayscale samples.

use vstd::prelude::*;
use vstd::multiset::Multiset;
use vstd::relations::{sorted_by, total_ordering};
use vstd::seq_lib::lemma_sorted_unique;

verus! {

/// Sum of all samples of a buffer.
pub open spec fn sum_of(s: Seq<u8>) -> int
    decreases s.len(),
{
    if s.len() == 0 {
        0
    } else {
        sum_of(s.drop_last()) + s.last()
    }
}

/// The truncating arithmetic mean of a non-empty buffer.
pub open spec fn mean_of(s: Seq<u8>) -> int
    recommends
        s.len() > 0,
{
    sum_of(s) / s.len() as int
}

/// One boolean per sample: whether it is at least the mean of the buffer.
pub open spec fn mean_bits_of(s: Seq<u8>) -> Seq<bool> {
    Seq::new(s.len(), |i: int| s[i] as int >= mean_of(s))
}

/// The ordering by which sample buffers are sorted.
pub open spec fn sample_le() -> spec_fn(u8, u8) -> bool {
    |a: u8, b: u8| a <= b
}

/// The sorted rearrangement of a buffer.
pub open spec fn sorted_of(s: Seq<u8>) -> Seq<u8> {
    s.sort_by(sample_le())
}

/// The median of a non-empty buffer: the middle element of the sorted
/// buffer, or the truncating average of the two middle elements when the
/// length is even.
pub open spec fn median_of(s: Seq<u8>) -> int
    recommends
        s.len() > 0,
{
    let t = sorted_of(s);
    let mid = s.len() as int / 2;
    if s.len() % 2 == 0 {
        (t[mid - 1] as int + t[mid] as int) / 2
    } else {
        t[mid] as int
    }
}

/// One boolean per sample: whether it is at least the median of the buffer.
pub open spec fn median_bits_of(s: Seq<u8>) -> Seq<bool> {
    Seq::new(s.len(), |i: int| s[i] as int >= median_of(s))
}

/// The sample ordering is a total ordering.
pub proof fn lemma_sample_le_total()
    ensures
        total_ordering(sample_le()),
{
}

/// A buffer's sum lies between zero and 255 per sample.
pub proof fn lemma_sum_bounds(s: Seq<u8>)
    ensures
        0 <= sum_of(s) <= 255 * s.len(),
    decreases s.len(),
{
    if s.len() > 0 {
        lemma_sum_bounds(s.drop_last());
    }
}

/// Extending a prefix by one sample adds that sample to the prefix sum.
proof fn lemma_sum_take_step(s: Seq<u8>, i: int)
    requires
        0 <= i < s.len(),
    ensures
        sum_of(s.take(i + 1)) == sum_of(s.take(i)) + s[i],
{
    assert(s.take(i + 1).drop_last() =~= s.take(i));
    assert(s.take(i + 1).last() == s[i]);
}

/// Removing one sample takes exactly its value out of the sum.
proof fn lemma_sum_remove(s: Seq<u8>, j: int)
    requires
        0 <= j < s.len(),
    ensures
        sum_of(s.remove(j)) == sum_of(s) - s[j],
    decreases s.len(),
{
    if j == s.len() - 1 {
        assert(s.remove(j) =~= s.drop_last());
    } else {
        assert(s.remove(j).drop_last() =~= s.drop_last().remove(j));
        assert(s.remove(j).last() == s.last());
        lemma_sum_remove(s.drop_last(), j);
    }
}

/// The sum of a buffer depends only on which samples it holds, not on
/// their order.
pub proof fn lemma_sum_permutation(a: Seq<u8>, b: Seq<u8>)
    requires
        a.to_multiset() == b.to_multiset(),
    ensures
        sum_of(a) == sum_of(b),
    decreases a.len(),
{
    broadcast use vstd::seq_lib::group_to_multiset_ensures;

    if a.len() == 0 {
        a.to_multiset_ensures();
        b.to_multiset_ensures();
        assert(a.to_multiset().len() == b.to_multiset().len());
        assert(b.len() == 0);
    } else {
        let x = a.last();
        assert(a.contains(x));
        assert(b.to_multiset().count(x) > 0);
        assert(b.contains(x));
        let j = choose|j: int| 0 <= j < b.len() && b[j] == x;
        assert(a.drop_last() =~= a.remove(a.len() - 1));
        lemma_sum_remove(b, j);
        lemma_sum_permutation(a.drop_last(), b.remove(j));
    }
}

/// The sorted rearrangement is sorted, holds the same samples, and has
/// the same length.
pub proof fn lemma_sorted_of_ensures(s: Seq<u8>)
    ensures
        sorted_by(sorted_of(s), sample_le()),
        sorted_of(s).to_multiset() == s.to_multiset(),
        sorted_of(s).len() == s.len(),
{
    broadcast use vstd::seq_lib::group_to_multiset_ensures;

    lemma_sample_le_total();
    s.lemma_sort_by_ensures(sample_le());
    assert(sorted_of(s).to_multiset().len() == s.to_multiset().len());
}

/// Any sorted buffer holding the same samples as `s` is its sorted
/// rearrangement: sorting is canonical.
pub proof fn lemma_sorted_is_sorted_of(s: Seq<u8>, t: Seq<u8>)
    requires
        sorted_by(t, sample_le()),
        t.to_multiset() == s.to_multiset(),
    ensures
        t == sorted_of(s),
{
    lemma_sample_le_total();
    lemma_sorted_of_ensures(s);
    lemma_sorted_unique(t, sorted_of(s), sample_le());
}

/// Selection sort into a fresh vector.
fn sort_u8(v: &Vec<u8>) -> (r: Vec<u8>)
    ensures
        r@ == sorted_of(v@),
        r@.len() == v@.len(),
{
    broadcast use vstd::seq_lib::group_to_multiset_ensures;
    broadcast use vstd::multiset::group_multiset_axioms;

    let mut rest: Vec<u8> = Vec::new();
    let mut i: usize = 0;
    while i < v.len()
        invariant
            i <= v@.len(),
            rest@.len() == i,
            forall|j: int| 0 <= j < i ==> rest@[j] == v@[j],
        decreases v@.len() - i,
    {
        rest.push(v[i]);
        i = i + 1;
    }
    proof {
        assert(rest@ =~= v@);
    }
    let mut out: Vec<u8> = Vec::new();
    while rest.len() > 0
        invariant
            out@.to_multiset().add(rest@.to_multiset()) == v@.to_multiset(),
            sorted_by(out@, sample_le()),
            forall|x: int, y: int|
                0 <= x < out@.len() && 0 <= y < rest@.len() ==> out@[x] <= rest@[y],
        decreases rest@.len(),
    {
        let mut m: usize = 0;
        let mut t: usize = 1;
        while t < rest.len()
            invariant
                m < t <= rest@.len(),
                rest@.len() > 0,
                forall|y: int| 0 <= y < t ==> rest@[m as int] <= rest@[y],
            decreases rest@.len() - t,
        {
            if rest[t] < rest[m] {
                m = t;
            }
            t = t + 1;
        }
        let ghost old_out = out@;
        let ghost old_rest = rest@;
        let x = rest.remove(m);
        out.push(x);
        proof {
            broadcast use vstd::seq_lib::group_to_multiset_ensures;
            broadcast use vstd::multiset::group_multiset_axioms;

            assert(out@ == old_out.push(x));
            assert(rest@ == old_rest.remove(m as int));
            assert(old_rest.contains(x));
            assert(old_rest.to_multiset().count(x) > 0);
            assert(out@.to_multiset().add(rest@.to_multiset()) =~= old_out.to_multiset().add(
                old_rest.to_multiset(),
            ));
            assert forall|p: int, q: int| 0 <= p < q < out@.len() implies sample_le()(
                out@[p],
                out@[q],
            ) by {
                if q == out@.len() - 1 {
                    assert(out@[p] == old_out[p]);
                    assert(out@[q] == x);
                }
            }
            assert forall|p: int, y: int|
                0 <= p < out@.len() && 0 <= y < rest@.len() implies out@[p] <= rest@[y] by {
                assert(rest@[y] == if y < m { old_rest[y] } else { old_rest[y + 1] });
                if p < out@.len() - 1 {
                    assert(out@[p] == old_out[p]);
                } else {
                    assert(out@[p] == x);
                    assert(x == old_rest[m as int]);
                }
            }
        }
    }
    proof {
        broadcast use vstd::seq_lib::group_to_multiset_ensures;
        broadcast use vstd::multiset::group_multiset_axioms;

        assert(rest@.to_multiset() =~= Multiset::<u8>::empty()) by {
            assert(rest@.to_multiset().len() == 0);
        }
        assert(out@.to_multiset() =~= v@.to_multiset());
        assert(out@.to_multiset().len() == v@.to_multiset().len());
        lemma_sorted_is_sorted_of(v@, out@);
    }
    out
}

/// Mean hash: one bit per sample, set exactly when the sample is at
/// least the truncating mean of the whole buffer. The buffer must be
/// small enough for its sample sum to fit the 64-bit accumulator.
pub fn mean_hash_u8(luma: &Vec<u8>) -> (r: Vec<bool>)
    requires
        luma@.len() > 0,
        255 * luma@.len() <= u64::MAX,
    ensures
        r@ == mean_bits_of(luma@),
        r@.len() == luma@.len(),
{
    let n = luma.len();
    let mut total: u64 = 0;
    let mut i: usize = 0;
    while i < n
        invariant
            i <= n,
            n == luma@.len(),
            255 * luma@.len() <= u64::MAX,
            total == sum_of(luma@.take(i as int)),
            total <= 255 * i,
        decreases n - i,
    {
        proof {
            lemma_sum_take_step(luma@, i as int);
        }
        total = total + (luma[i] as u64);
        i = i + 1;
    }
    proof {
        assert(luma@.take(n as int) =~= luma@);
        lemma_sum_bounds(luma@);
        vstd::arithmetic::div_mod::lemma_div_is_ordered(
            sum_of(luma@),
            255 * (n as int),
            n as int,
        );
        vstd::arithmetic::div_mod::lemma_div_by_multiple(255, n as int);
        vstd::arithmetic::div_mod::lemma_div_pos_is_pos(sum_of(luma@), n as int);
    }
    let mean_v: u8 = (total / (n as u64)) as u8;
    proof {
        assert(mean_v as int == mean_of(luma@));
    }
    let mut r: Vec<bool> = Vec::new();
    let mut i: usize = 0;
    while i < n
        invariant
            i <= n,
            n == luma@.len(),
            r@.len() == i,
            mean_v as int == mean_of(luma@),
            forall|j: int| 0 <= j < i ==> r@[j] == (luma@[j] as int >= mean_of(luma@)),
        decreases n - i,
    {
        r.push(luma[i] >= mean_v);
        i = i + 1;
    }
    proof {
        assert(r@ =~= mean_bits_of(luma@));
    }
    r
}

/// The median of a non-empty buffer, computed by sorting a private copy.
pub fn median_u8(numbers: &Vec<u8>) -> (r: u8)
    requires
        numbers@.len() > 0,
    ensures
        r as int == median_of(numbers@),
{
    let sorted = sort_u8(numbers);
    let mid = sorted.len() / 2;
    if sorted.len() % 2 == 0 {
        let a = sorted[mid - 1];
        let b = sorted[mid];
        (((a as u16) + (b as u16)) / 2) as u8
    } else {
        sorted[mid]
    }
}

/// Median hash: one bit per sample, set exactly when the sample is at
/// least the median of the whole buffer.
pub fn median_hash_u8(luma: &Vec<u8>) -> (r: Vec<bool>)
    requires
        luma@.len() > 0,
    ensures
        r@ == median_bits_of(luma@),
        r@.len() == luma@.len(),
{
    let n = luma.len();
    let med = median_u8(luma);
    let mut r: Vec<bool> = Vec::new();
    let mut i: usize = 0;
    while i < n
        invariant
            i <= n,
            n == luma@.len(),
            r@.len() == i,
            med as int == median_of(luma@),
            forall|j: int| 0 <= j < i ==> r@[j] == (luma@[j] as int >= median_of(luma@)),
        decreases n - i,
    {
        r.push(luma[i] >= med);
        i = i + 1;
    }
    proof {
        assert(r@ =~= median_bits_of(luma@));
    }
    r
}

/// Pairwise comparisons of adjacent samples of one row or column:
/// `previous < current`, one boolean per adjacent pair.
pub open spec fn grads_of(row: Seq<u8>) -> Seq<bool> {
    if row.len() == 0 {
        Seq::empty()
    } else {
        Seq::new((row.len() - 1) as nat, |i: int| row[i] < row[i + 1])
    }
}

/// Row-wise gradient: the adjacent comparisons of each chunk of `stride`
/// consecutive samples, chunk after chunk.
pub open spec fn row_gradient_of(s: Seq<u8>, stride: int) -> Seq<bool>
    recommends
        stride >= 1,
    decreases s.len(),
{
    if s.len() == 0 || stride < 1 {
        Seq::empty()
    } else if s.len() <= stride {
        grads_of(s)
    } else {
        grads_of(s.take(stride)) + row_gradient_of(s.skip(stride), stride)
    }
}

/// The samples of column `c` of a row-major buffer, top to bottom.
pub open spec fn column_of(s: Seq<u8>, stride: int, c: int) -> Seq<u8>
    recommends
        stride >= 1,
        0 <= c < stride,
{
    Seq::new((s.len() as int / stride) as nat, |i: int| s[i * stride + c])
}

/// Column-wise gradients of the columns from `c` on, left to right.
pub open spec fn col_gradient_from(s: Seq<u8>, stride: int, c: int) -> Seq<bool>
    decreases stride - c,
{
    if c < 0 || c >= stride {
        Seq::empty()
    } else {
        grads_of(column_of(s, stride, c)) + col_gradient_from(s, stride, c + 1)
    }
}

/// Vertical gradient: the adjacent comparisons down each column, columns
/// left to right.
pub open spec fn col_gradient_of(s: Seq<u8>, stride: int) -> Seq<bool> {
    col_gradient_from(s, stride, 0)
}

/// Double gradient: the row gradients followed by the column gradients of
/// the same buffer.
pub open spec fn double_gradient_of(s: Seq<u8>, stride: int) -> Seq<bool> {
    row_gradient_of(s, stride) + col_gradient_of(s, stride)
}

/// A buffer that is a whole number of rows and not empty has room for a
/// full row at every row start.
proof fn lemma_chunk_fits(pos: int, n: int, stride: int)
    requires
        stride >= 1,
        0 <= pos < n,
        pos % stride == 0,
        n % stride == 0,
    ensures
        pos + stride <= n,
        (pos + stride) % stride == 0,
{
    let q1 = pos / stride;
    let q2 = n / stride;
    vstd::arithmetic::div_mod::lemma_fundamental_div_mod(pos, stride);
    vstd::arithmetic::div_mod::lemma_fundamental_div_mod(n, stride);
    assert(q1 < q2) by (nonlinear_arith)
        requires
            stride >= 1,
            stride * q1 < stride * q2,
    ;
    assert(stride * (q1 + 1) <= stride * q2) by (nonlinear_arith)
        requires
            stride >= 1,
            q1 + 1 <= q2,
    ;
    assert(pos + stride == (q1 + 1) * stride + 0) by (nonlinear_arith)
        requires
            pos == stride * q1,
    ;
    vstd::arithmetic::div_mod::lemma_fundamental_div_mod_converse_mod(
        pos + stride,
        stride,
        q1 + 1,
        0,
    );
}

/// Unfolding the row gradient at a row start: the comparisons of that row
/// followed by the row gradient of the remaining rows.
proof fn lemma_row_gradient_step(s: Seq<u8>, stride: int, pos: int)
    requires
        stride >= 1,
        0 <= pos,
        pos + stride <= s.len(),
    ensures
        row_gradient_of(s.skip(pos), stride) == grads_of(s.subrange(pos, pos + stride))
            + row_gradient_of(s.skip(pos + stride), stride),
{
    let rem = s.skip(pos);
    if s.len() == pos + stride {
        assert(rem =~= s.subrange(pos, pos + stride));
        assert(s.skip(pos + stride) =~= Seq::<u8>::empty());
        assert(row_gradient_of(s.skip(pos + stride), stride) == Seq::<bool>::empty());
        assert(grads_of(s.subrange(pos, pos + stride)) + Seq::<bool>::empty() =~= grads_of(
            s.subrange(pos, pos + stride),
        ));
    } else {
        assert(rem.take(stride) =~= s.subrange(pos, pos + stride));
        assert(rem.skip(stride) =~= s.skip(pos + stride));
    }
}

/// The row gradient of a whole number of rows has one comparison fewer
/// than `stride` per row.
pub proof fn lemma_row_gradient_len(s: Seq<u8>, stride: int)
    requires
        stride >= 1,
        s.len() as int % stride == 0,
    ensures
        row_gradient_of(s, stride).len() == (s.len() as int / stride) * (stride - 1),
    decreases s.len(),
{
    let n = s.len() as int;
    let q = n / stride;
    vstd::arithmetic::div_mod::lemma_fundamental_div_mod(n, stride);
    if n == 0 {
        assert(q == 0) by (nonlinear_arith)
            requires
                stride >= 1,
                0 == stride * q,
        ;
    } else if n <= stride {
        assert(n == stride) by (nonlinear_arith)
            requires
                stride >= 1,
                0 < n <= stride,
                n == stride * q,
        ;
        assert(q == 1) by (nonlinear_arith)
            requires
                stride >= 1,
                stride == stride * q,
        ;
    } else {
        lemma_chunk_fits(0, n, stride);
        let rest = s.skip(stride);
        assert(rest.len() == n - stride);
        assert(n - stride == (q - 1) * stride + 0) by (nonlinear_arith)
            requires
                n == stride * q,
        ;
        vstd::arithmetic::div_mod::lemma_fundamental_div_mod_converse_mod(
            n - stride,
            stride,
            q - 1,
            0,
        );
        vstd::arithmetic::div_mod::lemma_fundamental_div_mod_converse_div(
            n - stride,
            stride,
            q - 1,
            0,
        );
        lemma_row_gradient_len(rest, stride);
        assert((q - 1) * (stride - 1) + (stride - 1) == q * (stride - 1)) by (nonlinear_arith);
    }
}

/// Each column of a whole number of rows has `rows` samples, so the
/// column gradients from column `c` on count one comparison fewer than
/// `rows` per remaining column.
pub proof fn lemma_col_gradient_len(s: Seq<u8>, stride: int, c: int)
    requires
        stride >= 1,
        0 <= c <= stride,
        s.len() as int % stride == 0,
        s.len() > 0,
    ensures
        col_gradient_from(s, stride, c).len() == (stride - c) * (s.len() as int / stride - 1),
    decreases stride - c,
{
    let rows = s.len() as int / stride;
    vstd::arithmetic::div_mod::lemma_fundamental_div_mod(s.len() as int, stride);
    assert(rows >= 1) by (nonlinear_arith)
        requires
            stride >= 1,
            s.len() > 0,
            s.len() == stride * rows,
    ;
    if c < stride {
        lemma_col_gradient_len(s, stride, c + 1);
        assert(grads_of(column_of(s, stride, c)).len() == rows - 1);
        assert((rows - 1) + (stride - c - 1) * (rows - 1) == (stride - c) * (rows - 1))
            by (nonlinear_arith);
    } else {
        assert(col_gradient_from(s, stride, c).len() == 0);
        assert((stride - c) * (rows - 1) == 0) by (nonlinear_arith)
            requires
                c == stride,
        ;
    }
}

/// The guts of the gradient hash: the adjacent comparisons of a single
/// row (or column) of samples.
pub fn gradient_hash_impl(row: &Vec<u8>) -> (r: Vec<bool>)
    ensures
        r@ == grads_of(row@),
{
    let n = row.len();
    let mut r: Vec<bool> = Vec::new();
    if n == 0 {
        proof {
            assert(r@ =~= grads_of(row@));
        }
        return r;
    }
    let mut i: usize = 1;
    while i < n
        invariant
            1 <= i <= n,
            n == row@.len(),
            r@.len() == i - 1,
            forall|j: int| 0 <= j < i - 1 ==> r@[j] == (row@[j] < row@[j + 1]),
        decreases n - i,
    {
        r.push(row[i - 1] < row[i]);
        i = i + 1;
    }
    proof {
        assert(r@ =~= grads_of(row@));
    }
    r
}

/// Row-wise gradient hash: for each row of `rowstride` samples, one bit
/// per adjacent pair, set when the earlier sample is strictly below the
/// later one. Rows are compared independently.
pub fn gradient_hash(luma: &Vec<u8>, rowstride: usize) -> (r: Vec<bool>)
    requires
        rowstride >= 1,
        luma@.len() > 0,
        luma@.len() as int % (rowstride as int) == 0,
    ensures
        r@ == row_gradient_of(luma@, rowstride as int),
        r@.len() == (luma@.len() as int / (rowstride as int)) * (rowstride - 1),
{
    let n = luma.len();
    let mut out: Vec<bool> = Vec::new();
    let mut pos: usize = 0;
    proof {
        assert(luma@.skip(0) =~= luma@);
        assert(Seq::<bool>::empty() + row_gradient_of(luma@, rowstride as int) =~= row_gradient_of(
            luma@,
            rowstride as int,
        ));
    }
    while pos < n
        invariant
            0 <= pos <= n,
            n == luma@.len(),
            rowstride >= 1,
            (pos as int) % (rowstride as int) == 0,
            (n as int) % (rowstride as int) == 0,
            out@ + row_gradient_of(luma@.skip(pos as int), rowstride as int) == row_gradient_of(
                luma@,
                rowstride as int,
            ),
        decreases n - pos,
    {
        proof {
            lemma_chunk_fits(pos as int, n as int, rowstride as int);
        }
        let mut row: Vec<u8> = Vec::new();
        let mut j: usize = 0;
        while j < rowstride
            invariant
                0 <= j <= rowstride,
                pos + rowstride <= n,
                n == luma@.len(),
                row@.len() == j,
                forall|t: int| 0 <= t < j ==> row@[t] == luma@[pos + t],
            decreases rowstride - j,
        {
            row.push(luma[pos + j]);
            j = j + 1;
        }
        proof {
            assert(row@ =~= luma@.subrange(pos as int, pos as int + rowstride as int));
        }
        let mut g = gradient_hash_impl(&row);
        let ghost old_out = out@;
        out.append(&mut g);
        proof {
            lemma_row_gradient_step(luma@, rowstride as int, pos as int);
            assert(out@ + row_gradient_of(luma@.skip(pos as int + rowstride as int), rowstride as int)
                =~= old_out + row_gradient_of(luma@.skip(pos as int), rowstride as int));
        }
        pos = pos + rowstride;
    }
    proof {
        assert(luma@.skip(n as int) =~= Seq::<u8>::empty());
        assert(row_gradient_of(luma@.skip(n as int), rowstride as int) == Seq::<bool>::empty());
        assert(out@ + Seq::<bool>::empty() =~= out@);
        lemma_row_gradient_len(luma@, rowstride as int);
    }
    out
}

/// Vertical gradient hash: the same adjacent comparison applied down each
/// column of the row-major buffer, columns left to right.
pub fn vert_gradient_hash(luma: &Vec<u8>, rowstride: usize) -> (r: Vec<bool>)
    requires
        rowstride >= 1,
        luma@.len() > 0,
        luma@.len() as int % (rowstride as int) == 0,
    ensures
        r@ == col_gradient_of(luma@, rowstride as int),
        r@.len() == (rowstride as int) * (luma@.len() as int / (rowstride as int) - 1),
{
    let n = luma.len();
    let rows = n / rowstride;
    proof {
        vstd::arithmetic::div_mod::lemma_fundamental_div_mod(n as int, rowstride as int);
        assert(rows >= 1) by (nonlinear_arith)
            requires
                rowstride >= 1,
                n > 0,
                n == (rowstride as int) * (rows as int),
        ;
    }
    let mut out: Vec<bool> = Vec::new();
    let mut c: usize = 0;
    while c < rowstride
        invariant
            0 <= c <= rowstride,
            n == luma@.len(),
            rowstride >= 1,
            rows == luma@.len() as int / (rowstride as int),
            n == (rowstride as int) * (rows as int),
            out@ + col_gradient_from(luma@, rowstride as int, c as int) == col_gradient_of(
                luma@,
                rowstride as int,
            ),
        decreases rowstride - c,
    {
        let mut col: Vec<u8> = Vec::new();
        let mut i: usize = 0;
        while i < rows
            invariant
                0 <= i <= rows,
                c < rowstride,
                n == luma@.len(),
                n == (rowstride as int) * (rows as int),
                col@.len() == i,
                forall|t: int| 0 <= t < i ==> col@[t] == luma@[t * (rowstride as int) + c],
            decreases rows - i,
        {
            proof {
                assert((i as int) * (rowstride as int) + (c as int) < n as int)
                    by (nonlinear_arith)
                    requires
                        0 <= i < rows,
                        0 <= c < rowstride,
                        n == (rowstride as int) * (rows as int),
                ;
            }
            col.push(luma[i * rowstride + c]);
            i = i + 1;
        }
        proof {
            assert(col@ =~= column_of(luma@, rowstride as int, c as int));
        }
        let mut g = gradient_hash_impl(&col);
        let ghost old_out = out@;
        out.append(&mut g);
        proof {
            assert(out@ + col_gradient_from(luma@, rowstride as int, c as int + 1) =~= old_out
                + col_gradient_from(luma@, rowstride as int, c as int));
        }
        c = c + 1;
    }
    proof {
        assert(col_gradient_from(luma@, rowstride as int, rowstride as int)
            == Seq::<bool>::empty());
        assert(out@ + Seq::<bool>::empty() =~= out@);
        lemma_col_gradient_len(luma@, rowstride as int, 0);
    }
    out
}

/// Double-gradient hash: the row-wise gradient bits immediately followed
/// by the column-wise gradient bits of the same buffer.
pub fn double_gradient_hash(luma: &Vec<u8>, rowstride: usize) -> (r: Vec<bool>)
    requires
        rowstride >= 1,
        luma@.len() > 0,
        luma@.len() as int % (rowstride as int) == 0,
    ensures
        r@ == double_gradient_of(luma@, rowstride as int),
        r@ == row_gradient_of(luma@, rowstride as int) + col_gradient_of(
            luma@,
            rowstride as int,
        ),
        r@.len() == (luma@.len() as int / (rowstride as int)) * (rowstride - 1) + (
        rowstride as int) * (luma@.len() as int / (rowstride as int) - 1),
{
    let mut r = gradient_hash(luma, rowstride);
    let mut v = vert_gradient_hash(luma, rowstride);
    r.append(&mut v);
    r
}

/// The mean and the median of a buffer see only which samples it holds,
/// not their order: two buffers holding the same samples at possibly
/// different positions share their mean-hash and median-hash thresholds.
pub proof fn lemma_threshold_permutation_invariant(a: Seq<u8>, b: Seq<u8>)
    requires
        a.to_multiset() == b.to_multiset(),
    ensures
        mean_of(a) == mean_of(b),
        median_of(a) == median_of(b),
{
    a.to_multiset_ensures();
    b.to_multiset_ensures();
    assert(a.len() == b.len());
    lemma_sum_permutation(a, b);
    lemma_sorted_of_ensures(a);
    lemma_sorted_is_sorted_of(b, sorted_of(a));
}

/// Adjacent comparisons are unchanged by a uniform shift of both samples.
proof fn lemma_grads_shift(r1: Seq<u8>, r2: Seq<u8>, d: int)
    requires
        r1.len() == r2.len(),
        forall|i: int| 0 <= i < r1.len() ==> r2[i] as int == r1[i] as int + d,
    ensures
        grads_of(r2) == grads_of(r1),
{
    assert(grads_of(r2) =~= grads_of(r1));
}

/// Row gradients are unchanged by a uniform additive shift.
proof fn lemma_row_gradient_shift(s: Seq<u8>, t: Seq<u8>, stride: int, d: int)
    requires
        s.len() == t.len(),
        forall|i: int| 0 <= i < s.len() ==> t[i] as int == s[i] as int + d,
    ensures
        row_gradient_of(t, stride) == row_gradient_of(s, stride),
    decreases s.len(),
{
    if s.len() == 0 || stride < 1 {
    } else if s.len() <= stride {
        lemma_grads_shift(s, t, d);
    } else {
        lemma_grads_shift(s.take(stride), t.take(stride), d);
        lemma_row_gradient_shift(s.skip(stride), t.skip(stride), stride, d);
    }
}

/// Column gradients from any starting column are unchanged by a uniform
/// additive shift.
proof fn lemma_col_gradient_shift(s: Seq<u8>, t: Seq<u8>, stride: int, c: int, d: int)
    requires
        s.len() == t.len(),
        forall|i: int| 0 <= i < s.len() ==> t[i] as int == s[i] as int + d,
    ensures
        col_gradient_from(t, stride, c) == col_gradient_from(s, stride, c),
    decreases stride - c,
{
    if c < 0 || c >= stride {
    } else {
        let cs = column_of(s, stride, c);
        let ct = column_of(t, stride, c);
        vstd::arithmetic::div_mod::lemma_fundamental_div_mod(s.len() as int, stride);
        assert(stride * (s.len() as int / stride) <= s.len() as int);
        assert forall|i: int| 0 <= i < cs.len() implies ct[i] as int == cs[i] as int + d by {
            assert(0 <= i * stride + c < s.len() as int) by (nonlinear_arith)
                requires
                    0 <= i,
                    i < s.len() as int / stride,
                    0 <= c < stride,
                    stride * (s.len() as int / stride) <= s.len() as int,
            ;
        }
        lemma_grads_shift(cs, ct, d);
        lemma_col_gradient_shift(s, t, stride, c + 1, d);
    }
}

/// A uniform additive brightness shift applied to every sample leaves
/// every gradient hash unchanged: only the relative order of neighbouring
/// samples matters.
pub proof fn lemma_gradient_shift_invariant(s: Seq<u8>, t: Seq<u8>, stride: int, d: int)
    requires
        s.len() == t.len(),
        forall|i: int| 0 <= i < s.len() ==> t[i] as int == s[i] as int + d,
    ensures
        row_gradient_of(t, stride) == row_gradient_of(s, stride),
        col_gradient_of(t, stride) == col_gradient_of(s, stride),
        double_gradient_of(t, stride) == double_gradient_of(s, stride),
{
    lemma_row_gradient_shift(s, t, stride, d);
    lemma_col_gradient_shift(s, t, stride, 0, d);
}

} // verus!
