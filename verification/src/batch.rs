//! Partitioning of body records into contiguous batches.
//!
//! An input's body records are split into `ceil(R / max_rows)` contiguous
//! batches: every batch but the last holds exactly `max_rows` records, the
//! last holds the remainder (or `max_rows` when `R` divides evenly), and no
//! empty trailing batch is ever produced. Zero body records give zero
//! batches.

use vstd::arithmetic::div_mod::lemma_fundamental_div_mod;
use vstd::arithmetic::div_mod::lemma_fundamental_div_mod_converse;
use vstd::arithmetic::div_mod::lemma_mod_pos_bound;
use vstd::arithmetic::mul::lemma_mul_inequality;
use vstd::prelude::*;

verus! {

/// How many batches `r` records form under a limit of `m` per batch:
/// `ceil(r / m)`.
pub open spec fn spec_num_batches(r: int, m: int) -> int {
    (r + m - 1) / m
}

/// Where batch `i` ends: after `m` more records, or at the end of the
/// input if it comes first.
pub open spec fn spec_batch_end(r: int, m: int, i: int) -> int {
    if (i + 1) * m <= r {
        (i + 1) * m
    } else {
        r
    }
}

/// Batch `i` (0-based) of the records `rs`: the contiguous slice starting
/// at `i * m`.
pub open spec fn spec_batch(rs: Seq<Seq<u8>>, m: int, i: int) -> Seq<Seq<u8>> {
    rs.subrange(i * m, spec_batch_end(rs.len() as int, m, i))
}

/// All batches of `rs`, in order.
pub open spec fn spec_batches(rs: Seq<Seq<u8>>, m: int) -> Seq<Seq<Seq<u8>>> {
    Seq::new(spec_num_batches(rs.len() as int, m) as nat, |i: int| spec_batch(rs, m, i))
}

/// Bounds on the batch count: `n` batches of at most `m` records cover all
/// `r` records, and the records do not fit into fewer.
pub proof fn lemma_num_batches(r: int, m: int)
    requires
        m >= 1,
        r >= 0,
    ensures
        spec_num_batches(r, m) >= 0,
        spec_num_batches(r, m) * m >= r,
        r == 0 ==> spec_num_batches(r, m) == 0,
        r > 0 ==> spec_num_batches(r, m) >= 1 && (spec_num_batches(r, m) - 1) * m < r,
{
    lemma_fundamental_div_mod(r + m - 1, m);
    lemma_mod_pos_bound(r + m - 1, m);
    let n = spec_num_batches(r, m);
    let rem = (r + m - 1) % m;
    assert(r + m - 1 == m * n + rem);
    assert(n * m == m * n) by (nonlinear_arith);
    assert(n >= 0) by (nonlinear_arith)
        requires
            n * m >= r,
            r >= 0,
            m >= 1,
    ;
    if r == 0 {
        assert(n == 0) by (nonlinear_arith)
            requires
                m - 1 == m * n + rem,
                0 <= rem < m,
                m >= 1,
        ;
    }
    if r > 0 {
        assert(n >= 1) by (nonlinear_arith)
            requires
                n * m >= r,
                r >= 1,
                m >= 1,
        ;
        assert((n - 1) * m == n * m - m) by (nonlinear_arith);
    }
}

/// The batch count is the only quantity bracketed this way.
pub proof fn lemma_num_batches_converse(r: int, m: int, q: int)
    requires
        m >= 1,
        0 <= r,
        q * m >= r,
        r == 0 ==> q == 0,
        r > 0 ==> q >= 1 && (q - 1) * m < r,
    ensures
        q == spec_num_batches(r, m),
{
    if r == 0 {
        lemma_num_batches(r, m);
    } else {
        assert((q - 1) * m == q * m - m) by (nonlinear_arith);
        lemma_fundamental_div_mod_converse(r + m - 1, m, q, r + m - 1 - q * m);
    }
}

/// Sizes of the batches: every batch except the last holds exactly `m`
/// records; the last holds the remainder, at least one record and at most
/// `m`.
pub proof fn lemma_batch_sizes(rs: Seq<Seq<u8>>, m: int)
    requires
        m >= 1,
    ensures
        spec_batches(rs, m).len() == spec_num_batches(rs.len() as int, m),
        rs.len() == 0 ==> spec_batches(rs, m).len() == 0,
        forall|i: int|
            0 <= i < spec_batches(rs, m).len() - 1 ==> #[trigger] spec_batches(rs, m)[i].len()
                == m,
        spec_batches(rs, m).len() > 0 ==> {
            let n = spec_num_batches(rs.len() as int, m);
            &&& spec_batches(rs, m).last().len() == rs.len() - (n - 1) * m
            &&& 1 <= spec_batches(rs, m).last().len() <= m
        },
{
    let r = rs.len() as int;
    let n = spec_num_batches(r, m);
    lemma_num_batches(r, m);
    assert forall|i: int| 0 <= i < n - 1 implies #[trigger] spec_batches(rs, m)[i].len()
        == m by {
        lemma_mul_inequality(i + 1, n - 1, m);
        assert(i * m >= 0) by (nonlinear_arith)
            requires
                i >= 0,
                m >= 1,
        ;
        assert((i + 1) * m == i * m + m) by (nonlinear_arith);
    }
    if n > 0 {
        assert((n - 1) * m >= 0) by (nonlinear_arith)
            requires
                n >= 1,
                m >= 1,
        ;
        assert((n - 1 + 1) * m == n * m) by (nonlinear_arith);
        assert(spec_batch_end(r, m, n - 1) == r);
        assert(spec_batches(rs, m).last() == spec_batch(rs, m, n - 1));
        assert((n - 1) * m == n * m - m) by (nonlinear_arith);
    }
}

/// The batches as the sequential strategy forms them: records are taken
/// one at a time in input order, a batch is flushed as soon as it holds
/// `m` records, and a final short batch holds whatever remains.
pub open spec fn spec_batches_streamed(rs: Seq<Seq<u8>>, m: int) -> Seq<Seq<Seq<u8>>>
    decreases rs.len(),
{
    if m < 1 || rs.len() == 0 {
        Seq::<Seq<Seq<u8>>>::empty()
    } else if rs.len() <= m {
        seq![rs]
    } else {
        seq![rs.take(m)] + spec_batches_streamed(rs.skip(m), m)
    }
}

/// The two strategies agree: accumulating records one at a time and
/// flushing each full batch partitions the records exactly as chunking the
/// fully collected sequence does.
pub proof fn lemma_strategies_equivalent(rs: Seq<Seq<u8>>, m: int)
    requires
        m >= 1,
    ensures
        spec_batches_streamed(rs, m) == spec_batches(rs, m),
    decreases rs.len(),
{
    let r = rs.len() as int;
    let n = spec_num_batches(r, m);
    lemma_num_batches(r, m);
    if rs.len() == 0 {
        assert(spec_batches(rs, m) =~= Seq::<Seq<Seq<u8>>>::empty());
    } else if rs.len() <= m {
        assert(1 * m == m) by (nonlinear_arith);
        assert((1 - 1) * m == 0) by (nonlinear_arith);
        lemma_num_batches_converse(r, m, 1);
        assert(spec_batch(rs, m, 0) =~= rs);
        assert(spec_batches(rs, m) =~= seq![rs]);
    } else {
        let tail = rs.skip(m);
        lemma_strategies_equivalent(tail, m);
        let n2 = spec_num_batches(tail.len() as int, m);
        lemma_num_batches(tail.len() as int, m);
        assert((n2 + 1) * m == n2 * m + m) by (nonlinear_arith);
        assert((n2 + 1 - 1) * m == n2 * m) by (nonlinear_arith);
        assert((n2 - 1) * m == n2 * m - m) by (nonlinear_arith);
        lemma_num_batches_converse(r, m, n2 + 1);
        assert(n == n2 + 1);
        let combined = seq![rs.take(m)] + spec_batches_streamed(tail, m);
        assert forall|i: int| 0 <= i < n implies spec_batches(rs, m)[i] == combined[i] by {
            if i == 0 {
                assert(1 * m == m) by (nonlinear_arith);
                assert(0 * m == 0) by (nonlinear_arith);
                assert(spec_batch(rs, m, 0) =~= rs.take(m));
            } else {
                assert(i * m >= m > 0) by (nonlinear_arith)
                    requires
                        i >= 1,
                        m >= 1,
                ;
                lemma_mul_inequality(i, n - 1, m);
                assert((n - 1) * m < r);
                assert(i * m == (i - 1) * m + m) by (nonlinear_arith);
                assert((i + 1) * m == (i - 1 + 1) * m + m) by (nonlinear_arith);
                assert((i - 1) * m >= 0) by (nonlinear_arith)
                    requires
                        i >= 1,
                        m >= 1,
                ;
                assert(spec_batch(rs, m, i) =~= spec_batch(tail, m, i - 1));
                assert(combined[i] == spec_batches(tail, m)[i - 1]);
            }
        }
        assert(spec_batches(rs, m) =~= combined);
    }
}

/// Completeness of the streamed partition: concatenating its batches in
/// order restores the records exactly.
pub proof fn lemma_streamed_complete(rs: Seq<Seq<u8>>, m: int)
    requires
        m >= 1,
    ensures
        spec_batches_streamed(rs, m).flatten() == rs,
    decreases rs.len(),
{
    if rs.len() == 0 {
        assert(spec_batches_streamed(rs, m).flatten() =~= rs);
    } else if rs.len() <= m {
        seq![rs].lemma_flatten_one_element();
    } else {
        let head = seq![rs.take(m)];
        let rest = spec_batches_streamed(rs.skip(m), m);
        lemma_streamed_complete(rs.skip(m), m);
        vstd::seq_lib::lemma_flatten_concat(head, rest);
        head.lemma_flatten_one_element();
        assert(rs.take(m) + rs.skip(m) =~= rs);
    }
}

/// Completeness: every record of the input appears in the batches, exactly
/// once, and concatenating the batches in index order restores the input
/// record sequence exactly.
pub proof fn lemma_batches_complete(rs: Seq<Seq<u8>>, m: int)
    requires
        m >= 1,
    ensures
        spec_batches(rs, m).flatten() == rs,
{
    lemma_strategies_equivalent(rs, m);
    lemma_streamed_complete(rs, m);
}

/// Order preservation: position `k` of batch `i` holds record `i * m + k`
/// of the input, so each batch keeps the input's relative order and the
/// batches in index order follow the input stream.
pub proof fn lemma_order_preserved(rs: Seq<Seq<u8>>, m: int, i: int, k: int)
    requires
        m >= 1,
        0 <= i < spec_batches(rs, m).len(),
        0 <= k < spec_batches(rs, m)[i].len(),
    ensures
        spec_batches(rs, m)[i][k] == rs[i * m + k],
{
    let r = rs.len() as int;
    let n = spec_num_batches(r, m);
    lemma_num_batches(r, m);
    assert(i * m >= 0) by (nonlinear_arith)
        requires
            i >= 0,
            m >= 1,
    ;
    lemma_mul_inequality(i, n - 1, m);
    assert(i * m <= (n - 1) * m < r);
    assert((i + 1) * m == i * m + m) by (nonlinear_arith);
    assert(spec_batch(rs, m, i)[k] == rs[i * m + k]);
}

/// Splits `records` into its batches under a limit of `max_rows` records
/// per batch.
pub fn make_batches(records: &Vec<Vec<u8>>, max_rows: usize) -> (batches: Vec<Vec<Vec<u8>>>)
    requires
        max_rows >= 1,
    ensures
        batches.deep_view() == spec_batches(records.deep_view(), max_rows as int),
{
    let ghost rs = records.deep_view();
    let ghost m = max_rows as int;
    let mut batches: Vec<Vec<Vec<u8>>> = Vec::new();
    let mut start: usize = 0;
    while start < records.len()
        invariant
            max_rows >= 1,
            rs == records.deep_view(),
            m == max_rows as int,
            rs.len() == records@.len(),
            start <= records.len(),
            start as int <= (batches@.len() as int) * m,
            batches@.len() >= 1 ==> ((batches@.len() as int) - 1) * m < start as int,
            start < records.len() ==> start as int == (batches@.len() as int) * m,
            batches@.len() == 0 ==> start == 0,
            forall|k: int|
                0 <= k < batches@.len() ==> #[trigger] batches.deep_view()[k] == spec_batch(
                    rs,
                    m,
                    k,
                ),
        decreases records.len() - start,
    {
        let ghost b = batches@.len() as int;
        let remaining: usize = records.len() - start;
        let take: usize = if remaining < max_rows {
            remaining
        } else {
            max_rows
        };
        let end: usize = start + take;
        proof {
            assert(b * m + m == (b + 1) * m) by (nonlinear_arith);
            assert(spec_batch_end(rs.len() as int, m, b) == end as int);
        }
        let mut batch: Vec<Vec<u8>> = Vec::new();
        let mut j: usize = start;
        while j < end
            invariant
                start <= j <= end <= records@.len(),
                rs == records.deep_view(),
                rs.len() == records@.len(),
                batch.deep_view() == rs.subrange(start as int, j as int),
            decreases end - j,
        {
            let row: Vec<u8> = records[j].clone();
            proof {
                assert(row@ =~= records@[j as int]@);
                assert(rs.subrange(start as int, j + 1) =~= rs.subrange(
                    start as int,
                    j as int,
                ).push(rs[j as int]));
            }
            batch.push(row);
            proof {
                assert(batch.deep_view() =~= rs.subrange(start as int, j + 1));
            }
            j = j + 1;
        }
        proof {
            assert(batch.deep_view() == spec_batch(rs, m, b));
        }
        let ghost pre = batches.deep_view();
        batches.push(batch);
        start = end;
        proof {
            assert(batches@.len() as int == b + 1);
            assert(batches.deep_view() =~= pre.push(batch.deep_view()));
        }
    }
    proof {
        let b = batches@.len() as int;
        assert(start == rs.len());
        assert(b * m >= rs.len());
        lemma_num_batches_converse(rs.len() as int, m, b);
        assert(batches.deep_view() =~= spec_batches(rs, m));
    }
    batches
}

} // verus!
