//! Rate-limit batching: the contracts to query are split into fixed-size
//! chunks, processed strictly one after another; everything within one
//! chunk may run concurrently. The plan is a list of index ranges, so the
//! caller never copies or reorders the relationship entries.

use vstd::prelude::*;

use vstd::arithmetic::div_mod::lemma_fundamental_div_mod;
use vstd::arithmetic::div_mod::lemma_fundamental_div_mod_converse_div;
use vstd::arithmetic::div_mod::lemma_mod_bound;

verus! {

/// Ceiling division: how many chunks of size `c` cover `n` items.
pub open spec fn div_ceil(n: int, c: int) -> int {
    (n + c - 1) / c
}

/// Plans the batches: consecutive `[start, end)` ranges of at most
/// `chunk_size` indices each, covering `0..n` in order, `ceil(n /
/// chunk_size)` of them.
pub fn chunk_bounds(n: usize, chunk_size: usize) -> (r: Vec<(usize, usize)>)
    requires
        chunk_size >= 1,
    ensures
        r@.len() == div_ceil(n as int, chunk_size as int),
        forall|k: int|
            0 <= k < r@.len() ==> (#[trigger] r@[k]).0 == k * chunk_size && r@[k].1 == (if (k + 1)
                * chunk_size <= n {
                (k + 1) * chunk_size
            } else {
                n as int
            }),
{
    let mut r: Vec<(usize, usize)> = Vec::new();
    let mut start: usize = 0;
    proof {
        assert(r@.len() * chunk_size == 0) by (nonlinear_arith)
            requires
                r@.len() == 0,
        ;
    }
    while start < n
        invariant
            chunk_size >= 1,
            start <= n,
            start == (if r@.len() * chunk_size <= n {
                r@.len() * chunk_size as int
            } else {
                n as int
            }),
            r@.len() >= 1 ==> (r@.len() - 1) * chunk_size < n,
            forall|k: int|
                0 <= k < r@.len() ==> (#[trigger] r@[k]).0 == k * chunk_size && r@[k].1 == (if (k
                    + 1) * chunk_size <= n {
                    (k + 1) * chunk_size
                } else {
                    n as int
                }),
        decreases n - start,
    {
        let ghost len_old = r@.len() as int;
        proof {
            assert(start == len_old * chunk_size);
            assert((len_old + 1) * chunk_size == len_old * chunk_size + chunk_size)
                by (nonlinear_arith);
        }
        let end = if n - start > chunk_size {
            start + chunk_size
        } else {
            n
        };
        r.push((start, end));
        start = end;
    }
    proof {
        let c = chunk_size as int;
        let nn = n as int;
        let len = r@.len() as int;
        if nn == 0 {
            assert(len == 0);
            lemma_fundamental_div_mod_converse_div(nn + c - 1, c, 0, c - 1);
        } else {
            assert(len >= 1);
            assert((len - 1) * c < nn);
            assert(len * c >= nn);
            assert((len - 1) * c == len * c - c) by (nonlinear_arith);
            lemma_fundamental_div_mod_converse_div(nn + c - 1, c, len, nn + c - 1 - len * c);
        }
    }
    r
}

/// The per-chunk query results: chunk `k`'s items, each taken to its
/// report by `f`.
pub open spec fn chunk_results<A, B>(
    items: Seq<A>,
    bounds: Seq<(usize, usize)>,
    f: spec_fn(A) -> B,
) -> Seq<Seq<B>> {
    Seq::new(
        bounds.len(),
        |k: int| items.subrange(bounds[k].0 as int, bounds[k].1 as int).map_values(f),
    )
}

/// Chunked querying is complete and exact: running the per-contract query
/// chunk by chunk and concatenating the chunk results gives the same
/// reports, in the same order, as querying all contracts unchunked.
pub proof fn lemma_chunks_cover<A, B>(
    items: Seq<A>,
    bounds: Seq<(usize, usize)>,
    chunk_size: int,
    f: spec_fn(A) -> B,
)
    requires
        chunk_size >= 1,
        bounds.len() == div_ceil(items.len() as int, chunk_size),
        forall|k: int|
            0 <= k < bounds.len() ==> (#[trigger] bounds[k]).0 == k * chunk_size && bounds[k].1
                == (if (k + 1) * chunk_size <= items.len() {
                (k + 1) * chunk_size
            } else {
                items.len() as int
            }),
    ensures
        chunk_results(items, bounds, f).flatten() == items.map_values(f),
    decreases bounds.len(),
{
    let n = items.len() as int;
    let c = chunk_size;
    if bounds.len() == 0 {
        lemma_fundamental_div_mod(n + c - 1, c);
        lemma_mod_bound(n + c - 1, c);
        let q = (n + c - 1) / c;
        assert(q == 0);
        assert(c * q == 0) by (nonlinear_arith)
            requires
                q == 0,
        ;
        assert(n + c - 1 == (n + c - 1) % c);
        assert(n == 0);
        assert(chunk_results(items, bounds, f) =~= Seq::<Seq<B>>::empty());
        reveal_with_fuel(Seq::flatten, 1);
        assert(chunk_results(items, bounds, f).flatten() =~= items.map_values(f));
    } else {
        let m = bounds.len() - 1;
        lemma_fundamental_div_mod(n + c - 1, c);
        lemma_mod_bound(n + c - 1, c);
        let q = (n + c - 1) / c;
        let rem = (n + c - 1) % c;
        assert(q == m + 1);
        assert(n + c - 1 == c * q + rem);
        assert(m * c < n <= m * c + c) by (nonlinear_arith)
            requires
                c >= 1,
                q == m + 1,
                n + c - 1 == c * q + rem,
                0 <= rem < c,
        ;
        let prefix_items = items.take(m * c);
        let prefix_bounds = bounds.take(m);
        assert(prefix_items.len() == m * c);
        lemma_fundamental_div_mod_converse_div(m * c + c - 1, c, m, c - 1);
        assert(prefix_bounds.len() == div_ceil(prefix_items.len() as int, c));
        assert forall|k: int|
            0 <= k < prefix_bounds.len() implies (#[trigger] prefix_bounds[k]).0 == k * c
            && prefix_bounds[k].1 == (if (k + 1) * c <= prefix_items.len() {
            (k + 1) * c
        } else {
            prefix_items.len() as int
        }) by {
            assert(prefix_bounds[k] == bounds[k]);
            assert(0 <= k * c && (k + 1) * c <= m * c) by (nonlinear_arith)
                requires
                    0 <= k,
                    k + 1 <= m,
                    c >= 1,
            ;
        }
        lemma_chunks_cover(prefix_items, prefix_bounds, c, f);
        let whole = chunk_results(items, bounds, f);
        let prefix = chunk_results(prefix_items, prefix_bounds, f);
        assert forall|k: int| 0 <= k < m implies whole[k] == prefix[k] by {
            assert(0 <= k * c && k * c <= (k + 1) * c && (k + 1) * c <= m * c) by (nonlinear_arith)
                requires
                    0 <= k,
                    k + 1 <= m,
                    c >= 1,
            ;
            assert(items.subrange(bounds[k].0 as int, bounds[k].1 as int) =~= prefix_items.subrange(
                prefix_bounds[k].0 as int,
                prefix_bounds[k].1 as int,
            ));
        }
        assert(whole.drop_last() =~= prefix);
        let last_chunk = items.subrange(m * c, n).map_values(f);
        assert(bounds[m].0 == m * c && bounds[m].1 == n);
        assert(whole.last() == last_chunk);
        whole.lemma_flatten_and_flatten_alt_are_equivalent();
        prefix.lemma_flatten_and_flatten_alt_are_equivalent();
        assert(whole.flatten_alt() == prefix.flatten_alt() + last_chunk);
        assert(whole.flatten() == prefix_items.map_values(f) + last_chunk);
        assert forall|i: int| 0 <= i < n implies (prefix_items.map_values(f) + last_chunk)[i] == f(
            items[i],
        ) by {
            if i < m * c {
                assert(prefix_items.map_values(f)[i] == f(prefix_items[i]));
            } else {
                assert(last_chunk[i - m * c] == f(items.subrange(m * c, n)[i - m * c]));
            }
        }
        assert(chunk_results(items, bounds, f).flatten() =~= items.map_values(f));
    }
}

} // verus!
