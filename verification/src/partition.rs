//! The split of a list of records into contiguous chunks, one for each worker.

use vstd::prelude::*;

verus! {

/// The number of workers that `cores` processing units stand for: at least one.
pub open spec fn workers(cores: nat) -> nat {
    if cores == 0 {
        1
    } else {
        cores
    }
}

/// The length of a chunk: `len` divided by the number of workers, rounded up.
pub open spec fn chunk_len(len: nat, cores: nat) -> nat {
    let c = workers(cores);
    if len % c == 0 {
        len / c
    } else {
        len / c + 1
    }
}

/// Where the `k`-th chunk starts.
pub open spec fn chunk_start(len: nat, cores: nat, k: nat) -> nat {
    k * chunk_len(len, cores)
}

/// Where the `k`-th chunk ends: a chunk's length further, or at the end of the
/// list if that comes first.
pub open spec fn chunk_end(len: nat, cores: nat, k: nat) -> nat {
    if (k + 1) * chunk_len(len, cores) < len {
        (k + 1) * chunk_len(len, cores)
    } else {
        len
    }
}

/// The chunks, laid end to end, cost at least `len`: the workers suffice.
pub proof fn lemma_workers_suffice(len: nat, cores: nat)
    ensures
        workers(cores) * chunk_len(len, cores) >= len,
        len > 0 ==> chunk_len(len, cores) > 0,
        chunk_len(len, cores) <= len,
{
    let c = workers(cores);
    let q = len / c;
    let r = len % c;
    assert(len == c * q + r) by (nonlinear_arith)
        requires
            c > 0,
            q == len / c,
            r == len % c,
    ;
    assert(0 <= r < c);
    if r == 0 {
        assert(c * q >= len);
        assert(q <= len) by (nonlinear_arith)
            requires
                len == c * q,
                c >= 1,
        ;
    } else {
        assert(c * (q + 1) == c * q + c) by (nonlinear_arith);
        assert(q + 1 <= len) by (nonlinear_arith)
            requires
                len == c * q + r,
                c >= 1,
                r >= 1,
        ;
    }
}

/// A chunk that starts inside the list is one of the first `workers(cores)`.
pub proof fn lemma_chunk_index_bound(len: nat, cores: nat, k: nat)
    requires
        chunk_start(len, cores, k) < len,
    ensures
        k < workers(cores),
{
    lemma_workers_suffice(len, cores);
    let c = workers(cores);
    let l = chunk_len(len, cores);
    if k >= c {
        assert(k * l >= c * l) by (nonlinear_arith)
            requires
                k >= c,
                l >= 0,
        ;
    }
}

/// Splits the positions `0..len` into chunks for at most `cores` workers.
///
/// Each chunk is a range `(start, end)` of positions, `end` excluded. The
/// chunks follow one another without gap from `0` to `len`, none is empty,
/// none reaches past `len`, and all but the last have the same length.
pub fn chunk_ranges(len: usize, cores: usize) -> (ranges: Vec<(usize, usize)>)
    ensures
        forall|k: int|
            0 <= k < ranges@.len() ==> {
                &&& (#[trigger] ranges@[k]).0 == chunk_start(len as nat, cores as nat, k as nat)
                &&& ranges@[k].1 == chunk_end(len as nat, cores as nat, k as nat)
                &&& ranges@[k].0 < ranges@[k].1 <= len
            },
        forall|k: int| 0 < k < ranges@.len() ==> (#[trigger] ranges@[k]).0 == ranges@[k - 1].1,
        ranges@.len() <= workers(cores as nat),
        ranges@.len() == 0 <==> len == 0,
        ranges@.len() > 0 ==> ranges@[0].0 == 0 && ranges@[ranges@.len() - 1].1 == len,
{
    let c: usize = if cores == 0 {
        1
    } else {
        cores
    };
    proof {
        lemma_workers_suffice(len as nat, cores as nat);
    }
    let size: usize = if len % c == 0 {
        len / c
    } else {
        len / c + 1
    };
    assert(chunk_start(len as nat, cores as nat, 0) == 0) by (nonlinear_arith)
        requires
            chunk_start(len as nat, cores as nat, 0) == 0 * chunk_len(len as nat, cores as nat),
    ;
    let mut ranges: Vec<(usize, usize)> = Vec::new();
    let mut start: usize = 0;
    while start < len
        invariant
            size == chunk_len(len as nat, cores as nat),
            len > 0 ==> size > 0,
            start <= len,
            start == len || start == chunk_start(len as nat, cores as nat, ranges@.len()),
            ranges@.len() > 0 ==> ranges@[0].0 == 0 && ranges@[ranges@.len() - 1].1 == start,
            ranges@.len() == 0 ==> start == 0,
            forall|k: int|
                0 <= k < ranges@.len() ==> {
                    &&& (#[trigger] ranges@[k]).0 == chunk_start(len as nat, cores as nat, k as nat)
                    &&& ranges@[k].1 == chunk_end(len as nat, cores as nat, k as nat)
                    &&& ranges@[k].0 < ranges@[k].1 <= len
                },
            forall|k: int| 0 < k < ranges@.len() ==> (#[trigger] ranges@[k]).0 == ranges@[k - 1].1,
            ranges@.len() <= workers(cores as nat),
        decreases len - start,
    {
        let ghost k = ranges@.len();
        let end: usize = if len - start > size {
            start + size
        } else {
            len
        };
        proof {
            lemma_chunk_index_bound(len as nat, cores as nat, k);
            assert((k + 1) * size == k * size + size) by (nonlinear_arith);
        }
        ranges.push((start, end));
        start = end;
    }
    ranges
}

} // verus!
