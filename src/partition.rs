//! Partitioning a workload into contiguous, disjoint index ranges for the
//! chunked backends.
use vstd::prelude::*;

verus! {

/// Relies on `num_cpus::get`: the number of CPUs available to this process,
/// documented to be at least one.
#[verifier::external_body]
fn available_cpus() -> (r: usize)
    ensures
        r >= 1,
{
    num_cpus::get()
}

/// Chunk length of the workgroup-style backend.
pub const WORKGROUP_SIZE: usize = 256;

/// How many workers the pooled and admission-limited backends run: one per
/// available CPU, and at least one.
pub fn worker_count() -> (r: usize)
    ensures
        r >= 1,
{
    available_cpus()
}

/// `ranges` are the consecutive chunks `[k * size, min((k + 1) * size, len))`
/// that together cover `0..len` in order, with no gap and no overlap.
pub open spec fn is_chunking(ranges: Seq<(usize, usize)>, len: nat, size: nat) -> bool {
    &&& size > 0
    &&& ranges.len() == (len + size - 1) / size as int
    &&& forall|k: int| #![trigger ranges[k]] 0 <= k < ranges.len() ==> {
        &&& ranges[k].0 == k * size
        &&& ranges[k].1 == if (k + 1) * size < len { (k + 1) * size } else { len as int }
    }
}

/// Index `i` of `0..len` lies in chunk `k` exactly when `k == i / size`: the
/// chunks cover every index, and no two of them share one.
pub proof fn lemma_chunk_of_index(ranges: Seq<(usize, usize)>, len: nat, size: nat, i: int, k: int)
    requires
        is_chunking(ranges, len, size),
        0 <= i < len,
        0 <= k < ranges.len(),
    ensures
        0 <= i / (size as int) < ranges.len(),
        (ranges[k].0 <= i < ranges[k].1) <==> k == i / (size as int),
{
    let s = size as int;
    let q = i / s;
    vstd::arithmetic::div_mod::lemma_fundamental_div_mod(i, s);
    assert(0 <= i % s < s) by {
        vstd::arithmetic::div_mod::lemma_mod_bound(i, s);
    }
    assert(q >= 0) by {
        vstd::arithmetic::div_mod::lemma_div_pos_is_pos(i, s);
    }
    assert(q * s <= i < (q + 1) * s) by (nonlinear_arith)
        requires i == s * q + i % s, 0 <= i % s < s;
    assert(q < (len + s - 1) / s) by {
        assert((q + 1) * s <= len + s - 1) by (nonlinear_arith)
            requires q * s <= i, i < len, i == s * q + i % s, 0 <= i % s < s;
        vstd::arithmetic::div_mod::lemma_div_is_ordered((q + 1) * s, len + s - 1, s);
        vstd::arithmetic::div_mod::lemma_div_multiples_vanish(q + 1, s);
    }
    let r = ranges[k];
    if k < q {
        assert((k + 1) * s <= q * s) by (nonlinear_arith)
            requires k + 1 <= q, s > 0;
    }
    if k > q {
        assert((q + 1) * s <= k * s) by (nonlinear_arith)
            requires q + 1 <= k, s > 0;
    }
}

/// Splits `0..len` into consecutive chunks of `size` indices; the last chunk
/// holds what is left over.
pub fn chunk_ranges(len: usize, size: usize) -> (r: Vec<(usize, usize)>)
    requires
        size > 0,
    ensures
        is_chunking(r@, len as nat, size as nat),
{
    let mut r: Vec<(usize, usize)> = Vec::new();
    let mut start: usize = 0;
    let ghost s = size as int;
    proof {
        assert(0 * s == 0);
        if len == 0 {
            assert((s - 1) / s == 0) by {
                vstd::arithmetic::div_mod::lemma_fundamental_div_mod_converse(s - 1, s, 0, s - 1);
            }
        }
    }
    while start < len
        invariant
            size > 0,
            s == size,
            start <= len,
            start < len ==> start == r@.len() * s,
            start == len ==> r@.len() == (len + s - 1) / s,
            forall|k: int| #![trigger r@[k]] 0 <= k < r@.len() ==> {
                &&& r@[k].0 == k * s
                &&& r@[k].1 == if (k + 1) * s < len { (k + 1) * s } else { len as int }
            },
        decreases len - start,
    {
        let ghost k = r@.len() as int;
        assert((k + 1) * s == k * s + s) by (nonlinear_arith);
        let end = if len - start > size { start + size } else { len };
        r.push((start, end));
        if len - start > size {
            start = start + size;
        } else {
            proof {
                assert(r@.len() == (len + s - 1) / s) by {
                    assert((k + 1) * s <= len + s - 1 < (k + 2) * s) by (nonlinear_arith)
                        requires k * s < len, len <= k * s + s, s > 0;
                    vstd::arithmetic::div_mod::lemma_fundamental_div_mod_converse(
                        len + s - 1, s, k + 1, len + s - 1 - (k + 1) * s);
                }
            }
            start = len;
        }
    }
    r
}

/// The workload divided evenly over `parts` workers, and never less than one.
pub open spec fn even_chunk_size(len: nat, parts: nat) -> nat {
    if len / parts == 0 { 1 } else { len / parts }
}

/// The chunk length for the hybrid backends: the workload divided evenly over
/// `parts` workers, and never less than one unit.
pub fn chunk_size_for(len: usize, parts: usize) -> (c: usize)
    requires
        parts > 0,
    ensures
        c == even_chunk_size(len as nat, parts as nat),
{
    let c = len / parts;
    if c == 0 { 1 } else { c }
}

/// The chunks of a workload of `len` units for the hybrid backends, one
/// chunk size per available CPU. The CPU count depends on the machine, so
/// the chunk size is stated for whatever count came back.
pub fn hybrid_chunks(len: usize) -> (r: Vec<(usize, usize)>)
    ensures
        exists|parts: nat| parts >= 1 && is_chunking(r@, len as nat, even_chunk_size(len as nat, parts)),
{
    let parts = available_cpus();
    let size = chunk_size_for(len, parts);
    let r = chunk_ranges(len, size);
    assert(is_chunking(r@, len as nat, even_chunk_size(len as nat, parts as nat)));
    r
}

} // verus!
