use crate::cachestate::LoadedCoverageMap;
use crate::plan::{num_blocks, spec_min};
use vstd::arithmetic::div_mod::{lemma_fundamental_div_mod, lemma_mod_bound};
use vstd::arithmetic::mul::lemma_mul_inequality;
use vstd::prelude::*;

verus! {

/// The length of block `n` of an object of `size` bytes cut in blocks of `bs`
/// bytes: a whole block, or what is left of the object for the last one.
pub open spec fn spec_block_len(size: int, bs: int, n: int) -> int {
    spec_min(bs, size - n * bs)
}

/// The length of block `block_num`, or `None` where the object has no such block.
pub fn block_len(size_bytes: u64, block_size: u32, block_num: u64) -> (r: Option<u64>)
    requires
        block_size >= 1,
    ensures
        r is Some <==> block_num < num_blocks(size_bytes as int, block_size as int),
        r matches Some(l) ==> l == spec_block_len(
            size_bytes as int,
            block_size as int,
            block_num as int,
        ),
{
    let bs = block_size as u64;
    let ghost size = size_bytes as int;
    let ghost b = bs as int;
    let ghost n = block_num as int;
    proof {
        lemma_fundamental_div_mod(size, b);
        lemma_mod_bound(size, b);
        lemma_fundamental_div_mod(size + b - 1, b);
        lemma_mod_bound(size + b - 1, b);
    }
    if block_num > size_bytes / bs {
        proof {
            let q = size / b;
            assert(n * b > size) by (nonlinear_arith)
                requires
                    n >= q + 1,
                    size == b * q + size % b,
                    size % b < b,
                    b > 0,
            ;
            let c = (size + b - 1) / b;
            assert(c * b <= size + b - 1);
            assert(n >= c) by (nonlinear_arith)
                requires
                    n * b > size,
                    c * b <= size + b - 1,
                    b > 0,
            ;
        }
        return None;
    }
    proof {
        lemma_mul_inequality(n, size / b, b);
    }
    let start = block_num * bs;
    if start == size_bytes {
        proof {
            let c = (size + b - 1) / b;
            assert(n >= c) by (nonlinear_arith)
                requires
                    n * b == size,
                    size + b - 1 == b * c + (size + b - 1) % b,
                    (size + b - 1) % b < b,
                    b > 0,
            ;
        }
        return None;
    }
    proof {
        let c = (size + b - 1) / b;
        assert(n < c) by (nonlinear_arith)
            requires
                n * b < size,
                size + b - 1 == b * c + (size + b - 1) % b,
                0 <= (size + b - 1) % b,
                b > 0,
        ;
    }
    let rest = size_bytes - start;
    if rest < bs {
        Some(rest)
    } else {
        Some(bs)
    }
}

/// The blocks in `a..=b` that `cov` lacks, in order.
pub open spec fn uncovered_blocks(cov: Seq<bool>, a: int, b: int) -> Seq<u64>
    decreases b - a + 1,
{
    if b < a {
        seq![]
    } else if cov[b] {
        uncovered_blocks(cov, a, b - 1)
    } else {
        uncovered_blocks(cov, a, b - 1).push(b as u64)
    }
}

/// The blocks of a fetched run `first..=last` that must be written to the cache:
/// those the coverage map lacks. Covered blocks that the fetch overlaps are left
/// alone.
pub fn blocks_to_fill(coverage: &LoadedCoverageMap, first: u64, last: u64) -> (r: Vec<u64>)
    requires
        last < coverage@.len(),
    ensures
        r@ == uncovered_blocks(coverage@, first as int, last as int),
{
    let mut out: Vec<u64> = Vec::new();
    if first > last {
        return out;
    }
    let mut i = first;
    loop
        invariant
            first <= i <= last < coverage@.len(),
            out@ == uncovered_blocks(coverage@, first as int, i - 1),
        decreases last - i,
    {
        if !coverage.is_covered(i) {
            out.push(i);
        }
        if i == last {
            return out;
        }
        i = i + 1;
    }
}

} // verus!
