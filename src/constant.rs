use vstd::prelude::*;

verus! {

/// The largest number of bytes of already covered blocks that an origin fetch may
/// absorb in one run, instead of splitting the fetch around them.
///
/// With coverage `---_--_---` (where `-` is a present block) and a bound of two
/// blocks, the two gaps are fetched by one origin request that also spans the two
/// present blocks between them, rather than by two requests.
pub const MAX_COVERAGE_BLOCK_SKIP_SIZE: u64 = 5 * 1024 * 1024;

} // verus!
