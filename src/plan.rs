use crate::cachestate::LoadedCoverageMap;
use crate::constant::MAX_COVERAGE_BLOCK_SKIP_SIZE;
use vstd::arithmetic::div_mod::{
    lemma_div_is_ordered, lemma_div_multiples_vanish, lemma_fundamental_div_mod,
    lemma_hoist_over_denominator, lemma_mod_bound, lemma_mod_multiples_basic,
};
use vstd::arithmetic::mul::lemma_mul_inequality;
use vstd::prelude::*;

verus! {

/// The kind of file read step.
#[derive(Debug, Clone, Copy, PartialEq, Eq, Structural)]
#[allow(non_camel_case_types)]
pub enum FileReadPlanStepKind {
    /// Read cached blocks.
    CACHE,
    /// Read from origin.
    ORIGIN {
        /// The starting byte to read from the origin (inclusive).
        byte_start: u64,
        /// The ending byte to read from the origin (inclusive).
        byte_end: u64,
    },
}

/// A file read plan step: a run of blocks to read from the cache or from origin.
#[derive(Debug, Clone, Copy, PartialEq, Eq, Structural)]
pub struct FileReadPlanStep {
    /// The step kind.
    pub kind: FileReadPlanStepKind,
    /// The first block of the step (inclusive).
    pub block_start_num: u64,
    /// The last block of the step (inclusive).
    pub block_end_num: u64,
    /// The offset within the first block of the step where the bytes sent to the
    /// client begin.
    pub client_start_offset: u64,
    /// The offset within the last block of the step where the bytes sent to the
    /// client end (inclusive).
    pub client_end_offset: u64,
}

/// The read plan of a byte range of an object. Each call of `next` yields the next
/// step: a run of cached blocks, or a run of blocks to fetch from origin.
pub struct FileReadPlan {
    pub start_byte: u64,
    pub end_byte: u64,
    pub file_size: u64,
    pub block_size: u64,
    pub coverage_map: LoadedCoverageMap,
    pub cur_byte: u64,
}

/// The number of blocks of an object of `size` bytes: `ceil(size / bs)`.
pub open spec fn num_blocks(size: int, bs: int) -> int {
    (size + bs - 1) / bs
}

/// The smaller of `a` and `b`.
pub open spec fn spec_min(a: int, b: int) -> int {
    if a <= b {
        a
    } else {
        b
    }
}

/// What a plan needs of its inputs: a non-empty request inside the object, and
/// one coverage flag per block.
pub open spec fn plan_inputs_ok(s: int, e: int, fs: int, bs: int, cov: Seq<bool>) -> bool {
    &&& 0 < bs
    &&& 0 <= s <= e < fs
    &&& cov.len() == num_blocks(fs, bs)
}

/// The number of consecutive covered blocks that end at block `j`.
pub open spec fn run_len(cov: Seq<bool>, j: int) -> nat
    decreases j + 1,
{
    if j < 0 || j >= cov.len() || !cov[j] {
        0
    } else {
        1 + run_len(cov, j - 1)
    }
}

/// `n` covered blocks of `bs` bytes are more than one origin fetch may absorb.
pub open spec fn skip_too_long(n: int, bs: int) -> bool {
    n * bs > MAX_COVERAGE_BLOCK_SKIP_SIZE
}

/// `b` ends the cache step that starts at the covered block `a`: the blocks
/// `a..=b` are covered, and the next block is not, or `b` is the last block wanted.
pub open spec fn cache_end_ok(cov: Seq<bool>, a: int, last: int, b: int) -> bool {
    &&& a <= b <= last
    &&& forall|i: int| a <= i <= b ==> #[trigger] cov[i]
    &&& (b == last || !cov[b + 1])
}

/// `b` ends the origin step that starts at the uncovered block `a`: no run of
/// covered blocks inside `a..=b` is too long to absorb, and either `b` is the last
/// block wanted, or `b` is uncovered and the covered run after it grows too long
/// before the last block wanted.
pub open spec fn origin_end_ok(cov: Seq<bool>, a: int, last: int, bs: int, b: int) -> bool {
    &&& a <= b <= last
    &&& forall|j: int| a < j <= b ==> !skip_too_long(#[trigger] run_len(cov, j) as int, bs)
    &&& (b == last || {
        &&& !cov[b]
        &&& exists|j: int| b < j <= last && #[trigger] long_run_between(cov, b, j, bs)
    })
}

/// The blocks `b+1..=j` are covered, and too many to absorb in one fetch.
pub open spec fn long_run_between(cov: Seq<bool>, b: int, j: int, bs: int) -> bool {
    &&& skip_too_long(j - b, bs)
    &&& forall|i: int| b < i <= j ==> #[trigger] cov[i]
}

/// `st` is the step of the plan for `[s, e]` that starts at block `cur`; `first`
/// tells whether it is the plan's first step.
pub open spec fn step_ok(
    st: FileReadPlanStep,
    cur: int,
    first: bool,
    s: int,
    e: int,
    fs: int,
    bs: int,
    cov: Seq<bool>,
) -> bool {
    let last = e / bs;
    let b = st.block_end_num as int;
    &&& st.block_start_num == cur
    &&& st.client_start_offset == (if first {
        s % bs
    } else {
        0
    })
    &&& st.client_end_offset == (if b == last {
        e % bs
    } else {
        bs - 1
    })
    &&& match st.kind {
        FileReadPlanStepKind::CACHE => cov[cur] && cache_end_ok(cov, cur, last, b),
        FileReadPlanStepKind::ORIGIN { byte_start, byte_end } => {
            &&& !cov[cur]
            &&& origin_end_ok(cov, cur, last, bs, b)
            &&& byte_start == cur * bs
            &&& byte_end == spec_min(b * bs + bs - 1, fs - 1)
        },
    }
}

/// The block at which the step after step `i` of `steps` starts.
pub open spec fn step_start_block(steps: Seq<FileReadPlanStep>, i: int, s: int, bs: int) -> int {
    if i == 0 {
        s / bs
    } else {
        steps[i - 1].block_end_num + 1
    }
}

/// `steps` are the first steps of the plan for `[s, e]`, none of them the last.
pub open spec fn is_plan_prefix(
    steps: Seq<FileReadPlanStep>,
    s: int,
    e: int,
    fs: int,
    bs: int,
    cov: Seq<bool>,
) -> bool {
    &&& forall|i: int|
        0 <= i < steps.len() ==> step_ok(
            #[trigger] steps[i],
            step_start_block(steps, i, s, bs),
            i == 0,
            s,
            e,
            fs,
            bs,
            cov,
        )
    &&& forall|i: int| 0 <= i < steps.len() ==> #[trigger] steps[i].block_end_num < e / bs
}

/// `steps` is the whole plan for the request `[s, e]` over coverage `cov`.
pub open spec fn is_plan(
    steps: Seq<FileReadPlanStep>,
    s: int,
    e: int,
    fs: int,
    bs: int,
    cov: Seq<bool>,
) -> bool {
    &&& steps.len() > 0
    &&& is_plan_prefix(steps.drop_last(), s, e, fs, bs, cov)
    &&& step_ok(
        steps.last(),
        step_start_block(steps, steps.len() - 1, s, bs),
        steps.len() == 1,
        s,
        e,
        fs,
        bs,
        cov,
    )
    &&& steps.last().block_end_num == e / bs
}

/// Facts on a run of covered blocks: it lies inside `cov`, all its blocks are
/// covered, and the block before it is not.
proof fn lemma_run_len(cov: Seq<bool>, j: int)
    requires
        0 <= j < cov.len(),
    ensures
        run_len(cov, j) <= j + 1,
        forall|i: int| j - run_len(cov, j) < i <= j ==> #[trigger] cov[i],
        j - run_len(cov, j) >= 0 ==> !cov[j - run_len(cov, j)],
    decreases j,
{
    assert(run_len(cov, j - 1) == 0 || j > 0);
    if cov[j] && j > 0 {
        lemma_run_len(cov, j - 1);
    }
}

/// A stretch of covered blocks `lo..=hi` is no longer than the run that ends at `hi`.
proof fn lemma_run_len_at_least(cov: Seq<bool>, lo: int, hi: int)
    requires
        0 <= lo <= hi < cov.len(),
        forall|i: int| lo <= i <= hi ==> #[trigger] cov[i],
    ensures
        run_len(cov, hi) >= hi - lo + 1,
    decreases hi - lo,
{
    if lo < hi {
        lemma_run_len_at_least(cov, lo, hi - 1);
    }
}

/// `skip_too_long` measured in whole blocks: more than `MAX / bs` blocks.
proof fn lemma_skip_blocks(n: int, bs: int)
    requires
        0 < bs,
        0 <= n,
    ensures
        skip_too_long(n, bs) <==> n > MAX_COVERAGE_BLOCK_SKIP_SIZE as int / bs,
{
    let m = MAX_COVERAGE_BLOCK_SKIP_SIZE as int;
    lemma_fundamental_div_mod(m, bs);
    lemma_mod_bound(m, bs);
    let q = m / bs;
    let r = m % bs;
    assert(m == bs * q + r);
    if n > q {
        assert(n * bs > m) by (nonlinear_arith)
            requires
                n >= q + 1,
                m == bs * q + r,
                r < bs,
                0 < bs,
        ;
    } else {
        assert(n * bs <= m) by (nonlinear_arith)
            requires
                n <= q,
                m == bs * q + r,
                0 <= r,
                0 < bs,
        ;
    }
}

/// The last block wanted lies inside the coverage map, and below `e` there is
/// room for a whole step.
proof fn lemma_last_block(s: int, e: int, fs: int, bs: int, cov: Seq<bool>)
    requires
        plan_inputs_ok(s, e, fs, bs, cov),
    ensures
        e / bs < cov.len(),
        s / bs <= e / bs,
        (e / bs) * bs <= e,
        (s / bs) * bs + s % bs == s,
        0 <= s % bs < bs,
        0 <= e % bs < bs,
        (e / bs) * bs + e % bs == e,
{
    lemma_div_is_ordered(e, fs - 1, bs);
    lemma_div_is_ordered(s, e, bs);
    lemma_hoist_over_denominator(fs - 1, 1, bs as nat);
    lemma_fundamental_div_mod(e, bs);
    lemma_fundamental_div_mod(s, bs);
    lemma_mod_bound(s, bs);
    lemma_mod_bound(e, bs);
}

impl FileReadPlan {
    /// The plan is over valid inputs, and `cur_byte` is the first byte of the next
    /// step: the start of the request, the start of a later block, or one past the
    /// end of the request once the plan is finished.
    pub open spec fn wf(&self) -> bool {
        let bs = self.block_size as int;
        &&& plan_inputs_ok(
            self.start_byte as int,
            self.end_byte as int,
            self.file_size as int,
            bs,
            self.coverage_map@,
        )
        &&& self.start_byte <= self.cur_byte <= self.end_byte + 1
        &&& (self.cur_byte == self.start_byte || self.cur_byte == self.end_byte + 1 || (
        self.cur_byte > self.start_byte && self.cur_byte as int % bs == 0))
    }

    /// The step that starts at `cur_byte` is `st`.
    pub open spec fn next_step_ok(&self, st: FileReadPlanStep) -> bool {
        let bs = self.block_size as int;
        step_ok(
            st,
            self.cur_byte as int / bs,
            self.cur_byte == self.start_byte,
            self.start_byte as int,
            self.end_byte as int,
            self.file_size as int,
            bs,
            self.coverage_map@,
        )
    }

    /// Creates a new plan for the byte range `[start_byte, end_byte]` of an object of
    /// `file_size` bytes, over a snapshot of its coverage map.
    pub fn new(
        start_byte: u64,
        end_byte: u64,
        file_size: u64,
        block_size: u64,
        coverage_map: LoadedCoverageMap,
    ) -> (r: Self)
        requires
            plan_inputs_ok(
                start_byte as int,
                end_byte as int,
                file_size as int,
                block_size as int,
                coverage_map@,
            ),
        ensures
            r.wf(),
            r.start_byte == start_byte,
            r.end_byte == end_byte,
            r.file_size == file_size,
            r.block_size == block_size,
            r.coverage_map@ == coverage_map@,
            r.cur_byte == start_byte,
    {
        Self { start_byte, end_byte, file_size, block_size, coverage_map, cur_byte: start_byte }
    }

    /// The last block of the covered run that starts at block `a`, not past `last`.
    fn cache_run_end(&self, a: u64, last: u64) -> (b: u64)
        requires
            a <= last < self.coverage_map@.len(),
            self.coverage_map@[a as int],
        ensures
            cache_end_ok(self.coverage_map@, a as int, last as int, b as int),
    {
        let mut b = a;
        while b < last && self.coverage_map.is_covered(b + 1)
            invariant
                a <= b <= last < self.coverage_map@.len(),
                self.coverage_map@[a as int],
                forall|i: int| a <= i <= b ==> #[trigger] self.coverage_map@[i],
            decreases last - b,
        {
            b = b + 1;
        }
        b
    }

    /// The last block of the origin fetch that starts at the uncovered block `a`:
    /// covered runs are absorbed while they stay within the skip bound, and the fetch
    /// stops before the first run that grows past it.
    fn origin_run_end(&self, a: u64, last: u64) -> (b: u64)
        requires
            a <= last < self.coverage_map@.len(),
            !self.coverage_map@[a as int],
            0 < self.block_size,
        ensures
            origin_end_ok(
                self.coverage_map@,
                a as int,
                last as int,
                self.block_size as int,
                b as int,
            ),
    {
        let ghost cov = self.coverage_map@;
        let ghost bs = self.block_size as int;
        let max_skipped = MAX_COVERAGE_BLOCK_SKIP_SIZE / self.block_size;
        let mut j = a;
        let mut skipped: u64 = 0;
        while j < last
            invariant
                a <= j <= last < cov.len(),
                cov == self.coverage_map@,
                bs == self.block_size,
                0 < bs,
                !cov[a as int],
                max_skipped == MAX_COVERAGE_BLOCK_SKIP_SIZE as int / bs,
                skipped == run_len(cov, j as int),
                skipped <= max_skipped,
                forall|k: int| a < k <= j ==> !skip_too_long(#[trigger] run_len(cov, k) as int, bs),
            decreases last - j,
        {
            j = j + 1;
            if self.coverage_map.is_covered(j) {
                skipped = skipped + 1;
                proof {
                    lemma_skip_blocks(skipped as int, bs);
                }
                if skipped > max_skipped {
                    proof {
                        lemma_run_len(cov, j as int);
                        let b = j - skipped;
                        assert(b >= a) by {
                            if b < a {
                                assert(cov[a as int]);
                            }
                        }
                        assert(forall|i: int| b < i <= j ==> #[trigger] cov[i]);
                        assert(long_run_between(cov, b as int, j as int, bs));
                    }
                    return j - skipped;
                }
            } else {
                skipped = 0;
            }
            proof {
                lemma_skip_blocks(run_len(cov, j as int) as int, bs);
            }
        }
        last
    }

    /// Yields the next step of the plan, or `None` once the whole request is planned.
    pub fn next(&mut self) -> (r: Option<FileReadPlanStep>)
        requires
            old(self).wf(),
        ensures
            final(self).wf(),
            final(self).start_byte == old(self).start_byte,
            final(self).end_byte == old(self).end_byte,
            final(self).file_size == old(self).file_size,
            final(self).block_size == old(self).block_size,
            final(self).coverage_map@ == old(self).coverage_map@,
            old(self).cur_byte > old(self).end_byte ==> r is None && final(self).cur_byte
                == old(self).cur_byte,
            old(self).cur_byte <= old(self).end_byte ==> (r matches Some(st) && {
                &&& old(self).next_step_ok(st)
                &&& st.block_end_num <= old(self).end_byte / old(self).block_size
                &&& final(self).cur_byte == if st.block_end_num == old(self).end_byte
                    / old(self).block_size {
                    old(self).end_byte + 1
                } else {
                    (st.block_end_num + 1) * old(self).block_size
                }
                &&& final(self).cur_byte > old(self).cur_byte
                &&& (st.block_end_num == old(self).end_byte / old(self).block_size
                    <==> final(self).cur_byte > final(self).end_byte)
                &&& final(self).cur_byte <= final(self).end_byte ==> final(self).cur_byte
                    / final(self).block_size == st.block_end_num + 1
            }),
    {
        if self.cur_byte > self.end_byte {
            return None;
        }
        let ghost s = self.start_byte as int;
        let ghost e = self.end_byte as int;
        let ghost fs = self.file_size as int;
        let ghost cov = self.coverage_map@;
        let bs = self.block_size;
        proof {
            lemma_last_block(s, e, fs, bs as int, cov);
            lemma_div_is_ordered(self.cur_byte as int, e, bs as int);
        }
        let start_block = self.cur_byte / bs;
        let last_block = self.end_byte / bs;
        let client_start_offset = if self.cur_byte == self.start_byte {
            self.start_byte % bs
        } else {
            0
        };
        let kind;
        let block_end;
        if self.coverage_map.is_covered(start_block) {
            block_end = self.cache_run_end(start_block, last_block);
            kind = FileReadPlanStepKind::CACHE;
        } else {
            block_end = self.origin_run_end(start_block, last_block);
            proof {
                lemma_mul_inequality(block_end as int, last_block as int, bs as int);
                lemma_mul_inequality(start_block as int, block_end as int, bs as int);
            }
            let off = block_end * bs;
            let rest = self.file_size - 1 - off;
            let byte_end = if rest < bs - 1 {
                off + rest
            } else {
                off + (bs - 1)
            };
            kind = FileReadPlanStepKind::ORIGIN { byte_start: start_block * bs, byte_end };
        }
        let client_end_offset = if block_end == last_block {
            self.end_byte % bs
        } else {
            bs - 1
        };
        if block_end == last_block {
            self.cur_byte = self.end_byte + 1;
        } else {
            proof {
                lemma_mul_inequality(block_end as int + 1, last_block as int, bs as int);
                lemma_fundamental_div_mod(self.cur_byte as int, bs as int);
                lemma_mod_bound(self.cur_byte as int, bs as int);
                lemma_mul_inequality(start_block as int + 1, block_end as int + 1, bs as int);
                assert((start_block as int + 1) * bs == start_block as int * bs + bs)
                    by (nonlinear_arith);
                lemma_mod_multiples_basic(block_end as int + 1, bs as int);
                lemma_div_multiples_vanish(block_end as int + 1, bs as int);
                assert((block_end as int + 1) * bs as int <= e);
                let c = self.cur_byte as int;
                let d = bs as int;
                let be = block_end as int;
                assert((be + 1) * d > c) by (nonlinear_arith)
                    requires
                        be >= c / d,
                        c == d * (c / d) + (c % d),
                        c % d < d,
                        d > 0,
                ;
            }
            self.cur_byte = (block_end + 1) * bs;
        }
        Some(
            FileReadPlanStep {
                kind,
                block_start_num: start_block,
                block_end_num: block_end,
                client_start_offset,
                client_end_offset,
            },
        )
    }
}

/// Pushing the step that `next` yields keeps the collected steps a plan prefix,
/// or completes the plan.
proof fn lemma_plan_extend(
    before: Seq<FileReadPlanStep>,
    after: Seq<FileReadPlanStep>,
    st: FileReadPlanStep,
    cur: int,
    next_cur: int,
    s: int,
    e: int,
    fs: int,
    bs: int,
    cov: Seq<bool>,
)
    requires
        plan_inputs_ok(s, e, fs, bs, cov),
        s <= cur <= e,
        after == before.push(st),
        is_plan_prefix(before, s, e, fs, bs, cov),
        cur == s <==> before.len() == 0,
        cur / bs == step_start_block(before, before.len() as int, s, bs),
        step_ok(st, cur / bs, cur == s, s, e, fs, bs, cov),
        st.block_end_num <= e / bs,
        st.block_end_num == e / bs <==> next_cur > e,
        next_cur <= e ==> next_cur / bs == st.block_end_num + 1,
        next_cur <= e ==> next_cur == (st.block_end_num + 1) * bs,
    ensures
        next_cur <= e ==> is_plan_prefix(after, s, e, fs, bs, cov),
        next_cur <= e ==> (next_cur == s <==> after.len() == 0),
        next_cur <= e ==> next_cur / bs == step_start_block(after, after.len() as int, s, bs),
        next_cur > e ==> is_plan(after, s, e, fs, bs, cov),
{
    assert(after.drop_last() == before);
    assert(after.last() == st);
    assert forall|i: int| 0 <= i < before.len() implies #[trigger] after[i] == before[i]
        && step_start_block(after, i, s, bs) == step_start_block(before, i, s, bs) by {}
    assert(step_start_block(after, before.len() as int, s, bs) == step_start_block(
        before,
        before.len() as int,
        s,
        bs,
    ));
    if next_cur <= e {
        assert forall|i: int| 0 <= i < after.len() implies step_ok(
            #[trigger] after[i],
            step_start_block(after, i, s, bs),
            i == 0,
            s,
            e,
            fs,
            bs,
            cov,
        ) && after[i].block_end_num < e / bs by {
            if i < before.len() {
                assert(after[i] == before[i]);
            }
        }
        lemma_fundamental_div_mod(s, bs);
        lemma_mod_bound(s, bs);
        lemma_div_is_ordered(s, cur, bs);
        assert((st.block_end_num + 1) * bs > s) by (nonlinear_arith)
            requires
                st.block_end_num + 1 >= s / bs + 1,
                s == bs * (s / bs) + s % bs,
                s % bs < bs,
                0 < bs,
        ;
    }
}

impl FileReadPlan {
    /// Runs the plan from its start and collects all its steps, in order.
    pub fn into_steps(self) -> (r: Vec<FileReadPlanStep>)
        requires
            self.wf(),
            self.cur_byte == self.start_byte,
        ensures
            is_plan(
                r@,
                self.start_byte as int,
                self.end_byte as int,
                self.file_size as int,
                self.block_size as int,
                self.coverage_map@,
            ),
    {
        let ghost s = self.start_byte as int;
        let ghost e = self.end_byte as int;
        let ghost fs = self.file_size as int;
        let ghost bs = self.block_size as int;
        let ghost cov = self.coverage_map@;
        let mut plan = self;
        let mut steps: Vec<FileReadPlanStep> = Vec::new();
        proof {
            lemma_last_block(s, e, fs, bs, cov);
        }
        loop
            invariant
                plan.wf(),
                plan.start_byte == s,
                plan.end_byte == e,
                plan.file_size == fs,
                plan.block_size == bs,
                plan.coverage_map@ == cov,
                s == self.start_byte,
                e == self.end_byte,
                fs == self.file_size,
                bs == self.block_size,
                cov == self.coverage_map@,
                plan.cur_byte <= e ==> is_plan_prefix(steps@, s, e, fs, bs, cov),
                plan.cur_byte <= e ==> (plan.cur_byte == s <==> steps@.len() == 0),
                plan.cur_byte <= e ==> plan.cur_byte as int / bs == step_start_block(
                    steps@,
                    steps@.len() as int,
                    s,
                    bs,
                ),
                plan.cur_byte > e ==> is_plan(steps@, s, e, fs, bs, cov),
            decreases e + 1 - plan.cur_byte,
        {
            let ghost before = steps@;
            let ghost cur = plan.cur_byte;
            match plan.next() {
                None => {
                    assert(plan.cur_byte > e);
                    assert(is_plan(steps@, s, e, fs, bs, cov));

                    return steps;
                },
                Some(st) => {
                    steps.push(st);
                    proof {
                        lemma_plan_extend(before, steps@, st, cur as int, plan.cur_byte as int, s, e, fs, bs, cov);
                    }
                },
            }
        }
    }
}

/// The half-open range of byte positions `lo..hi`.
pub open spec fn byte_range(lo: int, hi: int) -> Seq<int> {
    Seq::new((hi - lo) as nat, |k: int| lo + k)
}

/// The first byte position of the object that step `st` sends to the client.
pub open spec fn visible_start(st: FileReadPlanStep, bs: int) -> int {
    st.block_start_num * bs + st.client_start_offset
}

/// One past the last byte position of the object that step `st` sends to the client.
pub open spec fn visible_end(st: FileReadPlanStep, bs: int) -> int {
    st.block_end_num * bs + st.client_end_offset + 1
}

/// The byte positions of the object that the steps send to the client, in order.
pub open spec fn plan_visible_bytes(steps: Seq<FileReadPlanStep>, bs: int) -> Seq<int>
    decreases steps.len(),
{
    if steps.len() == 0 {
        seq![]
    } else {
        plan_visible_bytes(steps.drop_last(), bs) + byte_range(
            visible_start(steps.last(), bs),
            visible_end(steps.last(), bs),
        )
    }
}

/// Step `i` of a plan is the step that starts where step `i - 1` ended.
proof fn lemma_plan_step(
    steps: Seq<FileReadPlanStep>,
    i: int,
    s: int,
    e: int,
    fs: int,
    bs: int,
    cov: Seq<bool>,
)
    requires
        is_plan(steps, s, e, fs, bs, cov),
        0 <= i < steps.len(),
    ensures
        step_ok(steps[i], step_start_block(steps, i, s, bs), i == 0, s, e, fs, bs, cov),
        i < steps.len() - 1 ==> steps[i].block_end_num < e / bs,
        i == steps.len() - 1 ==> steps[i].block_end_num == e / bs,
{
    let pre = steps.drop_last();
    if i < steps.len() - 1 {
        assert(pre[i] == steps[i]);
        if i > 0 {
            assert(pre[i - 1] == steps[i - 1]);
        }
        assert(step_start_block(pre, i, s, bs) == step_start_block(steps, i, s, bs));
    }
}

/// The bytes that step `i` sends follow those of step `i - 1` without gap or
/// overlap, start at `s` for the first step and end at `e` for the last.
proof fn lemma_step_visible(
    steps: Seq<FileReadPlanStep>,
    i: int,
    s: int,
    e: int,
    fs: int,
    bs: int,
    cov: Seq<bool>,
)
    requires
        plan_inputs_ok(s, e, fs, bs, cov),
        is_plan(steps, s, e, fs, bs, cov),
        0 <= i < steps.len(),
    ensures
        visible_start(steps[i], bs) == if i == 0 {
            s
        } else {
            visible_end(steps[i - 1], bs)
        },
        visible_start(steps[i], bs) <= visible_end(steps[i], bs),
        i == steps.len() - 1 ==> visible_end(steps[i], bs) == e + 1,
{
    lemma_last_block(s, e, fs, bs, cov);
    lemma_plan_step(steps, i, s, e, fs, bs, cov);
    let st = steps[i];
    let a = st.block_start_num as int;
    let b = st.block_end_num as int;
    let cso = st.client_start_offset as int;
    let ceo = st.client_end_offset as int;
    assert(a <= b);
    if i > 0 {
        lemma_plan_step(steps, i - 1, s, e, fs, bs, cov);
        let p = steps[i - 1].block_end_num as int;
        assert((p + 1) * bs == p * bs + bs) by (nonlinear_arith);
    }
    assert(cso < bs);
    if a < b {
        lemma_mul_inequality(a + 1, b, bs);
        assert((a + 1) * bs == a * bs + bs) by (nonlinear_arith);
    } else if i == 0 && b == e / bs {
        lemma_mod_bound(s, bs);
    }
}

/// The client-visible slices of the first `k` steps are the bytes from `s` up to
/// the end of step `k - 1`.
proof fn lemma_visible_prefix(
    steps: Seq<FileReadPlanStep>,
    k: int,
    s: int,
    e: int,
    fs: int,
    bs: int,
    cov: Seq<bool>,
)
    requires
        plan_inputs_ok(s, e, fs, bs, cov),
        is_plan(steps, s, e, fs, bs, cov),
        1 <= k <= steps.len(),
    ensures
        plan_visible_bytes(steps.take(k), bs) == byte_range(s, visible_end(steps[k - 1], bs)),
        s <= visible_end(steps[k - 1], bs),
    decreases k,
{
    let pre = steps.take(k);
    assert(pre.drop_last() == steps.take(k - 1));
    assert(pre.last() == steps[k - 1]);
    lemma_step_visible(steps, k - 1, s, e, fs, bs, cov);
    let lo = visible_start(steps[k - 1], bs);
    let hi = visible_end(steps[k - 1], bs);
    if k == 1 {
        assert(steps.take(0) == Seq::<FileReadPlanStep>::empty());
        assert(plan_visible_bytes(steps.take(0), bs) == Seq::<int>::empty());
        assert(plan_visible_bytes(pre, bs) =~= byte_range(s, hi));
    } else {
        lemma_visible_prefix(steps, k - 1, s, e, fs, bs, cov);
        assert(byte_range(s, lo) + byte_range(lo, hi) =~= byte_range(s, hi));
    }
}

/// A plan for the request `[s, e]` sends the client exactly the bytes `s..=e` of
/// the object, in order, each once: the client-visible slices of its steps, put
/// end to end, leave no gap and repeat nothing.
pub proof fn lemma_plan_sends_exactly_request(
    steps: Seq<FileReadPlanStep>,
    s: int,
    e: int,
    fs: int,
    bs: int,
    cov: Seq<bool>,
)
    requires
        plan_inputs_ok(s, e, fs, bs, cov),
        is_plan(steps, s, e, fs, bs, cov),
    ensures
        plan_visible_bytes(steps, bs) == byte_range(s, e + 1),
{
    lemma_visible_prefix(steps, steps.len() as int, s, e, fs, bs, cov);
    lemma_step_visible(steps, steps.len() - 1, s, e, fs, bs, cov);
    assert(steps.take(steps.len() as int) == steps);
}

/// Every origin step of a plan fetches at least one block that the coverage map
/// lacks: its first block is missing, and the fetched byte range holds it whole.
pub proof fn lemma_origin_step_fetches_missing_block(
    steps: Seq<FileReadPlanStep>,
    s: int,
    e: int,
    fs: int,
    bs: int,
    cov: Seq<bool>,
    i: int,
)
    requires
        plan_inputs_ok(s, e, fs, bs, cov),
        is_plan(steps, s, e, fs, bs, cov),
        0 <= i < steps.len(),
        steps[i].kind is ORIGIN,
    ensures
        ({
            let n = steps[i].block_start_num as int;
            let byte_start = steps[i].kind->ORIGIN_byte_start as int;
            let byte_end = steps[i].kind->ORIGIN_byte_end as int;
            &&& 0 <= n < cov.len()
            &&& !cov[n]
            &&& byte_start <= n * bs
            &&& spec_min(n * bs + bs - 1, fs - 1) <= byte_end
        }),
{
    lemma_last_block(s, e, fs, bs, cov);
    lemma_plan_step(steps, i, s, e, fs, bs, cov);
    let n = steps[i].block_start_num as int;
    let b = steps[i].block_end_num as int;
    lemma_mul_inequality(n, b, bs);
    if i > 0 {
        lemma_plan_step(steps, i - 1, s, e, fs, bs, cov);
    } else {
        lemma_div_is_ordered(0, s, bs);
    }
}

/// Inside an origin step, every stretch of consecutive blocks that the coverage
/// map already holds amounts to at most `MAX_COVERAGE_BLOCK_SKIP_SIZE` bytes.
pub proof fn lemma_origin_step_skips_bounded(
    steps: Seq<FileReadPlanStep>,
    s: int,
    e: int,
    fs: int,
    bs: int,
    cov: Seq<bool>,
    i: int,
    lo: int,
    hi: int,
)
    requires
        plan_inputs_ok(s, e, fs, bs, cov),
        is_plan(steps, s, e, fs, bs, cov),
        0 <= i < steps.len(),
        steps[i].kind is ORIGIN,
        steps[i].block_start_num <= lo <= hi <= steps[i].block_end_num,
        forall|k: int| lo <= k <= hi ==> #[trigger] cov[k],
    ensures
        (hi - lo + 1) * bs <= MAX_COVERAGE_BLOCK_SKIP_SIZE,
{
    lemma_last_block(s, e, fs, bs, cov);
    lemma_plan_step(steps, i, s, e, fs, bs, cov);
    let a = steps[i].block_start_num as int;
    assert(lo > a);
    lemma_run_len_at_least(cov, lo, hi);
    assert(!skip_too_long(run_len(cov, hi) as int, bs));
    lemma_mul_inequality(hi - lo + 1, run_len(cov, hi) as int, bs);
}

} // verus!
