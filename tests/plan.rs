use stavka::cachestate::LoadedCoverageMap;
use stavka::plan::{FileReadPlan, FileReadPlanStep, FileReadPlanStepKind};

fn coverage(bits: &str) -> LoadedCoverageMap {
    LoadedCoverageMap(bits.chars().map(|c| c == '1').collect())
}

fn plan(start: u64, end: u64, size: u64, block_size: u64, bits: &str) -> Vec<FileReadPlanStep> {
    FileReadPlan::new(start, end, size, block_size, coverage(bits)).into_steps()
}

fn cache(a: u64, b: u64, cs: u64, ce: u64) -> FileReadPlanStep {
    FileReadPlanStep {
        kind: FileReadPlanStepKind::CACHE,
        block_start_num: a,
        block_end_num: b,
        client_start_offset: cs,
        client_end_offset: ce,
    }
}

fn origin(a: u64, b: u64, bs: u64, be: u64, cs: u64, ce: u64) -> FileReadPlanStep {
    FileReadPlanStep {
        kind: FileReadPlanStepKind::ORIGIN { byte_start: bs, byte_end: be },
        block_start_num: a,
        block_end_num: b,
        client_start_offset: cs,
        client_end_offset: ce,
    }
}

/// The byte positions that the steps send to the client, in order.
fn visible(steps: &[FileReadPlanStep], block_size: u64) -> Vec<u64> {
    let mut out = Vec::new();
    for st in steps {
        let lo = st.block_start_num * block_size + st.client_start_offset;
        let hi = st.block_end_num * block_size + st.client_end_offset;
        out.extend(lo..=hi);
    }
    out
}

#[test]
fn full_hit() {
    let steps = plan(0, 10239, 10240, 1024, "1111111111");
    assert_eq!(steps, vec![cache(0, 9, 0, 1023)]);
}

#[test]
fn full_miss() {
    let steps = plan(0, 10239, 10240, 1024, "0000000000");
    assert_eq!(steps, vec![origin(0, 9, 0, 10239, 0, 1023)]);
}

#[test]
fn split_range() {
    let steps = plan(0, 10239, 10240, 1024, "1111100000");
    assert_eq!(steps, vec![cache(0, 4, 0, 1023), origin(5, 9, 5120, 10239, 0, 1023)]);
}

#[test]
fn small_gap_coalesced() {
    let steps = plan(0, 10239, 10240, 1024, "1110111111");
    assert_eq!(steps, vec![cache(0, 2, 0, 1023), origin(3, 9, 3072, 10239, 0, 1023)]);
}

#[test]
fn large_gap_not_coalesced() {
    let mib: u64 = 1 << 20;
    let steps = plan(0, 10 * mib - 1, 10 * mib, mib, "0111111110");
    assert_eq!(
        steps,
        vec![
            origin(0, 0, 0, mib - 1, 0, mib - 1),
            cache(1, 8, 0, mib - 1),
            origin(9, 9, 9 * mib, 10 * mib - 1, 0, mib - 1),
        ]
    );
}

#[test]
fn unaligned_request() {
    let steps = plan(500, 1500, 10240, 1024, "1111111111");
    assert_eq!(steps, vec![cache(0, 1, 500, 476)]);
}

#[test]
fn skip_bound_exactly_reached_is_absorbed() {
    // Five covered blocks of 1 MiB make exactly the bound: they are absorbed.
    let mib: u64 = 1 << 20;
    let steps = plan(0, 7 * mib - 1, 7 * mib, mib, "0111110");
    assert_eq!(steps, vec![origin(0, 6, 0, 7 * mib - 1, 0, mib - 1)]);
}

#[test]
fn skip_bound_exceeded_at_tail_rolls_back() {
    let mib: u64 = 1 << 20;
    let steps = plan(0, 7 * mib - 1, 7 * mib, mib, "0111111");
    assert_eq!(steps, vec![origin(0, 0, 0, mib - 1, 0, mib - 1), cache(1, 6, 0, mib - 1)]);
}

#[test]
fn trailing_covered_run_absorbed() {
    let steps = plan(0, 4095, 4096, 1024, "0011");
    assert_eq!(steps, vec![origin(0, 3, 0, 4095, 0, 1023)]);
}

#[test]
fn short_last_block_clamps_origin_end() {
    let steps = plan(0, 2499, 2500, 1024, "100");
    assert_eq!(steps, vec![cache(0, 0, 0, 1023), origin(1, 2, 1024, 2499, 0, 451)]);
}

#[test]
fn request_inside_one_block() {
    let steps = plan(1030, 1040, 10240, 1024, "0000000000");
    assert_eq!(steps, vec![origin(1, 1, 1024, 2047, 6, 16)]);
}

#[test]
fn request_stops_before_later_blocks() {
    let steps = plan(0, 2047, 10240, 1024, "1100000000");
    assert_eq!(steps, vec![cache(0, 1, 0, 1023)]);
}

#[test]
fn next_yields_steps_then_none() {
    let mut p = FileReadPlan::new(0, 10239, 10240, 1024, coverage("1111100000"));
    assert_eq!(p.next(), Some(cache(0, 4, 0, 1023)));
    assert_eq!(p.next(), Some(origin(5, 9, 5120, 10239, 0, 1023)));
    assert_eq!(p.next(), None);
    assert_eq!(p.next(), None);
}

#[test]
fn visible_bytes_are_the_request() {
    let patterns = ["1010110011", "0000000000", "1111111111", "0110100101"];
    for bits in patterns {
        for (s, e) in [(0u64, 10239u64), (100, 5000), (1023, 1024), (7000, 7000)] {
            let steps = plan(s, e, 10240, 1024, bits);
            let expected: Vec<u64> = (s..=e).collect();
            assert_eq!(visible(&steps, 1024), expected);
        }
    }
}

#[test]
fn origin_steps_start_at_missing_block() {
    let bits = "0110100101";
    let cov: Vec<bool> = bits.chars().map(|c| c == '1').collect();
    for st in plan(0, 10239, 10240, 1024, bits) {
        if let FileReadPlanStepKind::ORIGIN { byte_start, byte_end } = st.kind {
            assert!(!cov[st.block_start_num as usize]);
            assert_eq!(byte_start, st.block_start_num * 1024);
            assert!(byte_end >= byte_start + 1023);
        }
    }
}

#[test]
fn covered_runs_inside_origin_steps_are_bounded() {
    // 3 MiB blocks: a single covered block (3 MiB) is absorbed, two (6 MiB) are not.
    let bs: u64 = 3 << 20;
    let steps = plan(0, 8 * bs - 1, 8 * bs, bs, "01011000");
    assert_eq!(
        steps,
        vec![
            origin(0, 2, 0, 3 * bs - 1, 0, bs - 1),
            cache(3, 4, 0, bs - 1),
            origin(5, 7, 5 * bs, 8 * bs - 1, 0, bs - 1),
        ]
    );
}

#[test]
fn separate_runs_within_bound_are_each_absorbed() {
    // Two covered runs of 5 MiB each: every run stays within the bound, so both
    // are absorbed into one origin fetch.
    let mib: u64 = 1 << 20;
    let steps = plan(0, 13 * mib - 1, 13 * mib, mib, "0111110111110");
    assert_eq!(steps, vec![origin(0, 12, 0, 13 * mib - 1, 0, mib - 1)]);
}
