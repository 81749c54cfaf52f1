use stavka::cachestate::LoadedCoverageMap;
use stavka::fill::{block_len, blocks_to_fill};

#[test]
fn whole_and_short_blocks() {
    assert_eq!(block_len(10240, 1024, 0), Some(1024));
    assert_eq!(block_len(10240, 1024, 9), Some(1024));
    assert_eq!(block_len(10240, 1024, 10), None);
    assert_eq!(block_len(2500, 1024, 2), Some(452));
    assert_eq!(block_len(2500, 1024, 3), None);
    assert_eq!(block_len(0, 1024, 0), None);
}

#[test]
fn block_len_large_numbers() {
    assert_eq!(block_len(u64::MAX, u32::MAX, u64::MAX), None);
    assert_eq!(block_len(u64::MAX, 1, u64::MAX - 1), Some(1));
    assert_eq!(block_len(u64::MAX, 1, u64::MAX), None);
}

#[test]
fn fill_skips_covered_blocks() {
    let cov = LoadedCoverageMap(vec![true, false, true, true, false, false]);
    assert_eq!(blocks_to_fill(&cov, 0, 5), vec![1, 4, 5]);
    assert_eq!(blocks_to_fill(&cov, 2, 3), Vec::<u64>::new());
    assert_eq!(blocks_to_fill(&cov, 4, 4), vec![4]);
    assert_eq!(blocks_to_fill(&cov, 5, 4), Vec::<u64>::new());
}
