use memreclaim::stats::{parse_memory_stats, parse_u64_strip_prefix, MemoryStats};

#[test]
fn strip_prefix_values() {
    assert_eq!(parse_u64_strip_prefix("rss ", "rss 42"), Some(42));
    assert_eq!(parse_u64_strip_prefix("rss ", "  rss 42  "), Some(42));
    assert_eq!(parse_u64_strip_prefix("rss ", "rss_huge 42"), None);
    assert_eq!(parse_u64_strip_prefix("rss ", "cache 42"), None);
    assert_eq!(parse_u64_strip_prefix("rss ", "rss x"), None);
    assert_eq!(parse_u64_strip_prefix("rss ", "rss +7"), Some(7));
    assert_eq!(parse_u64_strip_prefix("rss ", "rss 18446744073709551616"), None);
    assert_eq!(parse_u64_strip_prefix("rss ", "rss 18446744073709551615"), Some(u64::MAX));
}

#[test]
fn memory_stats_from_files() {
    let stat = "cache 30000000\nrss 1234\nrss_huge 0\nmapped_file 5\n";
    let r = parse_memory_stats(stat, "100000000\n");
    assert_eq!(r, MemoryStats { limit: 100_000_000, cache: 30_000_000, rss: 1234 });
}

#[test]
fn memory_stats_first_line_wins_and_missing_is_zero() {
    let r = parse_memory_stats("rss 1\nrss 2\ntotal_cache 9\n", "garbage");
    assert_eq!(r, MemoryStats { limit: 0, cache: 0, rss: 1 });
    let r = parse_memory_stats("", "");
    assert_eq!(r, MemoryStats { limit: 0, cache: 0, rss: 0 });
}
