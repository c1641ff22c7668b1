use chunkah::packing::{calculate_packing, PackItem};
use chunkah::utils::{calculate_stability, get_current_epoch, get_goarch, STABILITY_QUIET_SCORE,
    STABILITY_SCALE};

const SECS_PER_DAY: u64 = 86400;

fn items_of(specs: &[(u64, u64)]) -> Vec<PackItem> {
    specs
        .iter()
        .map(|&(size, stability)| PackItem { size, stability })
        .collect()
}

fn verify_packing_result(input: &[(u64, u64)], result: &[chunkah::packing::PackGroup], max_groups: usize) {
    // group count respects max_groups
    assert!(
        result.len() <= max_groups,
        "too many groups: {} > {}",
        result.len(),
        max_groups
    );

    // all indices present exactly once (no loss, no duplication)
    let mut output_indices: Vec<usize> = result.iter().flat_map(|g| &g.indices).copied().collect();
    output_indices.sort();
    let expected_indices: Vec<usize> = (0..input.len()).collect();
    assert_eq!(output_indices, expected_indices, "indices mismatch");

    // no empty groups
    assert!(
        result.iter().all(|g| !g.indices.is_empty()),
        "found empty group"
    );

    // sorted by stability descending
    for i in 1..result.len() {
        assert!(
            result[i - 1].stability >= result[i].stability,
            "groups not sorted by stability"
        );
    }

    // total size preserved
    let input_total: u64 = input.iter().map(|c| c.0).sum();
    let output_total: u64 = result
        .iter()
        .flat_map(|g| &g.indices)
        .map(|&idx| input[idx].0)
        .sum();
    assert_eq!(input_total, output_total, "total size mismatch");
}

#[test]
fn test_edge_cases() {
    // empty input
    assert!(calculate_packing(&Vec::new(), 5).is_empty());

    // max_groups = 0
    let items = items_of(&[(100, 500_000_000)]);
    assert!(calculate_packing(&items, 0).is_empty());

    // single item
    let spec = [(100u64, 500_000_000u64)];
    let items = items_of(&spec);
    let result = calculate_packing(&items, 5);
    assert_eq!(result.len(), 1);
    assert_eq!(result[0].indices, vec![0]);
    verify_packing_result(&spec, &result, 5);
}

#[test]
fn test_no_packing_needed() {
    // Items with different stabilities
    let spec = [
        (100u64, 900_000_000u64),
        (200, 800_000_000),
        (300, 700_000_000),
    ];
    let items = items_of(&spec);
    let result = calculate_packing(&items, 5);
    assert_eq!(result.len(), 3);
    // Should be sorted by stability descending
    assert_eq!(result[0].indices, vec![0]);
    assert_eq!(result[1].indices, vec![1]);
    assert_eq!(result[2].indices, vec![2]);
    verify_packing_result(&spec, &result, 5);
}

#[test]
fn test_pack_to_one_group() {
    let spec = [
        (100u64, 500_000_000u64),
        (200, 500_000_000),
        (300, 500_000_000),
    ];
    let items = items_of(&spec);
    let result = calculate_packing(&items, 1);
    assert_eq!(result.len(), 1);
    assert_eq!(result[0].indices.len(), 3);
    let mut indices = result[0].indices.clone();
    indices.sort();
    assert_eq!(indices, vec![0, 1, 2]);
    verify_packing_result(&spec, &result, 1);
}

#[test]
fn test_size_constant_stability_changes() {
    // merging two high-stability items has less loss than merging
    // a high-stability with a low-stability item
    let spec = [
        (1000u64, 990_000_000u64),
        (1000, 990_000_000),
        (1000, 300_000_000),
    ];
    let items = items_of(&spec);
    let result = calculate_packing(&items, 2);
    assert_eq!(result.len(), 2);

    // the two stable items (indices 0 and 1) should be merged together
    let merged_group = result
        .iter()
        .find(|g| g.indices.len() == 2)
        .expect("one group should have 2 items");
    let mut merged_indices = merged_group.indices.clone();
    merged_indices.sort();
    assert_eq!(merged_indices, vec![0, 1]);
    verify_packing_result(&spec, &result, 2);
}

#[test]
fn test_stability_constant_size_changes() {
    // with uniform stability, merging smaller items has less loss
    let spec = [
        (10000u64, 500_000_000u64),
        (10, 500_000_000),
        (10, 500_000_000),
    ];
    let items = items_of(&spec);
    let result = calculate_packing(&items, 2);
    assert_eq!(result.len(), 2);

    // The two small items should be merged; the huge one stays alone.
    let huge_group = result.iter().find(|g| g.indices.contains(&0));
    assert!(huge_group.is_some());
    assert_eq!(huge_group.unwrap().indices.len(), 1);

    let small_group = result.iter().find(|g| g.indices.contains(&1));
    assert!(small_group.is_some());
    assert!(small_group.unwrap().indices.contains(&2));
    verify_packing_result(&spec, &result, 2);
}

#[test]
fn test_calculate_stability_all_old_entries() {
    // All entries older than 1 year should return the quiet score.
    let now: u64 = 2_000_000_000;
    let old_time = now - 400 * SECS_PER_DAY; // 400 days ago
    let changelog_times = vec![old_time, old_time - SECS_PER_DAY];
    let buildtime = old_time;

    let stability = calculate_stability(&changelog_times, buildtime, now);
    assert_eq!(stability, STABILITY_QUIET_SCORE);
}

#[test]
fn test_calculate_stability_very_recent() {
    // Package built within 1 day should return 0.
    let now: u64 = 2_000_000_000;
    let recent_time = now - 3600; // 1 hour ago
    let changelog_times = vec![recent_time];
    let buildtime = recent_time;

    let stability = calculate_stability(&changelog_times, buildtime, now);
    assert_eq!(stability, 0);
}

#[test]
fn test_calculate_stability_no_changelog_uses_buildtime() {
    // No changelog entries should use buildtime as fallback.
    let now: u64 = 2_000_000_000;
    let buildtime = now - 30 * SECS_PER_DAY; // 30 days ago
    let changelog_times: Vec<u64> = vec![];

    // 1 change over 30 days: exp(-7/30) is roughly 0.79.
    let stability = calculate_stability(&changelog_times, buildtime, now);
    assert!(
        stability >= 750_000_000 && stability <= 850_000_000,
        "stability {stability} out of range"
    );
}

#[test]
fn test_calculate_stability_normal_case() {
    // 4 changes over 100 days: exp(-0.28) is roughly 0.76.
    let now: u64 = 2_000_000_000;
    let changelog_times = vec![
        now - 10 * SECS_PER_DAY,
        now - 30 * SECS_PER_DAY,
        now - 60 * SECS_PER_DAY,
        now - 100 * SECS_PER_DAY,
    ];
    let buildtime = now - 100 * SECS_PER_DAY;

    let stability = calculate_stability(&changelog_times, buildtime, now);
    assert!(
        stability >= 700_000_000 && stability <= 800_000_000,
        "stability {stability} out of range"
    );
}

#[test]
fn test_calculate_stability_high_frequency() {
    // 10 changes over 20 days: exp(-3.5) is roughly 0.03.
    let now: u64 = 2_000_000_000;
    let changelog_times: Vec<u64> = (0..10u64)
        .map(|i| now - (2 + i * 2) * SECS_PER_DAY)
        .collect();
    let buildtime = now - 20 * SECS_PER_DAY;

    let stability = calculate_stability(&changelog_times, buildtime, now);
    assert!(
        stability <= 100_000_000,
        "stability {stability} out of range"
    );
}

#[test]
fn test_calculate_stability_boundaries() {
    // A same-instant history is too fresh to judge.
    let now: u64 = 2_000_000_000;
    assert_eq!(calculate_stability(&vec![], now, now), 0);

    // A single entry just outside the lookback window is quiet.
    let t = now - 366 * SECS_PER_DAY;
    assert_eq!(
        calculate_stability(&vec![t], t, now),
        STABILITY_QUIET_SCORE
    );

    // Every result stays within the scale.
    for offset in [0u64, 1, 3600, 86400, 864000, 8640000] {
        let s = calculate_stability(&vec![now - offset], now - offset, now);
        assert!(s <= STABILITY_SCALE);
    }
}

#[test]
fn test_get_goarch() {
    assert_eq!(get_goarch("x86_64"), "amd64");
    assert_eq!(get_goarch("aarch64"), "arm64");
    assert_eq!(get_goarch("powerpc64"), "ppc64le");
    assert_eq!(get_goarch("amd64"), "amd64"); // passthrough
    assert_eq!(get_goarch("unknown"), "unknown"); // passthrough
}

#[test]
fn test_get_current_epoch() {
    let now = get_current_epoch().unwrap();
    // Any sane clock is far past the epoch.
    assert!(now > 1_000_000_000);
}
