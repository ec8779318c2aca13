use coldpath::analysis::Status;
use coldpath::analyze::{BundleInput, analyze};
use coldpath::bundle::sha256;
use coldpath::coverage::{CoverageRange, FunctionCoverage, Interval, union};
use coldpath::input::{Observation, Ranges};

fn observed(source: &str, ranges: &[(usize, usize, u64)]) -> Observation {
    Observation {
        scenario: "run".to_string(),
        format: "bundle-trace".to_string(),
        hash: Some(sha256(source.as_bytes())),
        source: None,
        map_hash: None,
        ranges: Ranges::V8(vec![FunctionCoverage {
            is_block_coverage: true,
            ranges: ranges
                .iter()
                .map(|&(start_offset, end_offset, count)| CoverageRange { start_offset, end_offset, count })
                .collect(),
        }]),
    }
}

#[test]
fn spans_and_sources_partition_every_bundle() {
    let source = "xxabcd\nwrapper\nz";
    let map = r#"{"version":3,"sources":["src/a.js","src/b.js"],"names":[],"mappings":"EAAA,ECAA;;AAAA"}"#;
    let coverage = vec![("app.js".to_string(), vec![observed(source, &[(0, 16, 0), (3, 10, 1)])])];
    let report = analyze(
        vec![BundleInput { path: "app.js".to_string(), content: source.to_string(), map_data: Some(map.as_bytes().to_vec()) }],
        coverage,
        vec!["run".to_string()],
        Vec::new(),
    )
    .unwrap();
    let bundle = &report.bundles[0];
    let counts = bundle.counts;
    assert_eq!(counts.bytes, source.len());
    assert_eq!(counts.observed_bytes + counts.unobserved_bytes + counts.unmeasured_bytes, counts.bytes);
    assert_eq!(counts.observed_bytes, 7);
    // Spans tile the bundle.
    assert_eq!(bundle.spans.iter().map(|s| s.end - s.start).sum::<usize>(), counts.bytes);
    for pair in bundle.spans.windows(2) {
        assert_eq!(pair[0].end, pair[1].start);
    }
    // Sources partition the bundle, and each source's spans carry its counts.
    assert_eq!(bundle.sources.iter().map(|s| s.counts.bytes).sum::<usize>(), counts.bytes);
    assert_eq!(bundle.sources.iter().map(|s| s.counts.observed_bytes).sum::<usize>(), counts.observed_bytes);
    for (index, source) in bundle.sources.iter().enumerate() {
        let in_status = |status: Status| {
            bundle.spans.iter().filter(|s| s.source == index && s.status == status).map(|s| s.end - s.start).sum::<usize>()
        };
        assert_eq!(in_status(Status::Observed), source.counts.observed_bytes);
        assert_eq!(in_status(Status::Unobserved), source.counts.unobserved_bytes);
    }
    // Report totals add up the bundles and split into the three states.
    let totals = report.totals;
    assert_eq!(totals.bytes, counts.bytes);
    assert_eq!(totals.observed_bytes + totals.unobserved_bytes + totals.unmeasured_bytes, totals.bytes);
}

#[test]
fn summaries_keep_every_count() {
    let source = "abcd";
    let coverage = vec![("app.js".to_string(), vec![observed(source, &[(0, 4, 0), (1, 3, 1)])])];
    let mut report = analyze(
        vec![BundleInput { path: "app.js".to_string(), content: source.to_string(), map_data: None }],
        coverage,
        vec!["run".to_string()],
        Vec::new(),
    )
    .unwrap();
    let totals = report.totals;
    let bundle_counts = report.bundles[0].counts;
    report.strip_details();
    assert!(!report.details);
    assert_eq!(report.totals, totals);
    assert_eq!(report.bundles[0].counts, bundle_counts);
    assert!(report.bundles[0].spans.is_empty());
    assert!(report.bundles[0].generated_source.is_empty());
}

#[test]
fn union_twice_changes_nothing() {
    let ranges = vec![
        Interval { start: 5, end: 8 },
        Interval { start: 0, end: 2 },
        Interval { start: 2, end: 3 },
        Interval { start: 7, end: 10 },
    ];
    let once = union(ranges);
    assert_eq!(once, vec![Interval { start: 0, end: 3 }, Interval { start: 5, end: 10 }]);
    let twice = union(once.clone());
    assert_eq!(twice, once);
}
