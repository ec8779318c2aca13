use coldpath::analyze::{BundleInput, ReportError, analyze};
use coldpath::attribution;
use coldpath::bundle::{AnalysisError, sha256};
use coldpath::coverage::{self, CoverageRange, FunctionCoverage, Interval};
use coldpath::input::{BindingError, Observation, Ranges};
use coldpath::text::TextIndex;

fn function(ranges: &[(usize, usize, u64)]) -> FunctionCoverage {
    FunctionCoverage {
        is_block_coverage: true,
        ranges: ranges
            .iter()
            .map(|&(start_offset, end_offset, count)| CoverageRange { start_offset, end_offset, count })
            .collect(),
    }
}

fn bundle(path: &str, content: &str, map: Option<&str>) -> BundleInput {
    BundleInput {
        path: path.to_string(),
        content: content.to_string(),
        map_data: map.map(|m| m.as_bytes().to_vec()),
    }
}

/// An observation as a hash-bound envelope records it.
fn envelope(scenario: &str, source: &str, map: Option<&str>, ranges: &[(usize, usize, u64)]) -> Observation {
    Observation {
        scenario: scenario.to_string(),
        format: "bundle-trace".to_string(),
        hash: Some(sha256(source.as_bytes())),
        source: None,
        map_hash: Some(map.map(|m| sha256(m.as_bytes()))),
        ranges: Ranges::V8(vec![function(ranges)]),
    }
}

fn source_bytes(segments: &[attribution::Segment], name: &str) -> usize {
    segments.iter().filter(|s| s.source == name).map(|s| s.end - s.start).sum()
}

#[test]
fn nested_zero_range_does_not_erase_executed_child() {
    let text = TextIndex::new(&"x".repeat(100));
    let ranges = coverage::used_ranges(
        &vec![function(&[(0, 100, 1), (10, 90, 0)]), function(&[(20, 40, 1), (25, 30, 0)])],
        &text,
    )
    .unwrap();
    assert_eq!(
        ranges,
        vec![
            Interval { start: 0, end: 10 },
            Interval { start: 20, end: 25 },
            Interval { start: 30, end: 40 },
            Interval { start: 90, end: 100 }
        ]
    );
}

#[test]
fn adjacent_and_equal_start_ranges() {
    let text = TextIndex::new("0123456789");
    let ranges = coverage::used_ranges(&vec![function(&[(0, 10, 1), (0, 3, 0), (3, 6, 0)])], &text).unwrap();
    assert_eq!(ranges, vec![Interval { start: 6, end: 10 }]);
}

#[test]
fn crossing_ranges_fail_instead_of_silently_miscounting() {
    let text = TextIndex::new(&"x".repeat(20));
    assert!(coverage::used_ranges(&vec![function(&[(0, 10, 1)]), function(&[(5, 15, 0)])], &text).is_err());
}

#[test]
fn rejects_invalid_offsets_and_blocks() {
    let text = TextIndex::new("한🔥x");
    for ranges in [&[(0, 9, 1)][..], &[(0, 4, 1), (1, 2, 0)][..], &[(1, 3, 1), (0, 1, 0)][..], &[(3, 1, 1)][..]] {
        assert!(coverage::used_ranges(&vec![function(ranges)], &text).is_err());
    }
}

#[test]
fn utf16_and_all_javascript_line_endings() {
    let text = TextIndex::new("한🔥\r\nx\ry\u{2028}z\u{2029}");
    assert_eq!(text.byte(1).unwrap(), 3);
    assert!(text.byte(2).is_err());
    assert_eq!(text.byte(3).unwrap(), 7);
    assert_eq!(text.position(1, 0).unwrap(), 9);
    assert_eq!(text.position(2, 0).unwrap(), 11);
    assert_eq!(text.position(3, 0).unwrap(), 15);
    assert_eq!(text.position(4, 0).unwrap(), 19);
    assert!(text.position(0, 4).is_err());
}

#[test]
fn utf8_bytes_and_utf16_units_are_separate() {
    let source = "한🔥x";
    let map = r#"{"version":3,"sources":["src/a.js"],"names":[],"mappings":"AAAA"}"#;
    let coverage = vec![(
        "app.js".to_string(),
        vec![envelope("run.json", source, Some(map), &[(0, 4, 1), (1, 3, 0)])],
    )];
    let report = analyze(vec![bundle("app.js", source, Some(map))], coverage, vec!["run.json".to_string()], Vec::new())
        .unwrap();
    assert_eq!(report.totals.bytes, 8);
    assert_eq!(report.totals.observed_bytes, 4);
    assert_eq!(report.totals.unobserved_bytes, 4);
    assert_eq!(report.bundles[0].observed_utf16_units, Some(2));
}

#[test]
fn static_mode_and_missing_script_are_unmeasured() {
    let bundles = || vec![bundle("app.js", "abcd", None), bundle("lazy.js", "later", None)];
    let report = analyze(bundles(), Vec::new(), Vec::new(), Vec::new()).unwrap();
    assert_eq!(report.totals.unmeasured_bytes, 9);
    assert_eq!(report.totals.unobserved_bytes, 0);
    let coverage = vec![("app.js".to_string(), vec![envelope("run.json", "abcd", None, &[(0, 4, 0)])])];
    let report = analyze(bundles(), coverage, vec!["run.json".to_string()], Vec::new()).unwrap();
    assert_eq!(report.totals.unobserved_bytes, 4);
    assert_eq!(report.totals.unmeasured_bytes, 5);
}

#[test]
fn stale_bundle_and_stale_map_are_rejected() {
    let coverage = || vec![("app.js".to_string(), vec![envelope("run.json", "abcd", None, &[(0, 4, 1)])])];
    let err = analyze(vec![bundle("app.js", "abce", None)], coverage(), Vec::new(), Vec::new()).unwrap_err();
    assert!(matches!(err, ReportError::Bundle(AnalysisError::Binding(BindingError::HashMismatch(_)))));
    let map = r#"{"version":3,"sources":[],"names":[],"mappings":""}"#;
    let err = analyze(vec![bundle("app.js", "abcd", Some(map))], coverage(), Vec::new(), Vec::new()).unwrap_err();
    assert!(matches!(err, ReportError::Bundle(AnalysisError::Binding(BindingError::MapHashMismatch(_)))));
}

#[test]
fn multiple_scenarios_union_without_double_counting() {
    let first = || envelope("one.json", "0123456789", None, &[(0, 10, 0), (0, 5, 1)]);
    let second = envelope("two.json", "0123456789", None, &[(0, 10, 0), (3, 8, 1)]);
    let coverage = vec![("app.js".to_string(), vec![first(), second, first()])];
    let scenarios = vec!["one.json".to_string(), "two.json".to_string(), "one.json".to_string()];
    let report = analyze(vec![bundle("app.js", "0123456789", None)], coverage, scenarios, Vec::new()).unwrap();
    assert_eq!(report.totals.observed_bytes, 8);
    assert_eq!(report.totals.unobserved_bytes, 2);
}

#[test]
fn mapping_does_not_claim_unmapped_lines_or_prefixes() {
    let source = "xxabcd\nwrapper\nz";
    let map = br#"{"version":3,"sources":["src/a.js"],"names":[],"mappings":"EAAA,E;"}"#;
    let segments = attribution::segments(map, &TextIndex::new(source), source.len()).unwrap();
    assert_eq!(source_bytes(&segments, "src/a.js"), 2);
    assert_eq!(segments.iter().map(|s| s.end - s.start).sum::<usize>(), source.len());
}

#[test]
fn indexed_source_maps_and_missing_sources_content_work() {
    let map = br#"{"version":3,"sections":[{"offset":{"line":0,"column":0},"map":{"version":3,"sources":["a.js"],"names":[],"mappings":"AAAA"}},{"offset":{"line":1,"column":1},"map":{"version":3,"sources":["b.js"],"names":[],"mappings":"AAAA"}}]}"#;
    let source = "abc\n xyz";
    let segments = attribution::segments(map, &TextIndex::new(source), source.len()).unwrap();
    assert_eq!(source_bytes(&segments, "a.js"), 3);
    assert_eq!(source_bytes(&segments, "b.js"), 3);
}

#[test]
fn indexed_sections_preserve_empty_and_unmapped_prefixes() {
    let source = "abcdefghij";
    for (mappings, expected) in [
        ("EAAA", vec![(0, 5, "a.ts"), (5, 7, "[unmapped]"), (7, 10, "b.ts")]),
        ("", vec![(0, 5, "a.ts"), (5, 10, "[unmapped]")]),
        ("AAAA", vec![(0, 5, "a.ts"), (5, 10, "b.ts")]),
    ] {
        let map = format!(
            r#"{{"version":3,"sections":[{{"offset":{{"line":0,"column":0}},"map":{{"version":3,"sources":["a.ts"],"names":[],"mappings":"AAAA"}}}},{{"offset":{{"line":0,"column":5}},"map":{{"version":3,"sources":["b.ts"],"names":[],"mappings":"{mappings}"}}}}]}}"#
        );
        let decoded = attribution::decode(map.as_bytes(), &TextIndex::new(source), source.len()).unwrap();
        assert_eq!(decoded.invalid_points, 0);
        assert_eq!(
            decoded.segments.iter().map(|s| (s.start, s.end, s.source.as_str())).collect::<Vec<_>>(),
            expected
        );
        assert!(decoded.segments.iter().filter(|s| s.source == "[unmapped]").all(|s| s.original.is_none()));
    }
}

#[test]
fn nested_index_offsets_reset_columns_on_later_lines() {
    let source = "abcdefghij\nklmnop";
    let map = r#"{"version":3,"sections":[{"offset":{"line":0,"column":2},"map":{"version":3,"sections":[{"offset":{"line":0,"column":1},"map":{"version":3,"sources":["a.ts"],"names":[],"mappings":"EAAA"}},{"offset":{"line":1,"column":2},"map":{"version":3,"sources":["b.ts"],"names":[],"mappings":"AAAA"}}]}}]}"#;
    let decoded = attribution::decode(map.as_bytes(), &TextIndex::new(source), source.len()).unwrap();
    assert_eq!(
        decoded
            .segments
            .iter()
            .filter(|s| s.source != "[unmapped]")
            .map(|s| (s.start, s.end, s.source.as_str()))
            .collect::<Vec<_>>(),
        vec![(5, 10, "a.ts"), (13, 17, "b.ts")]
    );
    assert_eq!(decoded.segments.iter().map(|s| s.end - s.start).sum::<usize>(), source.len());
}

#[test]
fn unordered_and_overlapping_index_sections_are_rejected() {
    for (offsets, mappings) in [([5, 0], "AAAA"), ([0, 0], "AAAA"), ([0, 5], "MAAA")] {
        let map = format!(
            r#"{{"version":3,"sections":[{{"offset":{{"line":0,"column":{}}},"map":{{"version":3,"sources":["a.ts"],"names":[],"mappings":"{mappings}"}}}},{{"offset":{{"line":0,"column":{}}},"map":{{"version":3,"sources":[],"names":[],"mappings":""}}}}]}}"#,
            offsets[0], offsets[1]
        );
        assert!(attribution::decode(map.as_bytes(), &TextIndex::new("abcdefghij"), 10).is_err());
    }
}

#[test]
fn pnpm_scoped_packages_and_application_sources() {
    assert_eq!(
        attribution::package("[project]/node_modules/.pnpm/@scope+pkg@1/node_modules/@scope/pkg/a.js"),
        "@scope/pkg"
    );
    assert_eq!(attribution::package("../../node_modules/minisearch/dist/index.js"), "minisearch");
    assert_eq!(attribution::package("webpack:///src/app.js"), "[application]");
}

#[test]
fn malformed_map_fails_with_bundle_context() {
    let err = analyze(vec![bundle("app.js", "a", Some("{}"))], Vec::new(), Vec::new(), Vec::new()).unwrap_err();
    assert!(matches!(err, ReportError::Bundle(AnalysisError::SourceMap(ref path, _)) if path == "app.js"));
}

#[test]
fn coverage_missing_file_and_unsafe_path_fail() {
    assert!(coverage::validate_path("../app.js").is_err());
    assert!(coverage::validate_path("/app.js").is_err());
    let coverage = vec![("app.js".to_string(), vec![envelope("run.json", "abcd", None, &[(0, 4, 1)])])];
    let err = analyze(vec![bundle("other.js", "abcd", None)], coverage, Vec::new(), Vec::new()).unwrap_err();
    assert!(matches!(err, ReportError::CoverageForMissingFiles(ref paths) if paths == &vec!["app.js".to_string()]));
}

#[test]
fn out_of_line_mapping_never_spills_into_next_line() {
    let source = "abc\nxyz";
    let map = br#"{"version":3,"sources":["a.js"],"names":[],"mappings":"AAAA,KAAA;AAAA"}"#;
    let (segments, ignored) =
        attribution::segments_with_diagnostics(map, &TextIndex::new(source), source.len()).unwrap();
    assert_eq!(ignored, 1);
    assert_eq!(source_bytes(&segments, "a.js"), 6);
    assert_eq!(segments.iter().map(|s| s.end - s.start).sum::<usize>(), source.len());
}

#[test]
fn detail_spans_partition_every_bundle_and_source() {
    let content = "abcdefgh\nijkl";
    let map = r#"{"version":3,"sources":["a.js","b.js"],"names":[],"mappings":"AAAA,IACA;AADA"}"#;
    let coverage = vec![(
        "app.js".to_string(),
        vec![
            envelope("initial", content, Some(map), &[(0, 13, 0), (0, 3, 1)]),
            envelope("interaction", content, Some(map), &[(0, 13, 0), (6, 11, 1)]),
        ],
    )];
    let scenarios = vec!["initial".to_string(), "interaction".to_string()];
    let report = analyze(
        vec![bundle("app.js", content, Some(map)), bundle("plain.js", "xyz", None)],
        coverage,
        scenarios,
        Vec::new(),
    )
    .unwrap();
    assert_eq!(report.totals.bytes, 16);
    assert_eq!(report.totals.observed_bytes, 8);
    for bundle in report.bundles {
        let mut cursor = 0;
        for span in &bundle.spans {
            assert_eq!(span.start, cursor);
            assert!(span.end > span.start);
            assert!(bundle.generated_source.get(span.start..span.end).is_some());
            cursor = span.end;
        }
        assert_eq!(cursor, bundle.counts.bytes);
        for (index, source) in bundle.sources.iter().enumerate() {
            let spans = bundle.spans.iter().filter(|s| s.source == index).collect::<Vec<_>>();
            assert_eq!(spans.iter().map(|s| s.end - s.start).sum::<usize>(), source.counts.bytes);
            assert_eq!(
                spans
                    .iter()
                    .filter(|s| s.status == coldpath::analysis::Status::Observed)
                    .map(|s| s.end - s.start)
                    .sum::<usize>(),
                source.counts.observed_bytes
            );
        }
        assert!(bundle.verification.iter().all(|v| v.source == "sha256" && v.source_map == "capture-bound"));
    }
}
