use coldpath::analyze::{BundleInput, analyze};
use coldpath::analysis::Counts;
use coldpath::attribution::{self, AttributionError, IndexedSegment};
use coldpath::baseline::{
    BaselineError, BaselineRow, Change, ChangeKind, ComparisonWarning, Snapshot, compare, rows, validate_counts,
};
use coldpath::coverage::Interval;
use coldpath::decoding::IndexedSource;
use coldpath::input::{CoverageDocument, CoverageEntry, InputOptions, LoadError, load, local_path};
use coldpath::json::MapError;
use coldpath::maps::{MapReference, ReferenceError, annotation, reference};
use coldpath::report::{escaped_json, tsv};
use coldpath::scenario::{Accumulator, difference, first_observed, overlap};
use coldpath::source_path::SourcePaths;
use coldpath::text::TextIndex;

fn counts(bytes: usize, observed: usize, unobserved: usize, unmeasured: usize) -> Counts {
    Counts { bytes, observed_bytes: observed, unobserved_bytes: unobserved, unmeasured_bytes: unmeasured }
}

fn paths(root: &str, directory: &str) -> SourcePaths {
    SourcePaths { root: root.to_string(), directory: directory.to_string() }
}

#[test]
fn source_paths_are_relative_to_the_root() {
    let p = paths("/work", "/work/dist");
    assert_eq!(p.resolve("../src/a.ts"), "src/a.ts");
    assert_eq!(p.resolve("/elsewhere/x.js"), "../elsewhere/x.js");
    assert_eq!(p.resolve("./b.js"), "dist/b.js");
    assert_eq!(p.resolve("..\\src\\c.ts"), "src/c.ts");
    assert_eq!(p.resolve("[unmapped]"), "[unmapped]");
}

#[test]
fn url_sources_keep_their_namespace() {
    let p = paths("/work", "/work/dist");
    assert_eq!(p.resolve("webpack:///./src/a.js"), "webpack:///src/a.js");
    assert_eq!(p.resolve("webpack://app/./src/../a.js?x#y"), "webpack://app/src/../a.js?x#y");
}

#[test]
fn annotations_in_line_and_block_comments() {
    assert_eq!(annotation("abc\n//# sourceMappingURL=app.js.map\n"), Some("app.js.map".to_string()));
    assert_eq!(annotation("x /*# sourceMappingURL=a.map */"), Some("a.map".to_string()));
    assert_eq!(annotation("abc\n//@ sourceMappingURL= old.map "), Some("old.map".to_string()));
    assert_eq!(annotation("abc"), None);
}

#[test]
fn map_references() {
    assert_eq!(
        reference("app.js", "abc\n//# sourceMappingURL=different%20hash.js.map"),
        Ok(MapReference::Declared("different hash.js.map".to_string()))
    );
    assert_eq!(reference("app.js", "abc"), Ok(MapReference::Adjacent("app.js.map".to_string())));
    assert_eq!(
        reference("app.js", "abc\n//# sourceMappingURL=https://example.com/app.js.map"),
        Err(ReferenceError::NotLocal)
    );
    assert_eq!(
        reference("app.js", "abc\n//# sourceMappingURL=data:application/json;base64,e30="),
        Ok(MapReference::Inline(b"{}".to_vec()))
    );
    assert_eq!(
        reference("app.js", "abc\n//# sourceMappingURL=data:application/json,%7B%7D"),
        Ok(MapReference::Inline(b"{}".to_vec()))
    );
    assert_eq!(
        reference("app.js", "abc\n//# sourceMappingURL=data:text/plain,x"),
        Err(ReferenceError::UnsupportedMediaType)
    );
    assert_eq!(reference("app.js", "abc\n//# sourceMappingURL=data:x"), Err(ReferenceError::InvalidDataUrl));
    assert_eq!(reference("app.js", "abc\n//# sourceMappingURL=?q"), Err(ReferenceError::Empty));
}

#[test]
fn invalid_maps_are_rejected_with_their_reason() {
    let text = TextIndex::new("abc");
    assert!(matches!(
        attribution::decode(br#"{"version":2,"sources":[],"mappings":""}"#, &text, 3),
        Err(AttributionError::InvalidMap(MapError::Version))
    ));
    assert!(matches!(
        attribution::decode(br#"{"version":3,"mappings":""}"#, &text, 3),
        Err(AttributionError::InvalidMap(MapError::NoSources))
    ));
    assert!(matches!(attribution::decode(b"not json", &text, 3), Err(AttributionError::InvalidMap(MapError::NotJson))));
    assert!(matches!(
        attribution::decode(
            br#"{"version":3,"sections":[{"offset":{"line":0,"column":0},"url":"x.map","map":{"version":3,"sources":[],"mappings":""}}]}"#,
            &text,
            3
        ),
        Err(AttributionError::InvalidMap(MapError::ExternalSection))
    ));
}

#[test]
fn contents_are_kept_per_source() {
    let text = TextIndex::new("ab");
    let map = br#"{"version":3,"sources":["a.js","b.js"],"sourcesContent":["var a","var b"],"names":[],"mappings":"AAAA,CCAA"}"#;
    let decoded = attribution::decode(map, &text, 2).unwrap();
    assert_eq!(
        decoded.contents,
        vec![("a.js".to_string(), "var a".to_string()), ("b.js".to_string(), "var b".to_string())]
    );
    let without = attribution::decode_with_contents(map, &text, 2, false).unwrap();
    assert!(without.contents.is_empty());
    assert_eq!(decoded.segments.len(), 2);
}

#[test]
fn offsets_shift_columns_on_the_first_line_only() {
    assert_eq!(attribution::offset_position((1, 5), (0, 3)).unwrap(), (1, 8));
    assert_eq!(attribution::offset_position((1, 5), (2, 3)).unwrap(), (3, 3));
    assert!(matches!(attribution::offset_position((u32::MAX, 0), (1, 0)), Err(AttributionError::LineOverflow)));
    assert!(matches!(attribution::offset_position((0, u32::MAX), (0, 1)), Err(AttributionError::ColumnOverflow)));
}

#[test]
fn tsv_escapes_names_and_lists_counts() {
    let report = analyze(
        vec![BundleInput { path: "app.js".to_string(), content: "abcd".to_string(), map_data: None }],
        Vec::new(),
        Vec::new(),
        Vec::new(),
    )
    .unwrap();
    assert_eq!(tsv(&report), "Source\tBytes\tObserved\tUnobserved\tUnmeasured\n[unmapped]\t4\t0\t0\t4\n");
    let totals = report.totals;
    assert_eq!(totals.observed_bytes + totals.unobserved_bytes + totals.unmeasured_bytes, totals.bytes);
}

#[test]
fn json_is_escaped_for_script_elements() {
    assert_eq!(escaped_json("<a&b>\u{2028}\u{2029}"), "\\u003ca\\u0026b\\u003e\\u2028\\u2029");
    assert_eq!(escaped_json("plain"), "plain");
}

#[test]
fn changes_against_a_baseline() {
    let added = Change::new("x".to_string(), None, Some(&counts(5, 1, 4, 0)));
    assert_eq!(added.change, ChangeKind::Added);
    assert_eq!(added.delta.bytes, 5);
    let removed = Change::new("y".to_string(), Some(&counts(7, 2, 5, 0)), None);
    assert_eq!(removed.change, ChangeKind::Removed);
    assert_eq!(removed.after.bytes, 0);
    assert_eq!(removed.delta.bytes, -7);
    assert_eq!(removed.delta.observed_bytes, -2);
    let same = Change::new("z".to_string(), Some(&counts(3, 0, 3, 0)), Some(&counts(3, 0, 3, 0)));
    assert_eq!(same.change, ChangeKind::Unchanged);
    let changed = Change::new("w".to_string(), Some(&counts(3, 0, 3, 0)), Some(&counts(3, 1, 2, 0)));
    assert_eq!(changed.change, ChangeKind::Changed);
}

#[test]
fn baseline_rows_match_by_identity() {
    let row = |name: &str, c: Counts| BaselineRow { source: Some(name.to_string()), package: None, path: None, counts: c };
    let before = vec![row("a", counts(5, 0, 5, 0)), row("b", counts(4, 4, 0, 0))];
    let after = vec![("a".to_string(), counts(9, 0, 9, 0)), ("c".to_string(), counts(1, 1, 0, 0))];
    let changes = rows(&before, &after).unwrap();
    let summary: Vec<(String, ChangeKind, i128)> =
        changes.iter().map(|c| (c.name.clone(), c.change, c.delta.bytes)).collect();
    assert_eq!(
        summary,
        vec![
            ("a".to_string(), ChangeKind::Changed, 4),
            ("c".to_string(), ChangeKind::Added, 1),
            ("b".to_string(), ChangeKind::Removed, -4)
        ]
    );
    let duplicate = vec![row("a", counts(1, 1, 0, 0)), row("a", counts(1, 1, 0, 0))];
    assert_eq!(rows(&duplicate, &after).unwrap_err(), BaselineError::Duplicate("a".to_string()));
    let nameless = vec![BaselineRow { source: None, package: None, path: None, counts: counts(0, 0, 0, 0) }];
    assert_eq!(rows(&nameless, &after).unwrap_err(), BaselineError::NoIdentity);
    assert_eq!(validate_counts(&counts(3, 1, 1, 0)), Err(BaselineError::InvalidCounts));
    assert_eq!(validate_counts(&counts(3, 1, 1, 1)), Ok(()));
}

#[test]
fn set_difference_and_overlap() {
    let used = vec![Interval { start: 0, end: 10 }, Interval { start: 20, end: 30 }];
    let initial = vec![Interval { start: 3, end: 5 }, Interval { start: 8, end: 25 }];
    assert_eq!(
        difference(&used, &initial),
        vec![Interval { start: 0, end: 3 }, Interval { start: 5, end: 8 }, Interval { start: 25, end: 30 }]
    );
    let mut cursor = 0;
    assert_eq!(overlap(2, 8, &initial, &mut cursor), 2);
    assert_eq!(overlap(8, 30, &initial, &mut cursor), 17);
}

#[test]
fn first_observed_partitions_observed_bytes() {
    let segments = vec![
        IndexedSegment { start: 0, end: 6, source: 0, original: None },
        IndexedSegment { start: 6, end: 10, source: 1, original: None },
    ];
    let used = vec![
        ("a".to_string(), vec![Interval { start: 0, end: 4 }]),
        ("b".to_string(), vec![Interval { start: 2, end: 8 }]),
    ];
    let order = vec!["a".to_string(), "missing".to_string(), "b".to_string()];
    let rows = first_observed(&order, &segments, 2, &used);
    assert_eq!(rows[0].len(), 2);
    assert_eq!((rows[0][0].scenario.as_str(), rows[0][0].bytes, rows[0][0].earlier_unmeasured), ("a", 4, false));
    assert_eq!((rows[0][1].scenario.as_str(), rows[0][1].bytes, rows[0][1].earlier_unmeasured), ("b", 2, true));
    assert_eq!(rows[1].len(), 1);
    assert_eq!(rows[1][0].bytes, 2);
    // First observations add up to the bytes observed in any scenario: 6 of source 0.
    assert_eq!(rows[0].iter().map(|r| r.bytes).sum::<usize>(), 6);
}

#[test]
fn scenario_accumulator_finds_interaction_only_bytes() {
    let segments = vec![
        IndexedSegment { start: 0, end: 4, source: 0, original: None },
        IndexedSegment { start: 4, end: 10, source: 1, original: None },
    ];
    let sources = vec![
        IndexedSource { name: "src/a.js".to_string(), content: None },
        IndexedSource { name: "src/b.js".to_string(), content: None },
    ];
    let used = vec![
        ("initial".to_string(), vec![Interval { start: 0, end: 4 }]),
        ("open".to_string(), vec![Interval { start: 0, end: 7 }]),
    ];
    let mut open = Accumulator::new("open".to_string());
    open.bundle("app.js", &segments, &sources, &used, Some("initial")).unwrap();
    let report = open.finish();
    assert_eq!(report.totals.bytes, 10);
    assert_eq!(report.totals.observed_bytes, 7);
    assert_eq!(report.totals.unobserved_bytes, 3);
    assert_eq!(report.interaction_candidates.len(), 1);
    let candidate = &report.interaction_candidates[0];
    assert_eq!(candidate.source, "src/b.js");
    assert_eq!(candidate.interaction_only_bytes, 3);
    assert_eq!(candidate.initial_unmeasured_observed_bytes, 0);
    assert_eq!(report.sources[0].source, "src/b.js");
    assert_eq!(report.bundles[0].counts.bytes, 10);
}

#[test]
fn coverage_urls_map_onto_bundle_paths() {
    let options = InputOptions {
        url_prefixes: vec!["https://cdn.test/".to_string(), "https://cdn.test/assets/".to_string()],
        script_paths: vec![("https://other.test/x.js".to_string(), "bound.js".to_string())],
        allow_unverified: false,
    };
    assert_eq!(local_path("https://cdn.test/assets/app.js?v=1", "/root", &options).unwrap(), Some("app.js".to_string()));
    assert_eq!(local_path("https://cdn.test/a%20b.js", "/root", &options).unwrap(), Some("a b.js".to_string()));
    assert_eq!(local_path("https://other.test/x.js", "/root", &options).unwrap(), Some("bound.js".to_string()));
    assert_eq!(local_path("file:///root/dist/app.js", "/root", &options).unwrap(), Some("dist/app.js".to_string()));
    assert_eq!(local_path("file:///elsewhere/app.js", "/root", &options).unwrap(), None);
    assert_eq!(local_path("node:internal/bootstrap", "/root", &options).unwrap(), None);
    assert_eq!(local_path("lib/app.js", "/root", &options).unwrap(), Some("lib/app.js".to_string()));
    assert!(matches!(local_path("https://cdn.test/%2e%2e/app.js", "/root", &options), Err(LoadError::Path(_))));
    let bad = InputOptions { url_prefixes: vec!["https://cdn.test".to_string()], ..InputOptions::default() };
    assert!(matches!(
        load(Vec::new(), "/root", &bad),
        Err(LoadError::PrefixWithoutSlash(p)) if p == "https://cdn.test"
    ));
}

#[test]
fn coverage_documents_load_into_an_index() {
    let options = InputOptions { url_prefixes: vec!["https://cdn.test/".to_string()], ..InputOptions::default() };
    let entry = |url: &str| CoverageEntry {
        url: Some(url.to_string()),
        well_formed: true,
        source: None,
        text: Some("abcd".to_string()),
        functions: None,
        ranges: Some(vec![Interval { start: 0, end: 2 }]),
    };
    let documents = vec![(
        "run.json".to_string(),
        CoverageDocument::Entries(vec![entry("https://cdn.test/app.js"), entry("https://cdn.test/style.css")]),
    )];
    let (index, scenarios, warnings) = load(documents, "/root", &options).unwrap();
    assert_eq!(scenarios, vec!["run.json".to_string()]);
    assert_eq!(index.len(), 1);
    assert_eq!(index[0].0, "app.js");
    assert_eq!(index[0].1[0].format, "devtools");
    assert_eq!(warnings.len(), 1);
    let unmatched = vec![("run.json".to_string(), CoverageDocument::Entries(vec![entry("https://elsewhere.test/app.js")]))];
    assert!(matches!(load(unmatched, "/root", &options), Err(LoadError::NothingMatched(_))));
    assert!(matches!(
        load(vec![("x.json".to_string(), CoverageDocument::Unsupported)], "/root", &options),
        Err(LoadError::UnsupportedFormat(_))
    ));
}

#[test]
fn reports_compare_with_a_baseline() {
    let report = analyze(
        vec![BundleInput { path: "app.js".to_string(), content: "abcd".to_string(), map_data: None }],
        Vec::new(),
        Vec::new(),
        Vec::new(),
    )
    .unwrap();
    let row = |name: &str, c: Counts| BaselineRow { source: Some(name.to_string()), package: None, path: None, counts: c };
    let snapshot = Snapshot {
        schema_version: Some(3),
        metric: report.metric.clone(),
        attribution: report.attribution.clone(),
        scenarios: vec!["old".to_string()],
        include_patterns: vec![],
        exclude_patterns: vec![],
        totals: counts(6, 0, 0, 6),
        sources: vec![row("[unmapped]", counts(6, 0, 0, 6))],
        packages: vec![],
        bundles: vec![],
        scenario_reports: vec![],
    };
    let comparison = compare(&report, &snapshot).unwrap();
    assert_eq!(comparison.totals.change, ChangeKind::Changed);
    assert_eq!(comparison.totals.delta.bytes, -2);
    assert_eq!(comparison.sources[0].delta.unmeasured_bytes, -2);
    assert_eq!(comparison.warnings, vec![ComparisonWarning::ScenarioSetsDiffer, ComparisonWarning::MeasurementChanged]);
    let old = Snapshot { schema_version: Some(1), ..snapshot.clone() };
    assert_eq!(compare(&report, &old).unwrap_err(), BaselineError::SchemaVersion);
    let other = Snapshot { metric: "other".to_string(), ..snapshot };
    assert_eq!(compare(&report, &other).unwrap_err(), BaselineError::Incompatible);
}
