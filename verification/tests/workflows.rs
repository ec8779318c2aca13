use coldpath::analysis::{Counts, Report};
use coldpath::analyze::{AnalyzeOptions, BundleInput, ReportError, analyze, analyze_with_options};
use coldpath::annotations::{LabelPart, Load, Loading, SourceLabel, attach_labels, attach_loading};
use coldpath::attribution::IndexedSegment;
use coldpath::bundle::{AnalysisError, Warning};
use coldpath::coverage::Interval;
use coldpath::decoding::IndexedSource;
use coldpath::graph::{ImportKind, ImportStep};
use coldpath::input::{BindingError, CoverageDocument, CoverageEntry, InputOptions, LoadError, load};
use coldpath::metadata::{ImportPath, Metafile, import_paths};
use coldpath::recommendations::{RecommendationKind, build};
use coldpath::scenario::Accumulator;

fn bundle(path: &str, content: &str, map: Option<&str>) -> BundleInput {
    BundleInput { path: path.to_string(), content: content.to_string(), map_data: map.map(|m| m.as_bytes().to_vec()) }
}

fn entry(url: &str, text: &str, ranges: Vec<Interval>) -> CoverageEntry {
    CoverageEntry {
        url: Some(url.to_string()),
        well_formed: true,
        source: None,
        text: Some(text.to_string()),
        functions: None,
        ranges: Some(ranges),
    }
}

fn label(name: Option<&str>, summary: Option<&str>, evidence: &[&str], contents: Vec<LabelPart>) -> SourceLabel {
    SourceLabel {
        name: name.map(str::to_string),
        summary: summary.map(str::to_string),
        evidence: evidence.iter().map(|e| e.to_string()).collect(),
        contents,
        ..SourceLabel::default()
    }
}

#[test]
fn url_mapping_is_explicit_and_rejects_traversal() {
    let documents = || vec![("input.json".to_string(), CoverageDocument::Entries(vec![entry("https://cdn.test/app.js", "abcd", vec![])]))];
    assert!(load(documents(), "/root", &InputOptions::default()).is_err());
    let mut input = InputOptions::default();
    input.script_paths.push(("https://cdn.test/app.js".to_string(), "app.js".to_string()));
    let (coverage, scenarios, warnings) = load(documents(), "/root", &input).unwrap();
    let options = AnalyzeOptions { input: input.clone(), ..AnalyzeOptions::default() };
    let warnings = warnings.into_iter().map(Warning::Load).collect();
    let report = analyze_with_options(vec![bundle("app.js", "abcd", None)], coverage, scenarios, warnings, &options).unwrap();
    assert_eq!(report.totals.unobserved_bytes, 4);
    input.url_prefixes.push("https://cdn.test/".to_string());
    for url in ["https://cdn.test/%2e%2e/app.js", "https://cdn.test/%2Fapp.js", "https://cdn.test/a%5Cb.js"] {
        let documents = vec![("input.json".to_string(), CoverageDocument::Entries(vec![entry(url, "abcd", vec![])]))];
        assert!(matches!(load(documents, "/root", &input), Err(LoadError::Path(_))));
    }
}

#[test]
fn standard_source_mismatch_and_invalid_ranges_are_rejected() {
    for (source, ranges) in [
        ("한🔥y", vec![]),
        ("한🔥x", vec![Interval { start: 1, end: 2 }]),
        ("한🔥x", vec![Interval { start: 3, end: 1 }]),
        ("한🔥x", vec![Interval { start: 0, end: 100 }]),
    ] {
        let documents = vec![("input.json".to_string(), CoverageDocument::Entries(vec![entry("app.js", source, ranges)]))];
        let (coverage, scenarios, _) = load(documents, "/root", &InputOptions::default()).unwrap();
        assert!(analyze(vec![bundle("app.js", "한🔥x", None)], coverage, scenarios, Vec::new()).is_err());
    }
}

#[test]
fn source_text_mismatch_names_the_bundle() {
    let documents = vec![("input.json".to_string(), CoverageDocument::Entries(vec![entry("app.js", "other", vec![])]))];
    let (coverage, scenarios, _) = load(documents, "/root", &InputOptions::default()).unwrap();
    let err = analyze(vec![bundle("app.js", "abcd", None)], coverage, scenarios, Vec::new()).unwrap_err();
    assert!(matches!(err, ReportError::Bundle(AnalysisError::Binding(BindingError::SourceMismatch(ref p))) if p == "app.js"));
}

#[test]
fn metadata_paths_handle_cycles_and_external_imports() {
    let meta = Metafile {
        inputs: vec![
            ("entry.js".to_string(), vec![("shared.js".to_string(), false), ("external".to_string(), true)]),
            ("node_modules/pkg/index.js".to_string(), vec![]),
            ("shared.js".to_string(), vec![("entry.js".to_string(), false), ("node_modules/pkg/index.js".to_string(), false)]),
        ],
        outputs: vec![(
            "app.js".to_string(),
            Some("entry.js".to_string()),
            vec![("entry.js".to_string(), 5), ("node_modules/pkg/index.js".to_string(), 100)],
        )],
    };
    let rows = import_paths(&meta).unwrap();
    assert_eq!(rows[0].path.as_ref().unwrap(), &vec!["entry.js", "shared.js", "node_modules/pkg/index.js"]);
    assert_eq!(rows[0].bytes_in_output, 100);
    assert_eq!(rows[1].source, "entry.js");
    assert_eq!(rows.len(), 2);
    assert!(import_paths(&Metafile { inputs: vec![], outputs: vec![] }).is_err());
}

#[test]
fn label_evidence_is_checked_per_copy_of_a_differently_minified_source() {
    let map = |text: &str| {
        format!(r#"{{"version":3,"sources":["m/shared.js"],"sourcesContent":["{text}"],"names":[],"mappings":"AAAA"}}"#)
    };
    let bundles = vec![
        BundleInput { path: "a.js".to_string(), content: "var q=1;".to_string(), map_data: Some(map("var q=1;").into_bytes()) },
        BundleInput { path: "b.js".to_string(), content: "var z=1;".to_string(), map_data: Some(map("var z=1;").into_bytes()) },
    ];
    let mut report = analyze(bundles, Vec::new(), Vec::new(), Vec::new()).unwrap();
    let labels = vec![("m/shared.js".to_string(), label(Some("n"), None, &["var q", "var z", "nowhere"], vec![]))];
    attach_labels(&mut report, 1, None, labels).unwrap();
    let copy = |path: &str| {
        report.bundles.iter().find(|b| b.path == path).unwrap().sources[0].label.as_ref().unwrap().evidence.clone()
    };
    assert_eq!(copy("a.js"), vec!["var q"]);
    assert_eq!(copy("b.js"), vec!["var z"]);
    assert_eq!(report.sources[0].label.as_ref().unwrap().evidence, vec!["var q", "var z"]);
    assert!(report.warnings.contains(&Warning::DroppedEvidence("m/shared.js".to_string(), 1)));
}

#[test]
fn labels_and_loading_attach_without_changing_counts_and_drop_absent_evidence() {
    let source = "var a=1;var b=2;";
    let map = r#"{"version":3,"sources":["m/1.js","m/2.js"],"sourcesContent":["var a=1;","var b=2;"],"names":[],"mappings":"AAAA,QCAA"}"#;
    let mut report = analyze(vec![bundle("app.js", source, Some(map))], Vec::new(), Vec::new(), Vec::new()).unwrap();
    let before: Counts = report.totals;
    let first = SourceLabel {
        name: Some("first".to_string()),
        short_name: Some("first".to_string()),
        kind: Some("app".to_string()),
        summary: Some("s".to_string()),
        reasoning: Some("r".to_string()),
        evidence: vec!["var a=1".to_string(), "not in source".to_string()],
        contents: vec![],
    };
    let second = label(
        None,
        Some("only a summary"),
        &[],
        vec![
            LabelPart { name: "p".to_string(), kind: Some("package".to_string()), evidence: vec!["var b=2".to_string()] },
            LabelPart { name: "q".to_string(), kind: None, evidence: vec!["missing".to_string()] },
        ],
    );
    let labels = vec![
        ("m/1.js".to_string(), first),
        ("m/2.js".to_string(), second),
        ("m/missing.js".to_string(), label(None, Some("x"), &[], vec![])),
    ];
    let generator = coldpath::annotations::LabelGenerator {
        provider: Some("test".to_string()),
        model: Some("m".to_string()),
        mode: Some("identify".to_string()),
    };
    attach_labels(&mut report, 1, Some(generator), labels).unwrap();
    let loading = vec![
        ("app.js".to_string(), Loading { load: Load::Html, initiator: Some("parser".to_string()), start_ms: Some(5) }),
        ("gone.js".to_string(), Loading { load: Load::Dynamic, initiator: None, start_ms: None }),
    ];
    attach_loading(&mut report, 1, loading).unwrap();
    assert_eq!(report.totals, before);
    let row = report.sources.iter().find(|r| r.source == "m/1.js").unwrap();
    assert_eq!(row.label.as_ref().unwrap().evidence, vec!["var a=1"]);
    assert_eq!(report.bundles[0].sources[0].label.as_ref().unwrap().name.as_deref(), Some("first"));
    assert_eq!(
        report.bundles[0].sources[1].label.as_ref().unwrap(),
        &label(
            None,
            Some("only a summary"),
            &[],
            vec![LabelPart { name: "p".to_string(), kind: Some("package".to_string()), evidence: vec!["var b=2".to_string()] }]
        )
    );
    let attached = report.bundles[0].loading.as_ref().unwrap();
    assert_eq!((attached.load, attached.initiator.as_deref(), attached.start_ms), (Load::Html, Some("parser"), Some(5)));
    assert_eq!(report.label_generator.as_ref().unwrap().model.as_deref(), Some("m"));
    assert!(report.warnings.contains(&Warning::DroppedEvidence("m/1.js".to_string(), 1)));
    assert!(report.warnings.contains(&Warning::DroppedEvidence("m/2.js".to_string(), 1)));
    assert!(report.warnings.contains(&Warning::UnmatchedLabels(1)));
    assert!(report.warnings.contains(&Warning::UnmatchedLoading(1)));
    let future: Vec<(String, SourceLabel)> = Vec::new();
    assert!(attach_labels(&mut report, 2, None, future).is_err());
    assert!(attach_loading(&mut report, 2, Vec::new()).is_err());
}

fn scenario_reports() -> (coldpath::scenario::ScenarioReport, coldpath::scenario::ScenarioReport) {
    let segments = vec![
        IndexedSegment { start: 0, end: 4, source: 0, original: None },
        IndexedSegment { start: 4, end: 10, source: 1, original: None },
    ];
    let sources = vec![
        IndexedSource { name: "src/a.js".to_string(), content: None },
        IndexedSource { name: "src/b.js".to_string(), content: None },
    ];
    let used = vec![
        ("initial".to_string(), vec![Interval { start: 0, end: 4 }]),
        ("open".to_string(), vec![Interval { start: 0, end: 7 }]),
    ];
    let mut initial = Accumulator::new("initial".to_string());
    initial.bundle("app.js", &segments, &sources, &used, Some("initial")).unwrap();
    let mut open = Accumulator::new("open".to_string());
    open.bundle("app.js", &segments, &sources, &used, Some("initial")).unwrap();
    (initial.finish(), open.finish())
}

fn step(kind: ImportKind) -> ImportStep {
    ImportStep {
        from: "src/main.js".to_string(),
        to: "src/b.js".to_string(),
        kind,
        location: None,
        location_evidence: None,
        specifier: None,
    }
}

fn with_scenarios(edges: Vec<ImportStep>) -> Report {
    let mut report = analyze(vec![bundle("app.js", "abcdefghij", None)], Vec::new(), Vec::new(), Vec::new()).unwrap();
    let (initial, open) = scenario_reports();
    report.scenario_reports = vec![initial, open];
    report.initial_scenario = Some("initial".to_string());
    report.import_paths = Some(vec![ImportPath {
        source: "src/b.js".to_string(),
        resolved_source: Some("src/b.js".to_string()),
        bytes_in_output: 6,
        path: Some(vec!["src/main.js".to_string(), "src/b.js".to_string()]),
        graph_format: "test".to_string(),
        edges,
    }]);
    report
}

#[test]
fn recommendations_follow_import_evidence() {
    let recs = build(&with_scenarios(vec![step(ImportKind::Static)]));
    assert_eq!(recs.len(), 1);
    assert_eq!(recs[0].kind, RecommendationKind::DeferReview);
    assert_eq!(recs[0].source, "src/b.js");
    assert_eq!(recs[0].scenario.as_deref(), Some("open"));
    assert_eq!(recs[0].bytes, 3);
    assert!(recs[0].import_path.is_some());
    assert_eq!(build(&with_scenarios(vec![step(ImportKind::Dynamic)]))[0].kind, RecommendationKind::DynamicBoundaryReview);
    assert_eq!(build(&with_scenarios(vec![]))[0].kind, RecommendationKind::InspectImports);
    let mut unmeasured = with_scenarios(vec![step(ImportKind::Static)]);
    unmeasured.initial_scenario = Some("absent".to_string());
    assert_eq!(build(&unmeasured)[0].kind, RecommendationKind::MeasureInitial);
}
