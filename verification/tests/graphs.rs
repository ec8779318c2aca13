use coldpath::analyze::{BundleInput, analyze};
use coldpath::analysis::Counts;
use coldpath::evidence::{Difference, Expected, ExpectedBundle, Writer};
use coldpath::graph::{Graph, GraphError, ImportKind, ImportStep, Location, Module, attach, physical, validate, walk};
use coldpath::metadata::{ImportPath, bind_sources};
use coldpath::source_path::normalize;

fn module(id: &str, source: &str, entry: bool) -> Module {
    Module { id: id.to_string(), source: source.to_string(), entry, emitted_bytes: Some(10), source_sha256: None }
}

fn edge(from: &str, to: &str, kind: ImportKind) -> ImportStep {
    ImportStep {
        from: from.to_string(),
        to: to.to_string(),
        kind,
        location: Some(Location { line: 1, column: 1 }),
        location_evidence: None,
        specifier: None,
    }
}

fn graph(modules: Vec<Module>, edges: Vec<ImportStep>) -> Graph {
    Graph { schema_version: 1, bundler: "rollup".to_string(), modules, edges, warnings: vec![] }
}

#[test]
fn graphs_are_validated() {
    let ok = graph(vec![module("m", "src/main.js", true)], vec![]);
    assert_eq!(validate(&ok), Ok(()));
    assert_eq!(validate(&Graph { schema_version: 2, ..ok.clone() }), Err(GraphError::SchemaVersion));
    assert_eq!(validate(&graph(vec![], vec![])), Err(GraphError::NoModules));
    assert_eq!(
        validate(&graph(vec![module("m", "a", true), module("m", "b", false)], vec![])),
        Err(GraphError::DuplicateIds)
    );
    assert_eq!(
        validate(&graph(vec![module("m", "a", true)], vec![edge("m", "x", ImportKind::Static)])),
        Err(GraphError::UnknownModule)
    );
    let mut zero = edge("m", "m", ImportKind::Static);
    zero.location = Some(Location { line: 0, column: 1 });
    assert_eq!(validate(&graph(vec![module("m", "a", true)], vec![zero])), Err(GraphError::ZeroBasedLocation));
    assert_eq!(validate(&graph(vec![module("m", "a", false)], vec![])), Err(GraphError::NoEntries));
}

#[test]
fn walks_prefer_static_chains() {
    let g = graph(
        vec![module("main", "src/main.js", true), module("mid", "src/middle.js", false), module("a", "src/a.js", false)],
        vec![
            edge("main", "a", ImportKind::Dynamic),
            edge("main", "mid", ImportKind::Static),
            edge("mid", "a", ImportKind::Static),
        ],
    );
    let any = walk(&g, false);
    assert_eq!(any[2], Some(vec![0]));
    let statics = walk(&g, true);
    assert_eq!(statics[2], Some(vec![1, 2]));
    assert_eq!(statics[0], Some(vec![]));
}

#[test]
fn webpack_and_turbopack_sources_have_physical_identities() {
    assert_eq!(physical("/work", "/work", "webpack://app/./src/a.js"), Some("src/a.js".to_string()));
    assert_eq!(physical("/work", "/work", "webpack://app"), None);
    assert_eq!(physical("/work", "/work", "turbopack:///[project]/src/b.js"), Some("src/b.js".to_string()));
    assert_eq!(physical("/work", "/work", "turbopack:///other/b.js"), None);
    assert_eq!(physical("/work", "/work", "src/c.js"), Some("src/c.js".to_string()));
}

#[test]
fn graph_paths_attach_to_report_sources() {
    let map = r#"{"version":3,"sources":["webpack://app/./src/a.js"],"names":[],"mappings":"AAAA"}"#;
    let mut report = analyze(
        vec![BundleInput { path: "app.js".to_string(), content: "abcd".to_string(), map_data: Some(map.as_bytes().to_vec()) }],
        Vec::new(),
        Vec::new(),
        Vec::new(),
    )
    .unwrap();
    let g = graph(
        vec![module("main", "src/main.js", true), module("a", "src/a.js", false)],
        vec![edge("main", "a", ImportKind::Static)],
    );
    let before = report.totals;
    attach(&mut report, &g, "/work", "/work", &vec![]).unwrap();
    assert_eq!(report.totals, before);
    let paths = report.import_paths.as_ref().unwrap();
    assert_eq!(paths.len(), 1);
    assert_eq!(paths[0].source, "src/a.js");
    assert_eq!(paths[0].resolved_source.as_deref(), Some("webpack://app/./src/a.js"));
    assert_eq!(paths[0].path.as_ref().unwrap(), &vec!["src/main.js".to_string(), "src/a.js".to_string()]);
    assert_eq!(paths[0].edges[0].from, "src/main.js");
    assert_eq!(paths[0].bytes_in_output, 10);
}

#[test]
fn graph_snapshots_must_match_contents_or_disk() {
    let map = r#"{"version":3,"sources":["src/a.js"],"sourcesContent":["var a;"],"names":[],"mappings":"AAAA"}"#;
    let mut report = analyze(
        vec![BundleInput { path: "app.js".to_string(), content: "abcd".to_string(), map_data: Some(map.as_bytes().to_vec()) }],
        Vec::new(),
        Vec::new(),
        Vec::new(),
    )
    .unwrap();
    let mut a = module("a", "src/a.js", true);
    a.source_sha256 = Some("0".repeat(64));
    let g = graph(vec![a], vec![]);
    assert_eq!(
        attach(&mut report, &g, "/work", "/work", &vec![]),
        Err(GraphError::SnapshotDiffers("src/a.js".to_string()))
    );
    let disk = vec![("src/a.js".to_string(), Some("0".repeat(64)))];
    assert_eq!(attach(&mut report, &g, "/work", "/work", &disk), Ok(()));
}

#[test]
fn lexical_normalization() {
    assert_eq!(normalize("/a/./b/../c//d"), "/a/c/d");
    assert_eq!(normalize("../x/y"), "x/y");
    assert_eq!(normalize("/.."), "/");
    assert_eq!(normalize(""), "");
}

#[test]
fn metafile_sources_bind_to_report_identities() {
    let mut paths = vec![ImportPath {
        source: "../src/a.js".to_string(),
        resolved_source: None,
        bytes_in_output: 3,
        path: None,
        graph_format: "esbuild".to_string(),
        edges: vec![],
    }];
    bind_sources(&mut paths, "/work", "/work/build");
    assert_eq!(paths[0].resolved_source.as_deref(), Some("src/a.js"));
}

fn expected_bundle(path: &str, bytes: usize, spans: &str) -> ExpectedBundle {
    ExpectedBundle {
        path: path.to_string(),
        sha256: "h".to_string(),
        source_map_sha256: None,
        verification: vec![],
        counts: Counts { bytes, observed_bytes: 0, unobserved_bytes: 0, unmeasured_bytes: bytes },
        spans_sha256: spans.to_string(),
        scenario_spans_sha256: vec![],
    }
}

#[test]
fn replays_report_their_differences() {
    let expected = Expected {
        scenarios: vec!["a".to_string()],
        totals: Counts { bytes: 4, observed_bytes: 0, unobserved_bytes: 0, unmeasured_bytes: 4 },
        scenario_totals: vec![],
        excluded_bundles: vec![],
        bundles: vec![expected_bundle("x.js", 4, "s"), expected_bundle("y.js", 1, "t")],
    };
    assert!(expected.differences(&expected.clone()).is_empty());
    let actual = Expected {
        scenarios: vec!["b".to_string()],
        bundles: vec![expected_bundle("x.js", 5, "u"), expected_bundle("z.js", 1, "t")],
        ..expected.clone()
    };
    assert_eq!(
        expected.differences(&actual),
        vec![
            Difference::Scenarios,
            Difference::BundleDiffers("x.js".to_string(), true),
            Difference::BundleMissing("y.js".to_string()),
            Difference::BundleOnlyInReplay("z.js".to_string())
        ]
    );
}

#[test]
fn replay_comparison_treats_named_totals_as_maps() {
    let counts = |bytes: usize| Counts { bytes, observed_bytes: bytes, unobserved_bytes: 0, unmeasured_bytes: 0 };
    let expected = Expected {
        scenarios: vec![],
        totals: counts(3),
        scenario_totals: vec![("b".to_string(), counts(1)), ("a".to_string(), counts(2))],
        excluded_bundles: vec![],
        bundles: vec![],
    };
    let reordered = Expected {
        scenario_totals: vec![("a".to_string(), counts(2)), ("b".to_string(), counts(1))],
        ..expected.clone()
    };
    assert!(expected.differences(&reordered).is_empty());
    let changed = Expected {
        scenario_totals: vec![("a".to_string(), counts(2)), ("b".to_string(), counts(9))],
        ..expected.clone()
    };
    assert_eq!(expected.differences(&changed), vec![Difference::ScenarioTotals]);
    let fewer = Expected { scenario_totals: vec![("a".to_string(), counts(2))], ..expected.clone() };
    assert_eq!(fewer.differences(&expected), vec![Difference::ScenarioTotals]);
}

#[test]
fn bundles_only_in_replay_are_listed_once_by_path() {
    let expected = Expected {
        scenarios: vec![],
        totals: Counts { bytes: 0, observed_bytes: 0, unobserved_bytes: 0, unmeasured_bytes: 0 },
        scenario_totals: vec![],
        excluded_bundles: vec![],
        bundles: vec![expected_bundle("m.js", 1, "s")],
    };
    let actual = Expected {
        bundles: vec![
            expected_bundle("z.js", 1, "s"),
            expected_bundle("m.js", 2, "s"),
            expected_bundle("b.js", 1, "s"),
            expected_bundle("z.js", 1, "s"),
            expected_bundle("m.js", 1, "s"),
        ],
        ..expected.clone()
    };
    assert_eq!(
        expected.differences(&actual),
        vec![
            Difference::BundleOnlyInReplay("b.js".to_string()),
            Difference::BundleOnlyInReplay("z.js".to_string())
        ]
    );
}

#[test]
fn expected_results_come_from_detailed_reports() {
    let report = analyze(
        vec![BundleInput { path: "app.js".to_string(), content: "abcd".to_string(), map_data: None }],
        Vec::new(),
        Vec::new(),
        Vec::new(),
    )
    .unwrap();
    let expected = Expected::from_report(&report).unwrap();
    assert_eq!(expected.bundles.len(), 1);
    assert_eq!(expected.bundles[0].path, "app.js");
    assert_eq!(expected.bundles[0].spans_sha256.len(), 64);
    let mut summary = report;
    summary.strip_details();
    assert!(Expected::from_report(&summary).is_err());
}

#[test]
fn evidence_tree_paths_stay_below_the_ancestor() {
    let writer = Writer { out: "/out".to_string(), ancestor: "/work".to_string(), files: vec![], inputs: 0 };
    assert_eq!(writer.tree_path("/work/dist/app.js").unwrap(), "tree/dist/app.js");
    assert_eq!(writer.tree_path("/work").unwrap(), "tree");
    assert!(writer.tree_path("/elsewhere/app.js").is_err());
}
