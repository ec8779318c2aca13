use coldpath::analyze::{AnalyzeOptions, BundleInput, ReportError, analyze, analyze_with_options, selects};
use coldpath::coverage::CoverageError;

fn bundle(path: &str, content: &str) -> BundleInput {
    BundleInput { path: path.to_string(), content: content.to_string(), map_data: None }
}

fn run(bundles: Vec<BundleInput>, options: &AnalyzeOptions) -> Result<coldpath::analysis::Report, ReportError> {
    analyze_with_options(bundles, Vec::new(), Vec::new(), Vec::new(), options)
}

fn with_patterns(wanted: &[&str], unwanted: &[&str]) -> AnalyzeOptions {
    AnalyzeOptions {
        include_patterns: wanted.iter().map(|p| p.to_string()).collect(),
        exclude_patterns: unwanted.iter().map(|p| p.to_string()).collect(),
        ..AnalyzeOptions::default()
    }
}

#[test]
fn explicit_map_with_unsafe_path_is_refused() {
    let options = AnalyzeOptions {
        maps: vec![("../app.js".to_string(), "app.js.map".to_string())],
        ..AnalyzeOptions::default()
    };
    let err = run(vec![bundle("app.js", "a")], &options).unwrap_err();
    assert!(matches!(err, ReportError::MapPath(CoverageError::PathNotNormal)));
    let options = AnalyzeOptions { maps: vec![(String::new(), "m.map".to_string())], ..AnalyzeOptions::default() };
    let err = run(vec![bundle("app.js", "a")], &options).unwrap_err();
    assert!(matches!(err, ReportError::MapPath(CoverageError::PathNotRelative)));
}

#[test]
fn explicit_map_for_a_missing_bundle_is_refused() {
    let options = AnalyzeOptions {
        maps: vec![("vendor.js".to_string(), "vendor.js.map".to_string())],
        ..AnalyzeOptions::default()
    };
    let err = run(vec![bundle("app.js", "a")], &options).unwrap_err();
    assert!(matches!(err, ReportError::MapTargetMissing(ref p) if p == "vendor.js"));
}

#[test]
fn invalid_patterns_are_refused_inclusions_first() {
    let err = run(vec![bundle("app.js", "a")], &with_patterns(&["[", "*.js"], &["["])).unwrap_err();
    assert!(matches!(err, ReportError::InvalidPattern(ref p) if p == "["));
    let err = run(vec![bundle("app.js", "a")], &with_patterns(&["*.js"], &["**", "a**b"])).unwrap_err();
    assert!(matches!(err, ReportError::InvalidPattern(ref p) if p == "a**b"));
}

#[test]
fn patterns_that_select_nothing_are_refused() {
    let err = run(vec![bundle("app.js", "a")], &with_patterns(&["*.mjs"], &[])).unwrap_err();
    assert!(matches!(err, ReportError::NothingSelected));
    let err = analyze(Vec::new(), Vec::new(), Vec::new(), Vec::new()).unwrap_err();
    assert!(matches!(err, ReportError::NothingSelected));
}

#[test]
fn selected_bundles_keep_their_order_and_excluded_ones_are_listed() {
    let bundles = vec![bundle("b.js", "bb"), bundle("vendor/x.js", "xxx"), bundle("a.js", "a")];
    let report = run(bundles, &with_patterns(&[], &["vendor/*"])).unwrap();
    let paths: Vec<&str> = report.bundles.iter().map(|b| b.path.as_str()).collect();
    assert_eq!(paths, vec!["b.js", "a.js"]);
    assert_eq!(report.excluded_bundles, vec!["vendor/x.js".to_string()]);
    assert_eq!(report.totals.bytes, 3);
    assert_eq!(report.totals.unmeasured_bytes, 3);
}

#[test]
fn selects_follows_include_and_exclude() {
    let options = with_patterns(&["**/*.js"], &["app.js"]);
    assert_eq!(selects(&options, "app.js"), Some(false));
    assert_eq!(selects(&options, "chunks/lazy.js"), Some(true));
    assert_eq!(selects(&AnalyzeOptions::default(), "app.js"), Some(true));
    assert_eq!(selects(&with_patterns(&["["], &[]), "app.js"), None);
}
