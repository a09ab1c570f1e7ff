//! Warnings on inline sources.

use rsigma::deprecation::mark_inline_source_seen;
use rsigma::deprecation::reset_inline_sources_dedup_for_tests;
use rsigma::deprecation::tests_only_snapshot;
use rsigma::deprecation::warn_pipeline_inline_sources;
use rsigma::deprecation::SeenPaths;
use std::path::Path;

fn mark(seen: &mut SeenPaths, path: &Path) -> bool {
    let canonical = path.canonicalize().ok();
    mark_inline_source_seen(
        seen,
        canonical.as_ref().and_then(|c| c.to_str()),
        path.to_str().unwrap(),
    )
}

#[test]
fn dedup_suppresses_repeat_warnings_for_same_canonical_path() {
    let file = tempfile::Builder::new().suffix(".yml").tempfile().unwrap();
    let mut seen = SeenPaths::new();

    assert!(
        mark(&mut seen, file.path()),
        "first occurrence should be newly recorded (and warn)"
    );
    assert!(
        !mark(&mut seen, file.path()),
        "repeat occurrence for the same path should be suppressed"
    );

    let canonical = file.path().canonicalize().unwrap();
    assert!(seen.contains(canonical.to_str().unwrap()));
}

#[test]
fn dedup_distinguishes_distinct_canonical_paths() {
    let a = tempfile::Builder::new().suffix(".yml").tempfile().unwrap();
    let b = tempfile::Builder::new().suffix(".yml").tempfile().unwrap();
    let mut seen = SeenPaths::new();

    assert!(mark(&mut seen, a.path()));
    assert!(mark(&mut seen, b.path()));

    assert!(seen.contains(a.path().canonicalize().unwrap().to_str().unwrap()));
    assert!(seen.contains(b.path().canonicalize().unwrap().to_str().unwrap()));
}

#[test]
fn a_warning_comes_once_until_the_set_is_cleared() {
    let mut seen = SeenPaths::new();
    let first = warn_pipeline_inline_sources(&mut seen, Some("/p/a.yml"), "a.yml", "ecs").unwrap();
    assert_eq!(
        first.notice,
        "warning: pipeline 'ecs' (a.yml) declares an inline 'sources:' block, which is deprecated \
         and will be removed in v1.0. Migrate with `rsigma rule migrate-sources -p a.yml -o \
         sources.yml` and load via `--source sources.yml` on `rsigma engine daemon`."
    );
    assert!(first.log.starts_with("pipeline declares inline 'sources:' block"));
    // Another spelling of the same file.
    assert!(warn_pipeline_inline_sources(&mut seen, Some("/p/a.yml"), "./a.yml", "ecs").is_none());
    // Without a canonical path each spelling counts.
    assert!(warn_pipeline_inline_sources(&mut seen, None, "x.yml", "ecs").is_some());
    assert!(warn_pipeline_inline_sources(&mut seen, None, "x.yml", "ecs").is_none());
    assert_eq!(tests_only_snapshot(&seen), vec!["/p/a.yml", "x.yml"]);
    reset_inline_sources_dedup_for_tests(&mut seen);
    assert!(tests_only_snapshot(&seen).is_empty());
    assert!(warn_pipeline_inline_sources(&mut seen, Some("/p/a.yml"), "a.yml", "ecs").is_some());
}
