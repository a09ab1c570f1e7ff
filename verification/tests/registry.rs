//! The registry of sources.

use rsigma::registry::load_external_sources;
use rsigma::registry::DaemonSourceRegistry;
use rsigma::registry::DataFormat;
use rsigma::registry::DynamicSource;
use rsigma::registry::ErrorPolicy;
use rsigma::registry::RefreshPolicy;
use rsigma::registry::SourceCollisionError;
use rsigma::registry::SourceOrigin;
use rsigma::registry::SourceType;

fn file_source(id: &str) -> DynamicSource {
    DynamicSource {
        id: id.to_string(),
        source_type: SourceType::File {
            path: "/tmp/test.json".to_string(),
            format: DataFormat::Json,
            extract: None,
        },
        refresh: RefreshPolicy::Once,
        timeout: None,
        on_error: ErrorPolicy::UseCached,
        required: true,
        default: None,
    }
}

fn collision(
    result: Result<DaemonSourceRegistry, SourceCollisionError>,
) -> SourceCollisionError {
    match result {
        Ok(_) => panic!("expected a collision"),
        Err(e) => e,
    }
}

#[test]
fn no_collision_different_ids() {
    let external = vec![
        (file_source("a"), "sources.yml".to_string()),
        (file_source("b"), "sources.yml".to_string()),
    ];
    let pipeline = vec![(file_source("c"), "my_pipeline".to_string())];
    let registry = match DaemonSourceRegistry::new(external, pipeline) {
        Ok(registry) => registry,
        Err(e) => panic!("{}", e.to_text()),
    };
    assert_eq!(registry.len(), 3);
    assert!(registry.ids().contains("a"));
    assert!(registry.ids().contains("b"));
    assert!(registry.ids().contains("c"));
    assert!(!registry.ids().contains("d"));
    assert_eq!(registry.sources()[1].id, "b");
    assert_eq!(registry.entries().len(), 3);
    assert!(matches!(
        registry.get("c").unwrap().origin,
        SourceOrigin::Pipeline(_)
    ));
    assert!(registry.get("d").is_none());
    let owned = registry.into_sources();
    assert_eq!(owned[2].id, "c");
}

#[test]
fn collision_within_external() {
    let external = vec![
        (file_source("dup"), "a.yml".to_string()),
        (file_source("dup"), "b.yml".to_string()),
    ];
    let err = collision(DaemonSourceRegistry::new(external, Vec::new()));
    assert_eq!(err.source_id, "dup");
    assert!(err.to_text().contains("a.yml"));
    assert!(err.to_text().contains("b.yml"));
    assert_eq!(
        err.to_text(),
        "source ID 'dup' declared in both external:a.yml and external:b.yml"
    );
}

#[test]
fn collision_external_vs_pipeline() {
    let external = vec![(file_source("shared"), "ext.yml".to_string())];
    let pipeline = vec![(file_source("shared"), "pipe1".to_string())];
    let err = collision(DaemonSourceRegistry::new(external, pipeline));
    assert_eq!(err.source_id, "shared");
    assert_eq!(err.second.to_text(), "pipeline:pipe1");
}

#[test]
fn empty_registry() {
    let registry = DaemonSourceRegistry::empty();
    assert!(registry.is_empty());
    assert_eq!(registry.len(), 0);
}

#[test]
fn external_sources_only() {
    let registry = match DaemonSourceRegistry::from_external(vec![(
        file_source("x"),
        "x.yml".to_string(),
    )]) {
        Ok(registry) => registry,
        Err(e) => panic!("{}", e.to_text()),
    };
    assert!(!registry.is_empty());
    assert_eq!(
        registry.get("x").unwrap().origin.to_text(),
        "external:x.yml"
    );
}

#[test]
fn loading_gathers_sources_or_stops_at_the_first_failure() {
    let loaded: Vec<(String, Result<Vec<DynamicSource>, String>)> = vec![
        ("a.yml".to_string(), Ok(vec![file_source("1"), file_source("2")])),
        ("dir".to_string(), Ok(vec![file_source("3")])),
    ];
    let sources = load_external_sources(loaded).unwrap();
    let seen: Vec<(&str, &str)> = sources
        .iter()
        .map(|(s, p)| (s.id.as_str(), p.as_str()))
        .collect();
    assert_eq!(seen, vec![("1", "a.yml"), ("2", "a.yml"), ("3", "dir")]);

    let failing: Vec<(String, Result<Vec<DynamicSource>, String>)> = vec![
        ("a.yml".to_string(), Ok(vec![file_source("1")])),
        ("b.yml".to_string(), Err("first".to_string())),
        ("c.yml".to_string(), Err("second".to_string())),
    ];
    assert_eq!(load_external_sources(failing).unwrap_err(), "first");
}

#[test]
fn origins_and_collisions_are_copied_and_compared() {
    let external = vec![
        (file_source("dup"), "a.yml".to_string()),
        (file_source("dup"), "b.yml".to_string()),
    ];
    let err = collision(DaemonSourceRegistry::new(external, Vec::new()));
    let copy = err.clone();
    assert_eq!(copy.first, err.first);
    assert_eq!(copy.second, err.second);
    assert_ne!(err.first, err.second);
    assert_ne!(
        SourceOrigin::Pipeline("a".to_string()),
        SourceOrigin::External("a".to_string())
    );
    let registry = match DaemonSourceRegistry::from_external(vec![(
        file_source("x"),
        "x.yml".to_string(),
    )]) {
        Ok(registry) => registry,
        Err(e) => panic!("{}", e.to_text()),
    };
    let entry = registry.get("x").unwrap().clone();
    assert_eq!(entry.source.id, "x");
    assert_eq!(entry.origin, SourceOrigin::External("x.yml".to_string()));
}

#[test]
fn a_copied_registry_holds_the_same() {
    let external = vec![
        (file_source("a"), "a.yml".to_string()),
        (file_source("b"), "b.yml".to_string()),
    ];
    let registry = match DaemonSourceRegistry::new(external, Vec::new()) {
        Ok(registry) => registry,
        Err(e) => panic!("{}", e.to_text()),
    };
    let copy = registry.clone();
    assert_eq!(copy.len(), 2);
    assert!(copy.ids().contains("a") && copy.ids().contains("b") && !copy.ids().contains("c"));
    assert_eq!(copy.get("b").unwrap().origin, registry.get("b").unwrap().origin);
    assert!(copy.get("a").unwrap().source.required);
}
