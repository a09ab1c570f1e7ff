//! Moving sources out of pipeline files.

use rsigma::migrate::build_sources_yaml;
use rsigma::migrate::extract_source_yaml;
use rsigma::migrate::is_pipeline_file;
use rsigma::migrate::remove_sources_block;
use rsigma::migrate::sources_file_name;
use rsigma::migrate::strategy_from_name;
use rsigma::migrate::strip_pipeline;
use rsigma::migrate::wrote_message;
use rsigma::migrate::Conclusion;
use rsigma::migrate::ExtractedSource;
use rsigma::migrate::Migration;
use rsigma::migrate::Strategy;

#[test]
fn test_remove_sources_block() {
    let input = r#"name: my_pipeline
priority: 50
sources:
  - id: threat_feed
    type: http
    url: https://example.com/feed
    format: json
  - id: local_data
    type: file
    path: /tmp/data.json
    format: json
transformations:
  - type: value_placeholders
"#;
    let output = remove_sources_block(input);
    assert!(!output.contains("sources:"));
    assert!(!output.contains("threat_feed"));
    assert!(!output.contains("local_data"));
    assert!(output.contains("name: my_pipeline"));
    assert!(output.contains("transformations:"));
    assert_eq!(
        output,
        "name: my_pipeline\npriority: 50\ntransformations:\n  - type: value_placeholders\n"
    );
}

#[test]
fn test_remove_sources_block_no_sources() {
    let input = "name: simple\ntransformations:\n  - type: field_name_mapping\n";
    let output = remove_sources_block(input);
    assert_eq!(output, input);
}

#[test]
fn test_build_sources_yaml() {
    let sources = vec![
        ExtractedSource {
            raw_yaml: "  - id: feed_a\n    type: http\n    url: https://example.com\n".to_string(),
        },
        ExtractedSource {
            raw_yaml: "  - id: feed_b\n    type: file\n    path: /tmp/data.json\n".to_string(),
        },
    ];
    let yaml = build_sources_yaml(&sources);
    assert!(yaml.starts_with("sources:\n"));
    assert!(yaml.contains("feed_a"));
    assert!(yaml.contains("feed_b"));

    // Must be valid YAML
    let parsed: yaml_serde::Value = yaml_serde::from_str(&yaml).unwrap();
    assert!(parsed
        .as_mapping()
        .unwrap()
        .contains_key(yaml_serde::Value::String("sources".to_string())));
}

#[test]
fn test_extract_source_yaml() {
    let content = r#"name: test
sources:
  - id: alpha
    type: file
    path: /tmp/a.json
    format: json
  - id: beta
    type: http
    url: https://example.com
    format: json
transformations:
  - type: value_placeholders
"#;
    let extracted = extract_source_yaml(content, "alpha");
    assert!(extracted.contains("alpha"));
    assert!(extracted.contains("file"));
    assert!(!extracted.contains("beta"));
    assert_eq!(
        extracted,
        "  - id: alpha\n    type: file\n    path: /tmp/a.json\n    format: json\n"
    );
    assert_eq!(
        extract_source_yaml(content, "beta"),
        "  - id: beta\n    type: http\n    url: https://example.com\n    format: json\n"
    );
}

const PIPELINE_WITH_SOURCES: &str = r#"
name: dynamic_ecs
priority: 50
sources:
  - id: threat_feed
    type: file
    path: /tmp/threat.json
    format: json
  - id: asset_db
    type: http
    url: https://example.com/assets
    format: json
    refresh: 1h
transformations:
  - type: value_placeholders
"#;

const PIPELINE_NO_SOURCES: &str = r#"
name: simple_mapping
priority: 10
transformations:
  - id: map_fields
    type: field_name_mapping
    mapping:
      CommandLine: process.command_line
"#;

fn ids(names: &[&str]) -> Vec<String> {
    names.iter().map(|n| n.to_string()).collect()
}

fn read_both() -> Migration {
    let mut migration = Migration::new();
    migration
        .add_pipeline(
            "p/pipe.yml",
            Some("pipe.yml"),
            PIPELINE_WITH_SOURCES,
            &ids(&["threat_feed", "asset_db"]),
        )
        .unwrap();
    migration
        .add_pipeline("p/plain.yml", Some("plain.yml"), PIPELINE_NO_SOURCES, &ids(&[]))
        .unwrap();
    migration
}

#[test]
fn migrate_sources_single_strategy() {
    let migration = read_both();
    match migration.conclude(false, Strategy::Single) {
        Conclusion::Write { report, files } => {
            assert_eq!(
                report,
                "Found 2 source(s) across 1 pipeline(s) (1 without sources)."
            );
            assert_eq!(files.len(), 1);
            assert_eq!(files[0].name, None);
            assert_eq!(files[0].count, 2);
            assert_eq!(
                wrote_message(files[0].count, None, "sources.yml"),
                "Wrote 2 source(s) to sources.yml"
            );
            let content = &files[0].content;
            assert!(content.contains("sources:"));
            assert!(content.contains("threat_feed"));
            assert!(content.contains("asset_db"));
        }
        other => panic!("unexpected {other:?}"),
    }
    let stripped = strip_pipeline(PIPELINE_WITH_SOURCES).unwrap();
    assert!(!stripped.contains("sources:"));
    assert!(stripped.contains("transformations:"));
    assert_eq!(strip_pipeline(PIPELINE_NO_SOURCES), None);
}

#[test]
fn migrate_sources_dry_run() {
    match read_both().conclude(true, Strategy::Single) {
        Conclusion::Preview { yaml, .. } => assert!(yaml.contains("sources:")),
        other => panic!("unexpected {other:?}"),
    }
}

#[test]
fn migrate_sources_no_sources_found() {
    let mut migration = Migration::new();
    migration
        .add_pipeline("plain.yml", Some("plain.yml"), PIPELINE_NO_SOURCES, &ids(&[]))
        .unwrap();
    assert!(matches!(
        migration.conclude(false, Strategy::Single),
        Conclusion::NothingFound
    ));
}

#[test]
fn migrate_sources_per_pipeline_strategy() {
    match read_both().conclude(false, Strategy::PerPipeline) {
        Conclusion::Write { files, .. } => {
            assert!(!files.is_empty(), "expected at least one output file");
            assert_eq!(files[0].name.as_deref(), Some("pipe-sources.yml"));
            assert_eq!(files[0].origin.as_deref(), Some("p/pipe.yml"));
            assert_eq!(
                wrote_message(files[0].count, files[0].origin.as_deref(), "out/pipe-sources.yml"),
                "Wrote 2 source(s) from p/pipe.yml to out/pipe-sources.yml"
            );
        }
        other => panic!("unexpected {other:?}"),
    }
}

#[test]
fn a_repeated_id_is_a_conflict_and_changes_nothing() {
    let mut migration = read_both();
    let conflict = migration
        .add_pipeline("q.yml", Some("q.yml"), "", &ids(&["new", "asset_db"]))
        .unwrap_err();
    assert_eq!(
        conflict.message(),
        "Error: source ID 'asset_db' declared in both 'p/pipe.yml' and 'q.yml'. \
         Resolve the conflict before migrating."
    );
    migration
        .add_pipeline("r.yml", Some("r.yml"), "", &ids(&["new"]))
        .unwrap();
}

#[test]
fn a_written_source_is_read_back() {
    let sources: Vec<ExtractedSource> = ["threat_feed", "asset_db"]
        .iter()
        .map(|id| ExtractedSource {
            raw_yaml: extract_source_yaml(PIPELINE_WITH_SOURCES, id),
        })
        .collect();
    let file = build_sources_yaml(&sources);
    assert_eq!(
        extract_source_yaml(&file, "threat_feed"),
        "  - id: threat_feed\n    type: file\n    path: /tmp/threat.json\n    format: json\n"
    );
    assert_eq!(
        extract_source_yaml(&file, "asset_db"),
        "  - id: asset_db\n    type: http\n    url: https://example.com/assets\n    format: json\n    refresh: 1h\n"
    );
}

#[test]
fn a_quoted_id_is_found_and_a_missing_one_gives_a_bare_entry() {
    let content = "sources:\n  - id: \"a b\"\n    type: file\nname: x\n";
    assert_eq!(
        extract_source_yaml(content, "a b"),
        "  - id: \"a b\"\n    type: file\n"
    );
    assert_eq!(extract_source_yaml(content, "zzz"), "  - id: zzz\n");
}

#[test]
fn an_indented_block_ends_where_the_indent_does() {
    let content = "outer:\n  sources:\n  - id: a\n    type: file\n  next: 1\nlast: 2";
    assert_eq!(
        remove_sources_block(content),
        "outer:\n  next: 1\nlast: 2"
    );
}

#[test]
fn carriage_returns_are_not_kept() {
    assert_eq!(remove_sources_block("a: 1\r\nb: 2\r\n"), "a: 1\nb: 2\n");
}

#[test]
fn file_names_and_strategies() {
    assert!(is_pipeline_file("a.yml"));
    assert!(is_pipeline_file("a.b.yaml"));
    assert!(!is_pipeline_file(".yml"));
    assert!(!is_pipeline_file("a.json"));
    assert_eq!(sources_file_name(Some("a.b.yml")), "a.b-sources.yml");
    assert_eq!(sources_file_name(Some(".hidden")), ".hidden-sources.yml");
    assert_eq!(sources_file_name(None), "sources-sources.yml");
    assert_eq!(strategy_from_name("single"), Some(Strategy::Single));
    assert_eq!(strategy_from_name("per-pipeline"), Some(Strategy::PerPipeline));
    assert_eq!(strategy_from_name("other"), None);
}

#[test]
fn nested_keys_keep_their_depth() {
    let sources = vec![
        ExtractedSource {
            raw_yaml: "  - id: a\n    headers:\n      k: v\n".to_string(),
        },
        ExtractedSource {
            raw_yaml: "- id: b\n  headers:\n    k: v\n\n# note\n".to_string(),
        },
        ExtractedSource {
            raw_yaml: "      -  id: c\n         type: file\n".to_string(),
        },
    ];
    assert_eq!(
        build_sources_yaml(&sources[..1]),
        "sources:\n  - id: a\n    headers:\n      k: v\n"
    );
    assert_eq!(
        build_sources_yaml(&sources),
        "sources:\n  - id: a\n    headers:\n      k: v\n\
         \x20 - id: b\n    headers:\n      k: v\n  # note\n\
         \x20 -  id: c\n     type: file\n"
    );
}

#[test]
fn a_comment_behind_the_key_does_not_hide_the_block() {
    let content = "name: p\nsources: # feeds\n  - id: a\n    type: file\ntransformations: []\n";
    assert_eq!(remove_sources_block(content), "name: p\ntransformations: []\n");
    assert_eq!(extract_source_yaml(content, "a"), "  - id: a\n    type: file\n");
    let other = "sources:# not a comment\nsources: x # a value\n";
    assert_eq!(remove_sources_block(other), other);
}

#[test]
fn pipelines_of_one_name_get_files_of_their_own() {
    let mut migration = Migration::new();
    for (path, id) in [("a/p.yml", "one"), ("b/p.yml", "two"), ("c/p.yaml", "three")] {
        let name = path.rsplit('/').next();
        let content = format!("sources:\n  - id: {id}\n");
        migration.add_pipeline(path, name, &content, &ids(&[id])).unwrap();
    }
    migration
        .add_pipeline("p-1.yml", Some("p-1.yml"), "sources:\n  - id: four\n", &ids(&["four"]))
        .unwrap();
    match migration.conclude(false, Strategy::PerPipeline) {
        Conclusion::Write { files, .. } => {
            let names: Vec<&str> = files.iter().map(|f| f.name.as_deref().unwrap()).collect();
            assert_eq!(
                names,
                vec![
                    "p-sources.yml",
                    "p-1-sources.yml",
                    "p-2-sources.yml",
                    "p-1-1-sources.yml"
                ]
            );
            assert_eq!(files[1].content, "sources:\n  - id: two\n");
        }
        other => panic!("unexpected {other:?}"),
    }
}

#[test]
fn a_source_that_two_pipelines_declare_alike_is_kept_once() {
    let first = "sources:\n  - id: a\n    type: file\n    path: x\n  - id: b\n    type: file\n";
    let second = "sources:\n- id: c\n- id: a\n  type: file\n  path: x\n\ntransformations: []\n";
    let third = "sources:\n  - id: b\n    type: file\n";
    let mut migration = Migration::new();
    migration.add_pipeline("p.yml", Some("p.yml"), first, &ids(&["a", "b"])).unwrap();
    migration.add_pipeline("q.yml", Some("q.yml"), second, &ids(&["c", "a"])).unwrap();
    migration.add_pipeline("r.yml", Some("r.yml"), third, &ids(&["b"])).unwrap();
    match migration.conclude(false, Strategy::Single) {
        Conclusion::Write { report, files } => {
            assert_eq!(
                report,
                "Found 3 source(s) across 3 pipeline(s) (0 without sources)."
            );
            assert_eq!(
                files[0].content,
                "sources:\n  - id: a\n    type: file\n    path: x\n  - id: b\n    type: file\n  - id: c\n"
            );
        }
        other => panic!("unexpected {other:?}"),
    }
    match migration.conclude(false, Strategy::PerPipeline) {
        Conclusion::Write { files, .. } => {
            let names: Vec<&str> = files.iter().map(|f| f.name.as_deref().unwrap()).collect();
            assert_eq!(names, vec!["p-sources.yml", "q-sources.yml"]);
            assert_eq!(files[1].content, "sources:\n  - id: c\n");
            assert_eq!(files[1].count, 1);
        }
        other => panic!("unexpected {other:?}"),
    }
}

#[test]
fn another_configuration_of_an_id_is_a_conflict() {
    let first = "sources:\n  - id: a\n    type: file\n";
    let other = "sources:\n  - id: a\n    type: http\n";
    let mut migration = Migration::new();
    migration.add_pipeline("p.yml", Some("p.yml"), first, &ids(&["a"])).unwrap();
    let conflict = migration
        .add_pipeline("q.yml", Some("q.yml"), other, &ids(&["a"]))
        .unwrap_err();
    assert_eq!(
        (conflict.id.as_str(), conflict.first.as_str(), conflict.second.as_str()),
        ("a", "p.yml", "q.yml")
    );
    // A pipeline that declares an ID twice clashes with itself.
    let conflict = migration
        .add_pipeline("r.yml", Some("r.yml"), first, &ids(&["a", "a"]))
        .unwrap_err();
    assert_eq!((conflict.first.as_str(), conflict.second.as_str()), ("r.yml", "r.yml"));
    // Where an entry cannot be found its configuration is not known to be the same.
    let hidden = "sources:\n  - type: file\n    id: z\n";
    migration.add_pipeline("s.yml", Some("s.yml"), hidden, &ids(&["z"])).unwrap();
    assert!(migration.add_pipeline("t.yml", Some("t.yml"), hidden, &ids(&["z"])).is_err());
}
