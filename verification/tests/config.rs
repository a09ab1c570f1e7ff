//! The configuration commands.

use rsigma::config::init_target;
use rsigma::config::may_write_template;
use rsigma::config::path_lines;
use rsigma::config::validation_report;
use rsigma::config::LoadedConfig;
use rsigma::json::Json;

fn loaded(unknown: &[(&str, &str)]) -> LoadedConfig {
    LoadedConfig {
        sources: vec!["/etc/rsigma.yaml".to_string(), "rsigma.yaml".to_string()],
        unknown_keys: unknown
            .iter()
            .map(|(f, k)| (f.to_string(), k.to_string()))
            .collect(),
        inactive: vec!["tls".to_string()],
    }
}

fn member<'a>(value: &'a Json, name: &str) -> &'a Json {
    match value {
        Json::Object(members) => &members.iter().find(|(n, _)| n == name).unwrap().1,
        other => panic!("not an object: {other:?}"),
    }
}

#[test]
fn a_template_replaces_a_file_only_by_force() {
    assert_eq!(init_target(None), "rsigma.yaml");
    assert_eq!(init_target(Some("x.yaml".to_string())), "x.yaml");
    assert_eq!(
        may_write_template("x.yaml", true, false).unwrap_err(),
        "refusing to overwrite existing x.yaml (pass --force to replace it)"
    );
    assert!(may_write_template("x.yaml", true, true).is_ok());
    assert!(may_write_template("x.yaml", false, false).is_ok());
}

#[test]
fn unknown_keys_fail_a_strict_validation_only() {
    let report = validation_report(Ok(loaded(&[("rsigma.yaml", "colour")])), false, false);
    assert!(!report.failed);
    assert!(report.envelope.is_none());
    assert_eq!(
        report.lines,
        vec![
            "Loaded (low to high precedence):",
            "  - /etc/rsigma.yaml",
            "  - rsigma.yaml",
            "warning: unknown key 'colour' in rsigma.yaml",
            "warning: section 'tls' is set but inert in this build (feature disabled)",
            "Config is valid.",
        ]
    );
    let strict = validation_report(Ok(loaded(&[("rsigma.yaml", "colour")])), false, true);
    assert!(strict.failed);
    assert_eq!(
        strict.lines.last().unwrap(),
        "1 unknown key(s) found (--strict)"
    );
}

#[test]
fn the_envelope_says_what_was_loaded() {
    let report = validation_report(Ok(loaded(&[("rsigma.yaml", "colour")])), true, true);
    assert!(report.failed);
    assert!(report.lines.is_empty());
    let envelope = report.envelope.unwrap();
    assert!(matches!(member(&envelope, "ok"), Json::Bool(false)));
    match member(&envelope, "unknown_keys") {
        Json::List(items) => {
            assert!(matches!(member(&items[0], "key"), Json::Text(k) if k == "colour"));
            assert!(matches!(member(&items[0], "file"), Json::Text(f) if f == "rsigma.yaml"));
        }
        other => panic!("not a list: {other:?}"),
    }
    assert!(matches!(member(&envelope, "sources"), Json::List(s) if s.len() == 2));
    assert!(matches!(member(&envelope, "inactive_sections"), Json::List(s) if s.len() == 1));
}

#[test]
fn a_configuration_that_cannot_be_loaded_fails() {
    let report = validation_report(Err("bad yaml".to_string()), false, false);
    assert!(report.failed);
    assert_eq!(report.lines, vec!["error: bad yaml"]);
    let report = validation_report(Err("bad yaml".to_string()), true, false);
    assert!(report.failed);
    let envelope = report.envelope.unwrap();
    assert!(matches!(member(&envelope, "error"), Json::Text(e) if e == "bad yaml"));
}

#[test]
fn no_configuration_files() {
    let report = validation_report(
        Ok(LoadedConfig { sources: vec![], unknown_keys: vec![], inactive: vec![] }),
        false,
        true,
    );
    assert!(!report.failed);
    assert_eq!(
        report.lines,
        vec!["No config files found; compiled defaults apply.", "Config is valid."]
    );
    assert_eq!(path_lines(vec![]), vec!["none"]);
    assert_eq!(path_lines(vec!["a".to_string()]), vec!["a"]);
}
