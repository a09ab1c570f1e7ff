//! The answers of the configuration commands.

use crate::json::Json;
use crate::json::JsonView;
use crate::json;
use crate::text;
use vstd::prelude::*;

verus! {

// ---------------------------------------------------------------------------
// Writing a template
// ---------------------------------------------------------------------------

/// Where the template goes: to the file given, or to `rsigma.yaml`.
pub fn init_target(output: Option<String>) -> (res: String)
    ensures
        res@ == match output {
            Some(path) => path@,
            None => "rsigma.yaml"@,
        },
{
    match output {
        Some(path) => path,
        None => "rsigma.yaml".to_owned(),
    }
}

/// Whether the template may be written. A file that is there is replaced only by
/// force.
pub fn may_write_template(path: &str, present: bool, force: bool) -> (res: Result<(), String>)
    ensures
        match res {
            Ok(()) => !present || force,
            Err(e) => present && !force && e@ == "refusing to overwrite existing "@ + path@
                + " (pass --force to replace it)"@,
        },
{
    if present && !force {
        let mut message: String = "refusing to overwrite existing ".to_owned();
        message.append(path);
        message.append(" (pass --force to replace it)");
        return Err(message);
    }
    Ok(())
}

// ---------------------------------------------------------------------------
// Validation
// ---------------------------------------------------------------------------

/// What loading the configuration gave: the files, from low to high precedence, the
/// unknown keys with the file of each, and the sections that have no effect in this
/// build.
#[derive(Debug)]
pub struct LoadedConfig {
    pub sources: Vec<String>,
    pub unknown_keys: Vec<(String, String)>,
    pub inactive: Vec<String>,
}

/// The answer of the validation: an object for standard output, or lines for
/// standard error, and whether the validation failed.
#[derive(Debug)]
pub struct ValidationReport {
    pub envelope: Option<Json>,
    pub lines: Vec<String>,
    pub failed: bool,
}

/// An unknown key as it is reported.
pub open spec fn unknown_key_object(k: (String, String)) -> JsonView {
    JsonView::Object(
        seq![("file"@, JsonView::Text(k.0@)), ("key"@, JsonView::Text(k.1@))],
    )
}

/// The validation failed: it is strict, and there is an unknown key.
pub open spec fn strictly_failed(config: LoadedConfig, strict: bool) -> bool {
    strict && config.unknown_keys@.len() > 0
}

/// The answer as an object.
pub open spec fn validation_object(loaded: Result<LoadedConfig, String>, strict: bool) -> JsonView {
    match loaded {
        Ok(config) => JsonView::Object(
            seq![
                ("ok"@, JsonView::Bool(!strictly_failed(config, strict))),
                ("sources"@, json::text_list(text::texts(config.sources@))),
                (
                    "unknown_keys"@,
                    JsonView::List(
                        config.unknown_keys@.map_values(
                            |k: (String, String)| unknown_key_object(k),
                        ),
                    ),
                ),
                ("inactive_sections"@, json::text_list(text::texts(config.inactive@))),
            ],
        ),
        Err(e) => JsonView::Object(
            seq![("ok"@, JsonView::Bool(false)), ("error"@, JsonView::Text(e@))],
        ),
    }
}

/// The lines on the files that were loaded.
pub open spec fn source_lines(sources: Seq<String>) -> Seq<Seq<char>> {
    if sources.len() == 0 {
        seq!["No config files found; compiled defaults apply."@]
    } else {
        seq!["Loaded (low to high precedence):"@] + sources.map_values(
            |s: String| "  - "@ + s@,
        )
    }
}

/// The line on an unknown key.
pub open spec fn unknown_key_line(k: (String, String)) -> Seq<char> {
    "warning: unknown key '"@ + k.1@ + "' in "@ + k.0@
}

/// The line on a section that has no effect.
pub open spec fn inactive_line(section: String) -> Seq<char> {
    "warning: section '"@ + section@ + "' is set but inert in this build (feature disabled)"@
}

/// The answer as lines.
pub open spec fn validation_lines(loaded: Result<LoadedConfig, String>, strict: bool) -> Seq<
    Seq<char>,
> {
    match loaded {
        Ok(config) => source_lines(config.sources@) + config.unknown_keys@.map_values(
            |k: (String, String)| unknown_key_line(k),
        ) + config.inactive@.map_values(|s: String| inactive_line(s)) + seq![
            if strictly_failed(config, strict) {
                text::decimal(config.unknown_keys@.len()) + " unknown key(s) found (--strict)"@
            } else {
                "Config is valid."@
            },
        ],
        Err(e) => seq!["error: "@ + e@],
    }
}

/// The unknown keys as a list of objects.
fn unknown_keys_value(keys: &Vec<(String, String)>) -> (res: Json)
    ensures
        res@ == JsonView::List(keys@.map_values(|k: (String, String)| unknown_key_object(k))),
{
    let ghost all = keys@.map_values(|k: (String, String)| unknown_key_object(k));
    let mut items: Vec<Json> = Vec::new();
    let mut i: usize = 0;
    assert(json::json_views(items@) =~= all.take(0));
    while i < keys.len()
        invariant
            0 <= i <= keys@.len(),
            all == keys@.map_values(|k: (String, String)| unknown_key_object(k)),
            json::json_views(items@) == all.take(i as int),
        decreases keys@.len() - i,
    {
        let mut members: Vec<(String, Json)> = Vec::new();
        json::push_member(&mut members, "file", json::text_value(keys[i].0.as_str()));
        json::push_member(&mut members, "key", json::text_value(keys[i].1.as_str()));
        assert(json::member_views(members@) =~= all[i as int]->Object_0);
        json::push_item(&mut items, Json::Object(members));
        assert(all.take(i + 1) =~= all.take(i as int).push(all[i as int]));
        i = i + 1;
    }
    assert(all.take(i as int) =~= all);
    Json::List(items)
}

/// The answer as an object.
fn validation_value(loaded: &Result<LoadedConfig, String>, strict: bool) -> (res: Json)
    ensures
        res@ == validation_object(*loaded, strict),
{
    let ghost expected = validation_object(*loaded, strict)->Object_0;
    let mut members: Vec<(String, Json)> = Vec::new();
    match loaded {
        Ok(config) => {
            let failed: bool = strict && config.unknown_keys.len() > 0;
            json::push_member(&mut members, "ok", Json::Bool(!failed));
            json::push_member(&mut members, "sources", json::text_list_value(&config.sources));
            json::push_member(
                &mut members,
                "unknown_keys",
                unknown_keys_value(&config.unknown_keys),
            );
            json::push_member(
                &mut members,
                "inactive_sections",
                json::text_list_value(&config.inactive),
            );
        },
        Err(e) => {
            json::push_member(&mut members, "ok", Json::Bool(false));
            json::push_member(&mut members, "error", json::text_value(e.as_str()));
        },
    }
    assert(json::member_views(members@) =~= expected);
    Json::Object(members)
}

fn push_line(lines: &mut Vec<String>, line: String)
    ensures
        text::texts(final(lines)@) == text::texts(old(lines)@).push(line@),
{
    let ghost before = text::texts(lines@);
    lines.push(line);
    assert(text::texts(lines@) =~= before.push(line@));
}

fn push_source_lines(lines: &mut Vec<String>, sources: &Vec<String>)
    ensures
        text::texts(final(lines)@) == text::texts(old(lines)@) + source_lines(sources@),
{
    let ghost before = text::texts(lines@);
    let ghost all = source_lines(sources@);
    if sources.len() == 0 {
        push_line(lines, "No config files found; compiled defaults apply.".to_owned());
        assert(text::texts(lines@) =~= before + all);
        return;
    }
    push_line(lines, "Loaded (low to high precedence):".to_owned());
    let mut i: usize = 0;
    assert(text::texts(lines@) =~= before + all.take(1));
    while i < sources.len()
        invariant
            0 <= i <= sources@.len(),
            sources@.len() > 0,
            all == source_lines(sources@),
            text::texts(lines@) == before + all.take(i + 1),
        decreases sources@.len() - i,
    {
        let mut line: String = "  - ".to_owned();
        line.append(sources[i].as_str());
        push_line(lines, line);
        assert(all[i + 1] == "  - "@ + sources@[i as int]@);
        assert(text::texts(lines@) =~= before + all.take(i + 2));
        i = i + 1;
    }
    assert(all.take(i + 1) =~= all);
}

fn push_key_lines(lines: &mut Vec<String>, keys: &Vec<(String, String)>)
    ensures
        text::texts(final(lines)@) == text::texts(old(lines)@) + keys@.map_values(
            |k: (String, String)| unknown_key_line(k),
        ),
{
    let ghost before = text::texts(lines@);
    let ghost all = keys@.map_values(|k: (String, String)| unknown_key_line(k));
    let mut i: usize = 0;
    assert(text::texts(lines@) =~= before + all.take(0));
    while i < keys.len()
        invariant
            0 <= i <= keys@.len(),
            all == keys@.map_values(|k: (String, String)| unknown_key_line(k)),
            text::texts(lines@) == before + all.take(i as int),
        decreases keys@.len() - i,
    {
        let mut line: String = "warning: unknown key '".to_owned();
        line.append(keys[i].1.as_str());
        line.append("' in ");
        line.append(keys[i].0.as_str());
        push_line(lines, line);
        assert(text::texts(lines@) =~= before + all.take(i + 1));
        i = i + 1;
    }
    assert(all.take(i as int) =~= all);
}

fn push_inactive_lines(lines: &mut Vec<String>, sections: &Vec<String>)
    ensures
        text::texts(final(lines)@) == text::texts(old(lines)@) + sections@.map_values(
            |s: String| inactive_line(s),
        ),
{
    let ghost before = text::texts(lines@);
    let ghost all = sections@.map_values(|s: String| inactive_line(s));
    let mut i: usize = 0;
    assert(text::texts(lines@) =~= before + all.take(0));
    while i < sections.len()
        invariant
            0 <= i <= sections@.len(),
            all == sections@.map_values(|s: String| inactive_line(s)),
            text::texts(lines@) == before + all.take(i as int),
        decreases sections@.len() - i,
    {
        let mut line: String = "warning: section '".to_owned();
        line.append(sections[i].as_str());
        line.append("' is set but inert in this build (feature disabled)");
        push_line(lines, line);
        assert(text::texts(lines@) =~= before + all.take(i + 1));
        i = i + 1;
    }
    assert(all.take(i as int) =~= all);
}

/// The answer as lines.
fn validation_text(loaded: &Result<LoadedConfig, String>, strict: bool) -> (res: Vec<String>)
    ensures
        text::texts(res@) == validation_lines(*loaded, strict),
{
    let mut lines: Vec<String> = Vec::new();
    assert(text::texts(lines@) =~= Seq::empty());
    match loaded {
        Ok(config) => {
            push_source_lines(&mut lines, &config.sources);
            push_key_lines(&mut lines, &config.unknown_keys);
            push_inactive_lines(&mut lines, &config.inactive);
            let last: String = if strict && config.unknown_keys.len() > 0 {
                let mut line: String = text::decimal_text(config.unknown_keys.len() as u64);
                line.append(" unknown key(s) found (--strict)");
                line
            } else {
                "Config is valid.".to_owned()
            };
            push_line(&mut lines, last);
        },
        Err(e) => {
            let mut line: String = "error: ".to_owned();
            line.append(e.as_str());
            push_line(&mut lines, line);
        },
    }
    assert(text::texts(lines@) =~= validation_lines(*loaded, strict));
    lines
}

/// Validate the configuration: report what was loaded, and fail if it could not be
/// loaded or if the validation is strict and there are unknown keys.
pub fn validation_report(
    loaded: Result<LoadedConfig, String>,
    json: bool,
    strict: bool,
) -> (res: ValidationReport)
    ensures
        res.failed == match loaded {
            Ok(config) => strictly_failed(config, strict),
            Err(_) => true,
        },
        json ==> (res.envelope matches Some(value) && value@ == validation_object(loaded, strict)),
        json ==> res.lines@.len() == 0,
        !json ==> res.envelope is None,
        !json ==> text::texts(res.lines@) == validation_lines(loaded, strict),
{
    let failed: bool = match &loaded {
        Ok(config) => strict && config.unknown_keys.len() > 0,
        Err(_) => true,
    };
    if json {
        ValidationReport {
            envelope: Some(validation_value(&loaded, strict)),
            lines: Vec::new(),
            failed,
        }
    } else {
        ValidationReport { envelope: None, lines: validation_text(&loaded, strict), failed }
    }
}

// ---------------------------------------------------------------------------
// Paths
// ---------------------------------------------------------------------------

/// The lines that name the configuration files: their paths, or `none`.
pub fn path_lines(paths: Vec<String>) -> (res: Vec<String>)
    ensures
        text::texts(res@) == (if paths@.len() == 0 {
            seq!["none"@]
        } else {
            text::texts(paths@)
        }),
{
    if paths.len() == 0 {
        let mut lines: Vec<String> = Vec::new();
        push_line(&mut lines, "none".to_owned());
        assert(text::texts(lines@) =~= seq!["none"@]);
        lines
    } else {
        paths
    }
}

} // verus!
