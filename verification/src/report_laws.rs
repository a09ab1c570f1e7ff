//! What is answered, in words and as objects.

use crate::config::LoadedConfig;
use crate::config;
use crate::deprecation;
use crate::json::JsonView;
use crate::mcp::FileFindings;
use crate::mcp::Finding;
use crate::mcp::ParsedSource;
use crate::mcp::Resource;
use crate::mcp::Severity;
use crate::mcp::SourceChoice;
use crate::mcp;
use crate::migrate::SourceConflict;
use crate::migrate::Strategy;
use crate::migrate;
use crate::migrate_laws;
use crate::registry::SourceCollisionError;
use crate::registry::SourceOriginView;
use crate::registry;
use crate::stix::Confidence;
use crate::stix::ConfidenceOutOfRange;
use crate::stix::ModelError;
use crate::stix;
use crate::text;
use vstd::prelude::*;

verus! {

// ---------------------------------------------------------------------------
// Objects
// ---------------------------------------------------------------------------

/// The value is an object, and holds that value under that name.
pub open spec fn says(v: JsonView, name: Seq<char>, value: JsonView) -> bool {
    v matches JsonView::Object(members) && exists|i: int|
        0 <= i < members.len() && #[trigger] members[i] == (name, value)
}

/// The value is an object of so many members.
pub open spec fn members_in(v: JsonView, n: nat) -> bool {
    v matches JsonView::Object(members) && members.len() == n
}

/// The findings of that severity.
pub open spec fn of_severity(findings: Seq<Finding>, severity: Severity) -> Seq<Finding> {
    findings.filter(|f: Finding| f.severity == severity)
}

/// A count of findings is how many have that severity.
pub proof fn lemma_counted(findings: Seq<Finding>, severity: Severity)
    ensures
        mcp::severity_count(findings, severity) == of_severity(findings, severity).len(),
    decreases findings.len(),
{
    reveal(Seq::filter);
    if findings.len() > 0 {
        lemma_counted(findings.drop_last(), severity);
    }
}

/// One file more adds its own findings to the totals.
pub proof fn lemma_totals_add_up(files: Seq<FileFindings>, more: FileFindings, severity: Severity)
    ensures
        mcp::total_count(Seq::empty(), severity) == 0,
        mcp::total_count(files.push(more), severity) == mcp::total_count(files, severity)
            + of_severity(more.findings@, severity).len(),
{
    lemma_counted(more.findings@, severity);
    assert(files.push(more).drop_last() =~= files);
}

/// The report of a lint run: in order if and only if there is no error, how many findings
/// of each severity there are, and the findings of each file, in order.
pub proof fn lemma_lint_report(files: Seq<FileFindings>)
    ensures
        members_in(mcp::lint_object(files), 3),
        says(
            mcp::lint_object(files),
            "ok"@,
            JsonView::Bool(mcp::total_count(files, Severity::Error) == 0),
        ),
        exists|summary: JsonView| #[trigger]
            says(mcp::lint_object(files), "summary"@, summary) && members_in(summary, 5) && says(
                summary,
                "files"@,
                JsonView::Int(files.len() as int),
            ) && says(
                summary,
                "errors"@,
                JsonView::Int(mcp::total_count(files, Severity::Error) as int),
            ) && says(
                summary,
                "warnings"@,
                JsonView::Int(mcp::total_count(files, Severity::Warning) as int),
            ) && says(
                summary,
                "infos"@,
                JsonView::Int(mcp::total_count(files, Severity::Info) as int),
            ) && says(
                summary,
                "hints"@,
                JsonView::Int(mcp::total_count(files, Severity::Hint) as int),
            ),
        exists|list: Seq<JsonView>| #[trigger]
            says(mcp::lint_object(files), "files"@, JsonView::List(list)) && reports(files, list),
{
    let all = mcp::lint_object(files)->Object_0;
    let summary = all[1].1;
    let counts = summary->Object_0;
    let list = all[2].1->List_0;
    assert(all[0].0 == "ok"@);
    assert(says(mcp::lint_object(files), "ok"@, all[0].1));
    assert(says(mcp::lint_object(files), "summary"@, summary));
    assert(says(summary, "files"@, counts[0].1));
    assert(says(summary, "errors"@, counts[1].1));
    assert(says(summary, "warnings"@, counts[2].1));
    assert(says(summary, "infos"@, counts[3].1));
    assert(says(summary, "hints"@, counts[4].1));
    assert(says(mcp::lint_object(files), "files"@, JsonView::List(list)));
    assert forall|i: int| 0 <= i < files.len() implies reports_file(
        files[i],
        #[trigger] list[i],
    ) by {
        let own = list[i]->Object_0;
        assert(list[i] == mcp::file_object(files[i]));
        assert(says(list[i], "path"@, own[0].1));
        let details = own[1].1->List_0;
        assert(says(list[i], "findings"@, JsonView::List(details)));
    }
}

/// The list reports the files, each in its place.
pub open spec fn reports(files: Seq<FileFindings>, list: Seq<JsonView>) -> bool {
    list.len() == files.len() && forall|i: int|
        0 <= i < files.len() ==> reports_file(files[i], #[trigger] list[i])
}

/// The object reports the file: its path and what describes each of its findings, in order.
pub open spec fn reports_file(file: FileFindings, v: JsonView) -> bool {
    &&& members_in(v, 2)
    &&& says(v, "path"@, JsonView::Text(file.path@))
    &&& exists|details: Seq<JsonView>| #[trigger]
        says(v, "findings"@, JsonView::List(details)) && details.len() == file.findings@.len()
            && forall|k: int|
            0 <= k < details.len() ==> #[trigger] details[k] == file.findings@[k].details@
}

/// The report of a parse: whether it is in order, the counts of rules, correlations and
/// filters, the errors that were noted, and the collection; or the error.
pub proof fn lemma_parse_report(p: ParsedSource, e: String)
    ensures
        ({
            let v = mcp::parse_object(Ok(p));
            &&& members_in(v, 6)
            &&& says(v, "ok"@, JsonView::Bool(p.errors@.len() == 0))
            &&& says(v, "rule_count"@, JsonView::Int(p.rules as int))
            &&& says(v, "correlation_count"@, JsonView::Int(p.correlations as int))
            &&& says(v, "filter_count"@, JsonView::Int(p.filters as int))
            &&& says(v, "collection"@, p.collection@)
            &&& exists|list: Seq<JsonView>| #[trigger]
                says(v, "parse_errors"@, JsonView::List(list)) && lists(p.errors@, list)
        }),
        ({
            let v = mcp::parse_object(Err(e));
            &&& members_in(v, 2)
            &&& says(v, "ok"@, JsonView::Bool(false))
            &&& says(v, "error"@, JsonView::Text(e@))
        }),
{
    let v = mcp::parse_object(Ok(p));
    let all = v->Object_0;
    assert(says(v, "ok"@, all[0].1));
    assert(says(v, "rule_count"@, all[1].1));
    assert(says(v, "correlation_count"@, all[2].1));
    assert(says(v, "filter_count"@, all[3].1));
    let list = all[4].1->List_0;
    assert(says(v, "parse_errors"@, JsonView::List(list)));
    assert(says(v, "collection"@, all[5].1));
    let w = mcp::parse_object(Err(e));
    let bad = w->Object_0;
    assert(says(w, "ok"@, bad[0].1));
    assert(says(w, "error"@, bad[1].1));
}

/// The list is the texts, in order.
pub open spec fn lists(texts: Seq<String>, list: Seq<JsonView>) -> bool {
    list.len() == texts.len() && forall|i: int|
        0 <= i < texts.len() ==> #[trigger] list[i] == JsonView::Text(texts[i]@)
}

/// A table is reported as a list of objects, in order, each with a name and a description.
pub proof fn lemma_pairs_report(pairs: Seq<(String, String)>)
    ensures
        mcp::pairs_object(pairs) matches JsonView::List(list) && list.len() == pairs.len()
            && forall|i: int|
            0 <= i < pairs.len() ==> members_in(#[trigger] list[i], 2) && says(
                list[i],
                "name"@,
                JsonView::Text(pairs[i].0@),
            ) && says(list[i], "description"@, JsonView::Text(pairs[i].1@)),
{
    let list = mcp::pairs_object(pairs)->List_0;
    assert forall|i: int| 0 <= i < pairs.len() implies members_in(#[trigger] list[i], 2) && says(
        list[i],
        "name"@,
        JsonView::Text(pairs[i].0@),
    ) && says(list[i], "description"@, JsonView::Text(pairs[i].1@)) by {
        let own = list[i]->Object_0;
        assert(says(list[i], "name"@, own[0].1));
        assert(says(list[i], "description"@, own[1].1));
    }
}

/// The answer of a validation as an object: whether it is in order, the files, the unknown
/// keys, each with its file, and the sections without effect, all in order; or the error.
pub proof fn lemma_validation_report(c: LoadedConfig, e: String, strict: bool)
    ensures
        ({
            let v = config::validation_object(Ok(c), strict);
            &&& members_in(v, 4)
            &&& says(v, "ok"@, JsonView::Bool(!strict || c.unknown_keys@.len() == 0))
            &&& exists|list: Seq<JsonView>| #[trigger]
                says(v, "sources"@, JsonView::List(list)) && lists(c.sources@, list)
            &&& exists|list: Seq<JsonView>| #[trigger]
                says(v, "inactive_sections"@, JsonView::List(list)) && lists(c.inactive@, list)
            &&& exists|list: Seq<JsonView>| #[trigger]
                says(v, "unknown_keys"@, JsonView::List(list)) && reports_keys(
                    c.unknown_keys@,
                    list,
                )
        }),
        ({
            let v = config::validation_object(Err(e), strict);
            &&& members_in(v, 2)
            &&& says(v, "ok"@, JsonView::Bool(false))
            &&& says(v, "error"@, JsonView::Text(e@))
        }),
{
    let v = config::validation_object(Ok(c), strict);
    let all = v->Object_0;
    assert(says(v, "ok"@, all[0].1));
    let sources = all[1].1->List_0;
    assert(says(v, "sources"@, JsonView::List(sources)));
    let keys = all[2].1->List_0;
    assert(says(v, "unknown_keys"@, JsonView::List(keys)));
    assert forall|i: int| 0 <= i < c.unknown_keys@.len() implies members_in(
        #[trigger] keys[i],
        2,
    ) && says(keys[i], "file"@, JsonView::Text(c.unknown_keys@[i].0@)) && says(
        keys[i],
        "key"@,
        JsonView::Text(c.unknown_keys@[i].1@),
    ) by {
        assert(keys[i] == config::unknown_key_object(c.unknown_keys@[i]));
        let own = keys[i]->Object_0;
        assert(says(keys[i], "file"@, own[0].1));
        assert(says(keys[i], "key"@, own[1].1));
    }
    assert(reports_keys(c.unknown_keys@, keys));
    let inactive = all[3].1->List_0;
    assert(says(v, "inactive_sections"@, JsonView::List(inactive)));
    let w = config::validation_object(Err(e), strict);
    let bad = w->Object_0;
    assert(says(w, "ok"@, bad[0].1));
    assert(says(w, "error"@, bad[1].1));
}

/// The list reports the unknown keys, each with its file.
pub open spec fn reports_keys(keys: Seq<(String, String)>, list: Seq<JsonView>) -> bool {
    list.len() == keys.len() && forall|i: int|
        0 <= i < keys.len() ==> members_in(#[trigger] list[i], 2) && says(
            list[i],
            "file"@,
            JsonView::Text(keys[i].0@),
        ) && says(list[i], "key"@, JsonView::Text(keys[i].1@))
}

/// The answer of a validation as lines: the files, behind a heading, or that there are
/// none; a line for each unknown key and for each section without effect; and the outcome.
pub proof fn lemma_validation_lines(c: LoadedConfig, e: String, strict: bool, i: int)
    ensures
        ({
            let lines = config::validation_lines(Ok(c), strict);
            let s = c.sources@.len() as int;
            let k = c.unknown_keys@.len() as int;
            let n = c.inactive@.len() as int;
            &&& lines.len() == 1 + s + k + n + 1
            &&& s == 0 ==> lines[0] == "No config files found; compiled defaults apply."@
            &&& s > 0 ==> lines[0] == "Loaded (low to high precedence):"@
            &&& 0 <= i < s ==> lines[1 + i] == "  - "@ + c.sources@[i]@
            &&& 0 <= i < k ==> lines[1 + s + i] == "warning: unknown key '"@ + c.unknown_keys@[i].1@
                + "' in "@ + c.unknown_keys@[i].0@
            &&& 0 <= i < n ==> lines[1 + s + k + i] == "warning: section '"@ + c.inactive@[i]@
                + "' is set but inert in this build (feature disabled)"@
            &&& strict && k > 0 ==> lines[1 + s + k + n] == text::decimal(k as nat)
                + " unknown key(s) found (--strict)"@
            &&& !(strict && k > 0) ==> lines[1 + s + k + n] == "Config is valid."@
        }),
        config::validation_lines(Err(e), strict) == seq!["error: "@ + e@],
{
}

// ---------------------------------------------------------------------------
// Words
// ---------------------------------------------------------------------------

/// What an inline source is warned of with.
pub proof fn lemma_deprecation_in_words(path: Seq<char>, name: Seq<char>)
    ensures
        deprecation::log_text()
            == "pipeline declares inline 'sources:' block, which is deprecated; use '--source <file>' instead. Run 'rsigma rule migrate-sources' to extract sources into a standalone file. Pipeline-embedded sources will be removed in v1.0."@,
        deprecation::notice_text(path, name) == "warning: pipeline '"@ + name + "' ("@ + path
            + ") declares an inline 'sources:' block, which is deprecated and will be removed in v1.0. Migrate with `rsigma rule migrate-sources -p "@
            + path
            + " -o sources.yml` and load via `--source sources.yml` on `rsigma engine daemon`."@,
{
}

/// A file is known by its canonical path, and without one by the path given.
pub proof fn lemma_known_path(canonical: &str, path: Seq<char>)
    ensures
        deprecation::known_path(Some(canonical), path) == canonical@,
        deprecation::known_path(None, path) == path,
{
}

/// The addresses and titles of the resources; these are all that there are.
pub proof fn lemma_resources(r: Resource)
    ensures
        mcp::resource_uri(Resource::LintCatalogue) == "rsigma://lint/catalogue"@,
        mcp::resource_uri(Resource::Modifiers) == "rsigma://reference/modifiers"@,
        mcp::resource_uri(Resource::MitreTactics) == "rsigma://reference/mitre-tactics"@,
        mcp::resource_title(Resource::LintCatalogue) == "Lint rule catalogue"@,
        mcp::resource_title(Resource::Modifiers) == "Sigma field modifiers"@,
        mcp::resource_title(Resource::MitreTactics) == "MITRE ATT&CK tactics"@,
        mcp::all_resources().contains(r),
        mcp::all_resources().no_duplicates(),
{
    let all = mcp::all_resources();
    assert(all[0] == Resource::LintCatalogue);
    assert(all[1] == Resource::Modifiers);
    assert(all[2] == Resource::MitreTactics);
}

/// The object errors in words.
pub proof fn lemma_object_errors_in_words(expected: &'static str, actual: String)
    ensures
        stix::error_text(ModelError::ExternalReferenceMissingSourceName)
            == "external reference requires a non-empty source_name"@,
        stix::error_text(ModelError::ExternalReferenceMissingDetail)
            == "external reference requires at least one of description, url, or external_id"@,
        stix::error_text(ModelError::GranularMarkingExclusivity)
            == "granular marking must set exactly one of marking_ref or lang"@,
        stix::error_text(ModelError::GranularMarkingEmptySelectors)
            == "granular marking requires at least one selector"@,
        stix::error_text(ModelError::ExtensionDefinitionMissingCreatedByRef)
            == "extension definition requires created_by_ref"@,
        stix::error_text(ModelError::UnexpectedObjectType { expected, actual })
            == "expected STIX type `"@ + expected@ + "`, got `"@ + actual@ + "`"@,
        stix::error_text(ModelError::RelationshipTypeInvalid)
            == "relationship type must contain only lowercase ASCII letters, digits, and hyphens"@,
        stix::error_text(ModelError::RelationshipStopTimeBeforeStartTime)
            == "relationship stop_time must be later than start_time"@,
        stix::error_text(ModelError::SightingCountOutOfRange)
            == "sighting count must be between 0 and 999_999_999 inclusive"@,
        stix::error_text(ModelError::SightingLastSeenBeforeFirstSeen)
            == "sighting last_seen must be greater than or equal to first_seen"@,
        stix::error_text(ModelError::SightingWhereSightedRefInvalid)
            == "where_sighted_refs must reference identity or location objects"@,
{
}

/// An origin in words tells its kind and its place, so that two origins are alike in words
/// if and only if they are alike.
pub proof fn lemma_origins_in_words(a: SourceOriginView, b: SourceOriginView, place: Seq<char>)
    ensures
        registry::origin_text(SourceOriginView::External(place)) == "external:"@ + place,
        registry::origin_text(SourceOriginView::Pipeline(place)) == "pipeline:"@ + place,
        registry::origin_text(a) == registry::origin_text(b) ==> a == b,
{
    reveal_strlit("external:");
    reveal_strlit("pipeline:");
    let s = registry::origin_text(a);
    let t = registry::origin_text(b);
    if s == t {
        assert(s[0] == t[0]);
        assert(s.skip(9) =~= match a {
            SourceOriginView::External(p) => p,
            SourceOriginView::Pipeline(p) => p,
        });
        assert(t.skip(9) =~= match b {
            SourceOriginView::External(p) => p,
            SourceOriginView::Pipeline(p) => p,
        });
    }
}

// ---------------------------------------------------------------------------
// Choices
// ---------------------------------------------------------------------------

/// The input of a tool: the one that is given; both or none is an error.
pub proof fn lemma_chosen_source(
    yaml: Option<String>,
    path: Option<String>,
    res: Result<SourceChoice, String>,
)
    requires
        call_ensures(mcp::choose_source, (yaml, path), res),
    ensures
        res is Ok <==> (yaml is Some) != (path is Some),
        res matches Ok(SourceChoice::Inline(s)) ==> yaml == Some(s),
        res matches Ok(SourceChoice::Path(s)) ==> path == Some(s),
        res matches Err(e) ==> e@ == (if yaml is Some {
            "provide either `yaml` or `path`, not both"@
        } else {
            "one of `yaml` or `path` is required"@
        }),
{
}

/// The template goes to the file given, else to `rsigma.yaml`.
pub proof fn lemma_template_target(output: Option<String>, res: String)
    requires
        call_ensures(config::init_target, (output,), res),
    ensures
        output matches Some(path) ==> res@ == path@,
        output is None ==> res@ == "rsigma.yaml"@,
{
}

/// The template is not written over a file unless by force.
pub proof fn lemma_template_is_not_written_over(
    path: &str,
    present: bool,
    force: bool,
    res: Result<(), String>,
)
    requires
        call_ensures(config::may_write_template, (path, present, force), res),
    ensures
        res is Err <==> present && !force,
        res matches Err(e) ==> e@ == "refusing to overwrite existing "@ + path@
            + " (pass --force to replace it)"@,
{
}

/// The paths are named, in order, or that there are none.
pub proof fn lemma_paths_are_named(paths: Vec<String>, res: Vec<String>)
    requires
        call_ensures(config::path_lines, (paths,), res),
    ensures
        paths@.len() == 0 ==> res@.len() == 1 && res@[0]@ == "none"@,
        paths@.len() > 0 ==> res@.len() == paths@.len() && forall|i: int|
            0 <= i < paths@.len() ==> (#[trigger] res@[i])@ == paths@[i]@,
{
    let got = text::texts(res@);
    assert(got.len() == res@.len());
    if paths@.len() == 0 {
        assert(got[0] == res@[0]@);
    } else {
        assert forall|i: int| 0 <= i < paths@.len() implies (#[trigger] res@[i])@ == paths@[i]@ by {
            assert(got[i] == res@[i]@);
            assert(text::texts(paths@)[i] == paths@[i]@);
        }
    }
}

/// Each resource is found at its address, and nothing elsewhere.
pub proof fn lemma_resource_is_found(uri: &str, res: Result<Resource, String>)
    requires
        call_ensures(mcp::find_resource, (uri,), res),
    ensures
        res == Ok::<Resource, String>(Resource::LintCatalogue) <==> uri@
            == "rsigma://lint/catalogue"@,
        res == Ok::<Resource, String>(Resource::Modifiers) <==> uri@
            == "rsigma://reference/modifiers"@,
        res == Ok::<Resource, String>(Resource::MitreTactics) <==> uri@
            == "rsigma://reference/mitre-tactics"@,
        res matches Err(e) ==> e@ == "unknown resource '"@ + uri@ + "'"@,
{
    assert(mcp::resource_uri(Resource::LintCatalogue) == "rsigma://lint/catalogue"@);
    assert(mcp::resource_uri(Resource::Modifiers) == "rsigma://reference/modifiers"@);
    assert(mcp::resource_uri(Resource::MitreTactics) == "rsigma://reference/mitre-tactics"@);
    if let Ok(r) = res {
        if uri@ == "rsigma://lint/catalogue"@ {
            mcp::lemma_addresses_differ(r, Resource::LintCatalogue);
        }
        if uri@ == "rsigma://reference/modifiers"@ {
            mcp::lemma_addresses_differ(r, Resource::Modifiers);
        }
        if uri@ == "rsigma://reference/mitre-tactics"@ {
            mcp::lemma_addresses_differ(r, Resource::MitreTactics);
        }
    }
}

/// Findings in a text that was given itself are told of `<inline>`.
pub proof fn lemma_inline_findings(findings: Vec<Finding>, res: FileFindings)
    requires
        call_ensures(mcp::inline_findings, (findings,), res),
    ensures
        res.path@ == "<inline>"@,
        res.findings@ == findings@,
{
}

/// A confidence is at most 100, and every number up to there is one.
pub proof fn lemma_confidence(value: u8, res: Result<Confidence, ConfidenceOutOfRange>)
    requires
        call_ensures(Confidence::new, (value,), res),
    ensures
        res is Ok <==> value <= 100,
        res matches Ok(c) ==> c@ == value,
        res matches Err(e) ==> e.value == value,
{
}

/// A conflict of two pipelines in words.
pub proof fn lemma_conflict_in_words(c: SourceConflict, res: String)
    requires
        call_ensures(SourceConflict::message, (&c,), res),
    ensures
        res@ == "Error: source ID '"@ + c.id@ + "' declared in both '"@ + c.first@ + "' and '"@
            + c.second@ + "'. Resolve the conflict before migrating."@,
{
}

/// A collision of two declarations in words.
pub proof fn lemma_collision_in_words(c: SourceCollisionError, res: String)
    requires
        call_ensures(SourceCollisionError::to_text, (&c,), res),
    ensures
        res@ == "source ID '"@ + c.source_id@ + "' declared in both "@ + registry::origin_text(
            c.first@,
        ) + " and "@ + registry::origin_text(c.second@),
{
}

/// What was written, in words.
pub proof fn lemma_written_in_words(count: usize, origin: Option<&str>, target: &str, res: String)
    requires
        call_ensures(migrate::wrote_message, (count, origin, target), res),
    ensures
        origin is None ==> res@ == "Wrote "@ + text::decimal(count as nat) + " source(s) to "@
            + target@,
        origin matches Some(path) ==> res@ == "Wrote "@ + text::decimal(count as nat)
            + " source(s) from "@ + path@ + " to "@ + target@,
{
    reveal_strlit(" source(s)");
    reveal_strlit(" source(s) to ");
    reveal_strlit(" source(s) from ");
    reveal_strlit(" to ");
    reveal_strlit(" from ");
    reveal_strlit("");
    assert(" source(s)"@ + ""@ + " to "@ =~= " source(s) to "@);
    assert(" source(s)"@ + " from "@ =~= " source(s) from "@);
    let head = "Wrote "@ + text::decimal(count as nat);
    match origin {
        None => {
            assert(res@ =~= head + " source(s) to "@ + target@);
        },
        Some(path) => {
            assert(res@ =~= head + " source(s) from "@ + path@ + " to "@ + target@);
        },
    }
}

/// The strategies by name.
pub proof fn lemma_strategies_by_name(name: &str, res: Option<Strategy>)
    requires
        call_ensures(migrate::strategy_from_name, (name,), res),
    ensures
        res is Some <==> name@ == "single"@ || name@ == "per-pipeline"@,
        res matches Some(Strategy::Single) ==> name@ == "single"@,
        res matches Some(Strategy::PerPipeline) ==> name@ == "per-pipeline"@,
{
}

/// The files of a directory that are pipelines: those named `.yml` or `.yaml`, with
/// something in front of that.
pub proof fn lemma_pipeline_files_by_name(name: &str, stem: Seq<char>, res: bool)
    requires
        call_ensures(migrate::is_pipeline_file, (name,), res),
        stem.len() > 0,
    ensures
        name@ == stem + ".yml"@ || name@ == stem + ".yaml"@ ==> res,
        res ==> text::ends(name@, ".yml"@) || text::ends(name@, ".yaml"@),
{
    reveal_strlit(".");
    reveal_strlit("yml");
    reveal_strlit("yaml");
    reveal_strlit(".yml");
    reveal_strlit(".yaml");
    migrate_laws::lemma_stem_and_extension(stem, "yml"@);
    migrate_laws::lemma_stem_and_extension(stem, "yaml"@);
    assert(stem + ".yml"@ =~= stem + "."@ + "yml"@);
    assert(stem + ".yaml"@ =~= stem + "."@ + "yaml"@);
    let dot = text::find_last(name@, '.');
    migrate_laws::lemma_last_place(name@, '.');
    if res {
        let rest = name@.skip(dot + 1);
        assert(name@.skip(dot) =~= "."@ + rest);
        assert("."@ + "yml"@ =~= ".yml"@);
        assert("."@ + "yaml"@ =~= ".yaml"@);
    }
}

} // verus!
