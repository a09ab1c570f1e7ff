//! The answers of the MCP tools.

use crate::json::Json;
use crate::json::JsonView;
use crate::json;
use crate::text;
use vstd::prelude::*;

verus! {

// ---------------------------------------------------------------------------
// Input
// ---------------------------------------------------------------------------

/// What a tool works on.
#[derive(Debug)]
pub enum SourceChoice {
    /// Inline text.
    Inline(String),
    /// A file or a directory.
    Path(String),
}

/// Choose the input of a tool: inline `yaml` or a `path`, and one of them only.
pub fn choose_source(yaml: Option<String>, path: Option<String>) -> (res: Result<
    SourceChoice,
    String,
>)
    ensures
        match (yaml, path) {
            (Some(_), Some(_)) => res matches Err(e) && e@
                == "provide either `yaml` or `path`, not both"@,
            (None, None) => res matches Err(e) && e@ == "one of `yaml` or `path` is required"@,
            (Some(y), None) => res == Ok::<SourceChoice, String>(SourceChoice::Inline(y)),
            (None, Some(p)) => res == Ok::<SourceChoice, String>(SourceChoice::Path(p)),
        },
{
    match (yaml, path) {
        (Some(_), Some(_)) => Err("provide either `yaml` or `path`, not both".to_owned()),
        (None, None) => Err("one of `yaml` or `path` is required".to_owned()),
        (Some(y), None) => Ok(SourceChoice::Inline(y)),
        (None, Some(p)) => Ok(SourceChoice::Path(p)),
    }
}

// ---------------------------------------------------------------------------
// Lint findings
// ---------------------------------------------------------------------------

/// How grave a finding is.
#[derive(Clone, Copy, PartialEq, Eq, Structural, Debug)]
pub enum Severity {
    Error,
    Warning,
    Info,
    Hint,
}

/// A finding: how grave it is, and the object that describes it.
#[derive(Debug)]
pub struct Finding {
    pub severity: Severity,
    pub details: Json,
}

/// The findings in one file.
#[derive(Debug)]
pub struct FileFindings {
    pub path: String,
    pub findings: Vec<Finding>,
}

/// The findings in a text that was given itself, not by the path of a file.
pub fn inline_findings(findings: Vec<Finding>) -> (res: FileFindings)
    ensures
        res.path@ == "<inline>"@,
        res.findings == findings,
{
    FileFindings { path: "<inline>".to_owned(), findings }
}

/// How many findings of that severity there are.
pub open spec fn severity_count(findings: Seq<Finding>, severity: Severity) -> nat
    decreases findings.len(),
{
    if findings.len() == 0 {
        0
    } else {
        severity_count(findings.drop_last(), severity) + (if findings.last().severity == severity {
            1nat
        } else {
            0nat
        })
    }
}

/// How many findings of that severity there are in all the files.
pub open spec fn total_count(files: Seq<FileFindings>, severity: Severity) -> nat
    decreases files.len(),
{
    if files.len() == 0 {
        0
    } else {
        total_count(files.drop_last(), severity) + severity_count(
            files.last().findings@,
            severity,
        )
    }
}

/// The findings of one file as they are reported.
pub open spec fn file_object(file: FileFindings) -> JsonView {
    JsonView::Object(
        seq![
            ("path"@, JsonView::Text(file.path@)),
            (
                "findings"@,
                JsonView::List(file.findings@.map_values(|f: Finding| f.details@)),
            ),
        ],
    )
}

/// The report of a lint run.
pub open spec fn lint_object(files: Seq<FileFindings>) -> JsonView {
    JsonView::Object(
        seq![
            ("ok"@, JsonView::Bool(total_count(files, Severity::Error) == 0)),
            (
                "summary"@,
                JsonView::Object(
                    seq![
                        ("files"@, JsonView::Int(files.len() as int)),
                        ("errors"@, JsonView::Int(total_count(files, Severity::Error) as int)),
                        ("warnings"@, JsonView::Int(total_count(files, Severity::Warning) as int)),
                        ("infos"@, JsonView::Int(total_count(files, Severity::Info) as int)),
                        ("hints"@, JsonView::Int(total_count(files, Severity::Hint) as int)),
                    ],
                ),
            ),
            ("files"@, JsonView::List(files.map_values(|f: FileFindings| file_object(f)))),
        ],
    )
}

/// How many findings of a severity there are in all the files.
fn count_findings(files: &Vec<FileFindings>, severity: Severity) -> (res: u128)
    ensures
        res == total_count(files@, severity),
{
    let mut n: u128 = 0;
    let mut i: usize = 0;
    assert(files@.take(0) =~= Seq::empty());
    while i < files.len()
        invariant
            0 <= i <= files@.len(),
            n == total_count(files@.take(i as int), severity),
            n <= i * 0x1_0000_0000_0000_0000,
        decreases files@.len() - i,
    {
        assert(files@.take(i + 1).drop_last() =~= files@.take(i as int));
        let mine: &Vec<Finding> = &files[i].findings;
        let ghost before = n;
        let mut k: usize = 0;
        assert(mine@.take(0) =~= Seq::empty());
        while k < mine.len()
            invariant
                i < 0x1_0000_0000_0000_0000,
                0 <= k <= mine@.len(),
                before <= i * 0x1_0000_0000_0000_0000,
                n == before + severity_count(mine@.take(k as int), severity),
                n <= before + k,
            decreases mine@.len() - k,
        {
            assert(mine@.take(k + 1).drop_last() =~= mine@.take(k as int));
            if mine[k].severity == severity {
                n = n + 1;
            }
            k = k + 1;
        }
        assert(mine@.take(k as int) =~= mine@);
        i = i + 1;
    }
    assert(files@.take(i as int) =~= files@);
    n
}

/// The findings of one file as they are reported.
fn file_value(file: FileFindings) -> (res: Json)
    ensures
        res@ == file_object(file),
{
    let ghost all = file.findings@.map_values(|f: Finding| f.details@);
    let mut rest: Vec<Finding> = file.findings;
    let mut items: Vec<Json> = Vec::new();
    let ghost mut k: int = 0;
    assert(json::json_views(items@) =~= all.take(0));
    while rest.len() > 0
        invariant
            0 <= k <= file.findings@.len(),
            k + rest@.len() == file.findings@.len(),
            rest@ == file.findings@.skip(k),
            all == file.findings@.map_values(|f: Finding| f.details@),
            json::json_views(items@) == all.take(k),
        decreases rest@.len(),
    {
        assert(rest@[0] == file.findings@[k]);
        let finding: Finding = rest.remove(0);
        assert(rest@ =~= file.findings@.skip(k + 1));
        json::push_item(&mut items, finding.details);
        proof {
            assert(all.take(k + 1) =~= all.take(k).push(all[k]));
            k = k + 1;
        }
    }
    assert(all.take(k) =~= all);
    let mut members: Vec<(String, Json)> = Vec::new();
    json::push_member(&mut members, "path", Json::Text(file.path));
    json::push_member(&mut members, "findings", Json::List(items));
    assert(json::member_views(members@) =~= file_object(file)->Object_0);
    Json::Object(members)
}

/// Report the findings of a lint run: whether there is no error, how many findings of
/// each severity there are, and the findings file by file.
pub fn lint_report(files: Vec<FileFindings>) -> (res: Json)
    ensures
        res@ == lint_object(files@),
{
    let errors: u128 = count_findings(&files, Severity::Error);
    let mut summary: Vec<(String, Json)> = Vec::new();
    json::push_member(&mut summary, "files", json::count_value(files.len()));
    json::push_member(&mut summary, "errors", Json::Count(errors));
    json::push_member(
        &mut summary,
        "warnings",
        Json::Count(count_findings(&files, Severity::Warning)),
    );
    json::push_member(
        &mut summary,
        "infos",
        Json::Count(count_findings(&files, Severity::Info)),
    );
    json::push_member(
        &mut summary,
        "hints",
        Json::Count(count_findings(&files, Severity::Hint)),
    );
    let ghost expected = lint_object(files@)->Object_0;
    assert(json::member_views(summary@) =~= expected[1].1->Object_0);
    let ghost all = files@.map_values(|f: FileFindings| file_object(f));
    let mut rest: Vec<FileFindings> = files;
    let mut items: Vec<Json> = Vec::new();
    let ghost mut k: int = 0;
    assert(json::json_views(items@) =~= all.take(0));
    while rest.len() > 0
        invariant
            0 <= k <= files@.len(),
            k + rest@.len() == files@.len(),
            rest@ == files@.skip(k),
            all == files@.map_values(|f: FileFindings| file_object(f)),
            json::json_views(items@) == all.take(k),
        decreases rest@.len(),
    {
        assert(rest@[0] == files@[k]);
        let file: FileFindings = rest.remove(0);
        assert(rest@ =~= files@.skip(k + 1));
        json::push_item(&mut items, file_value(file));
        proof {
            assert(all.take(k + 1) =~= all.take(k).push(all[k]));
            k = k + 1;
        }
    }
    assert(all.take(k) =~= all);
    let mut members: Vec<(String, Json)> = Vec::new();
    json::push_member(&mut members, "ok", Json::Bool(errors == 0));
    json::push_member(&mut members, "summary", Json::Object(summary));
    json::push_member(&mut members, "files", Json::List(items));
    assert(json::member_views(members@) =~= expected);
    Json::Object(members)
}

/// Every finding is counted under one severity.
pub proof fn lemma_counts_add_up(findings: Seq<Finding>)
    ensures
        severity_count(findings, Severity::Error) + severity_count(findings, Severity::Warning)
            + severity_count(findings, Severity::Info) + severity_count(findings, Severity::Hint)
            == findings.len(),
    decreases findings.len(),
{
    if findings.len() > 0 {
        lemma_counts_add_up(findings.drop_last());
    }
}

/// A lint run is in order if and only if no finding of any file is an error.
pub proof fn lemma_ok_means_no_error(files: Seq<FileFindings>)
    ensures
        total_count(files, Severity::Error) == 0 <==> forall|i: int, k: int|
            0 <= i < files.len() && 0 <= k < files[i].findings@.len() ==> (
            #[trigger] files[i].findings@[k]).severity != Severity::Error,
    decreases files.len(),
{
    if files.len() > 0 {
        let front = files.drop_last();
        lemma_ok_means_no_error(front);
        lemma_no_error(files.last().findings@);
        if total_count(files, Severity::Error) == 0 {
            assert forall|i: int, k: int|
                0 <= i < files.len() && 0 <= k < files[i].findings@.len() implies (
            #[trigger] files[i].findings@[k]).severity != Severity::Error by {
                if i < front.len() {
                    assert(front[i] == files[i]);
                    assert(front[i].findings@[k].severity != Severity::Error);
                }
            }
        }
        if forall|i: int, k: int|
            0 <= i < files.len() && 0 <= k < files[i].findings@.len() ==> (
            #[trigger] files[i].findings@[k]).severity != Severity::Error {
            assert forall|i: int, k: int|
                0 <= i < front.len() && 0 <= k < front[i].findings@.len() implies (
            #[trigger] front[i].findings@[k]).severity != Severity::Error by {
                assert(files[i].findings@[k].severity != Severity::Error);
            }
            assert(files.last() == files[files.len() - 1]);
        }
    }
}

proof fn lemma_no_error(findings: Seq<Finding>)
    ensures
        severity_count(findings, Severity::Error) == 0 <==> forall|k: int|
            0 <= k < findings.len() ==> (#[trigger] findings[k]).severity != Severity::Error,
    decreases findings.len(),
{
    if findings.len() > 0 {
        let front = findings.drop_last();
        lemma_no_error(front);
        if severity_count(findings, Severity::Error) == 0 {
            assert forall|k: int| 0 <= k < findings.len() implies (
            #[trigger] findings[k]).severity != Severity::Error by {
                if k < front.len() {
                    assert(front[k] == findings[k]);
                }
            }
        }
        if forall|k: int|
            0 <= k < findings.len() ==> (#[trigger] findings[k]).severity != Severity::Error {
            assert forall|k: int| 0 <= k < front.len() implies (#[trigger] front[k]).severity
                != Severity::Error by {
                assert(front[k] == findings[k]);
            }
            assert(findings.last() == findings[findings.len() - 1]);
        }
    }
}

// ---------------------------------------------------------------------------
// Parsed rules
// ---------------------------------------------------------------------------

/// What the parse of a source gave: the counts of its parts, the errors that were
/// noted, and the object that describes it.
#[derive(Debug)]
pub struct ParsedSource {
    pub rules: usize,
    pub correlations: usize,
    pub filters: usize,
    pub errors: Vec<String>,
    pub collection: Json,
}

/// The report of a parse. A parse that notes errors is not in order, though it gives
/// a collection.
pub open spec fn parse_object(parsed: Result<ParsedSource, String>) -> JsonView {
    match parsed {
        Ok(p) => JsonView::Object(
            seq![
                ("ok"@, JsonView::Bool(p.errors@.len() == 0)),
                ("rule_count"@, JsonView::Int(p.rules as int)),
                ("correlation_count"@, JsonView::Int(p.correlations as int)),
                ("filter_count"@, JsonView::Int(p.filters as int)),
                ("parse_errors"@, json::text_list(text::texts(p.errors@))),
                ("collection"@, p.collection@),
            ],
        ),
        Err(e) => JsonView::Object(
            seq![("ok"@, JsonView::Bool(false)), ("error"@, JsonView::Text(e@))],
        ),
    }
}

/// Report a parse.
pub fn parse_report(parsed: Result<ParsedSource, String>) -> (res: Json)
    ensures
        res@ == parse_object(parsed),
{
    let ghost expected = parse_object(parsed)->Object_0;
    let mut members: Vec<(String, Json)> = Vec::new();
    match parsed {
        Ok(p) => {
            json::push_member(&mut members, "ok", Json::Bool(p.errors.len() == 0));
            json::push_member(&mut members, "rule_count", json::count_value(p.rules));
            json::push_member(&mut members, "correlation_count", json::count_value(p.correlations));
            json::push_member(&mut members, "filter_count", json::count_value(p.filters));
            json::push_member(&mut members, "parse_errors", json::text_list_value(&p.errors));
            json::push_member(&mut members, "collection", p.collection);
        },
        Err(e) => {
            json::push_member(&mut members, "ok", Json::Bool(false));
            json::push_member(&mut members, "error", Json::Text(e));
        },
    }
    assert(json::member_views(members@) =~= expected);
    Json::Object(members)
}

// ---------------------------------------------------------------------------
// Resources
// ---------------------------------------------------------------------------

/// What a resource holds.
#[derive(Clone, Copy, PartialEq, Eq, Structural, Debug)]
pub enum Resource {
    LintCatalogue,
    Modifiers,
    MitreTactics,
}

/// The address of a resource.
pub open spec fn resource_uri(resource: Resource) -> Seq<char> {
    match resource {
        Resource::LintCatalogue => "rsigma://lint/catalogue"@,
        Resource::Modifiers => "rsigma://reference/modifiers"@,
        Resource::MitreTactics => "rsigma://reference/mitre-tactics"@,
    }
}

/// The title of a resource.
pub open spec fn resource_title(resource: Resource) -> Seq<char> {
    match resource {
        Resource::LintCatalogue => "Lint rule catalogue"@,
        Resource::Modifiers => "Sigma field modifiers"@,
        Resource::MitreTactics => "MITRE ATT&CK tactics"@,
    }
}

impl Resource {
    /// The address of the resource.
    pub fn uri(self) -> (res: &'static str)
        ensures
            res@ == resource_uri(self),
    {
        match self {
            Resource::LintCatalogue => "rsigma://lint/catalogue",
            Resource::Modifiers => "rsigma://reference/modifiers",
            Resource::MitreTactics => "rsigma://reference/mitre-tactics",
        }
    }

    /// The title of the resource.
    pub fn title(self) -> (res: &'static str)
        ensures
            res@ == resource_title(self),
    {
        match self {
            Resource::LintCatalogue => "Lint rule catalogue",
            Resource::Modifiers => "Sigma field modifiers",
            Resource::MitreTactics => "MITRE ATT&CK tactics",
        }
    }
}

/// All the resources.
pub open spec fn all_resources() -> Seq<Resource> {
    seq![Resource::LintCatalogue, Resource::Modifiers, Resource::MitreTactics]
}

/// List the resources.
pub fn list_resources() -> (res: Vec<Resource>)
    ensures
        res@ == all_resources(),
{
    let mut out: Vec<Resource> = Vec::new();
    out.push(Resource::LintCatalogue);
    out.push(Resource::Modifiers);
    out.push(Resource::MitreTactics);
    assert(out@ =~= all_resources());
    out
}

/// Find the resource at an address.
pub fn find_resource(uri: &str) -> (res: Result<Resource, String>)
    ensures
        match res {
            Ok(resource) => uri@ == resource_uri(resource),
            Err(e) => (forall|r: Resource| uri@ != #[trigger] resource_uri(r)) && e@
                == "unknown resource '"@ + uri@ + "'"@,
        },
{
    if text::same_text(uri, "rsigma://lint/catalogue") {
        return Ok(Resource::LintCatalogue);
    }
    if text::same_text(uri, "rsigma://reference/modifiers") {
        return Ok(Resource::Modifiers);
    }
    if text::same_text(uri, "rsigma://reference/mitre-tactics") {
        return Ok(Resource::MitreTactics);
    }
    let mut message: String = "unknown resource '".to_owned();
    message.append(uri);
    message.append("'");
    Err(message)
}

/// Different resources have different addresses, so that each of them is found at
/// its own.
pub proof fn lemma_addresses_differ(a: Resource, b: Resource)
    requires
        resource_uri(a) == resource_uri(b),
    ensures
        a == b,
{
    reveal_strlit("rsigma://lint/catalogue");
    reveal_strlit("rsigma://reference/modifiers");
    reveal_strlit("rsigma://reference/mitre-tactics");
    assert("rsigma://lint/catalogue"@.len() == 23);
    assert("rsigma://reference/modifiers"@.len() == 28);
    assert("rsigma://reference/mitre-tactics"@.len() == 32);
}

/// A table of names and descriptions as a list of objects.
pub open spec fn pairs_object(pairs: Seq<(String, String)>) -> JsonView {
    JsonView::List(
        pairs.map_values(
            |p: (String, String)|
                JsonView::Object(
                    seq![
                        ("name"@, JsonView::Text(p.0@)),
                        ("description"@, JsonView::Text(p.1@)),
                    ],
                ),
        ),
    )
}

/// Render a table of names and descriptions.
pub fn reference_pairs_json(pairs: &Vec<(String, String)>) -> (res: Json)
    ensures
        res@ == pairs_object(pairs@),
{
    let ghost all = pairs_object(pairs@)->List_0;
    let mut items: Vec<Json> = Vec::new();
    let mut i: usize = 0;
    assert(json::json_views(items@) =~= all.take(0));
    while i < pairs.len()
        invariant
            0 <= i <= pairs@.len(),
            all == pairs_object(pairs@)->List_0,
            json::json_views(items@) == all.take(i as int),
        decreases pairs@.len() - i,
    {
        let mut members: Vec<(String, Json)> = Vec::new();
        json::push_member(&mut members, "name", json::text_value(pairs[i].0.as_str()));
        json::push_member(&mut members, "description", json::text_value(pairs[i].1.as_str()));
        assert(json::member_views(members@) =~= all[i as int]->Object_0);
        json::push_item(&mut items, Json::Object(members));
        assert(all.take(i + 1) =~= all.take(i as int).push(all[i as int]));
        i = i + 1;
    }
    assert(all.take(i as int) =~= all);
    Json::List(items)
}

} // verus!
