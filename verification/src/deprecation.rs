//! The warning on pipelines that declare sources inline, once for each pipeline
//! file.

use crate::text;
use vstd::prelude::*;

verus! {

/// The pipeline files that were warned of, each by its canonical path.
#[derive(Debug)]
pub struct SeenPaths {
    paths: Vec<String>,
}

impl View for SeenPaths {
    type V = Set<Seq<char>>;

    closed spec fn view(&self) -> Set<Seq<char>> {
        text::texts(self.paths@).to_set()
    }
}

impl SeenPaths {
    #[verifier::type_invariant]
    spec fn valid(&self) -> bool {
        text::texts(self.paths@).no_duplicates()
    }

    /// No file was warned of.
    pub fn new() -> (res: SeenPaths)
        ensures
            res@ == Set::<Seq<char>>::empty(),
    {
        let res: SeenPaths = SeenPaths { paths: Vec::new() };
        assert(res@ =~= Set::empty());
        res
    }

    /// Whether the file was warned of.
    pub fn contains(&self, path: &str) -> (res: bool)
        ensures
            res == self@.contains(path@),
    {
        let ghost all = text::texts(self.paths@);
        let mut i: usize = 0;
        while i < self.paths.len()
            invariant
                0 <= i <= self.paths@.len(),
                all == text::texts(self.paths@),
                forall|k: int| 0 <= k < i ==> #[trigger] all[k] != path@,
            decreases self.paths@.len() - i,
        {
            assert(all[i as int] == self.paths@[i as int]@);
            if text::same_text(self.paths[i].as_str(), path) {
                assert(all.contains(path@));
                return true;
            }
            i = i + 1;
        }
        false
    }
}

/// The path by which a file is known: its canonical one, or, if it has none, the one
/// given.
pub open spec fn known_path(canonical: Option<&str>, path: Seq<char>) -> Seq<char> {
    match canonical {
        Some(c) => c@,
        None => path,
    }
}

/// Note a file; tell whether it was not noted before, and so is to be warned of.
pub fn mark_inline_source_seen(seen: &mut SeenPaths, canonical: Option<&str>, path: &str) -> (res:
    bool)
    ensures
        res == !old(seen)@.contains(known_path(canonical, path@)),
        final(seen)@ == old(seen)@.insert(known_path(canonical, path@)),
{
    let key: &str = match canonical {
        Some(c) => c,
        None => path,
    };
    let ghost before = text::texts(seen.paths@);
    let ghost set_before = seen@;
    proof {
        use_type_invariant(&*seen);
    }
    if seen.contains(key) {
        assert(set_before.insert(key@) =~= set_before);
        return false;
    }
    let mut paths: Vec<String> = Vec::new();
    std::mem::swap(&mut paths, &mut seen.paths);
    paths.push(key.to_owned());
    let ghost after = text::texts(paths@);
    proof {
        assert(after =~= before.push(key@));
        assert(!before.contains(key@));
        assert(after.to_set() =~= set_before.insert(key@)) by {
            assert forall|x: Seq<char>| after.to_set().contains(x) <==> set_before.insert(
                key@,
            ).contains(x) by {
                if before.contains(x) {
                    assert(after[before.index_of(x)] == x);
                }
                assert(after[before.len() as int] == key@);
                if after.contains(x) {
                    let i = after.index_of(x);
                    if i < before.len() {
                        assert(before[i] == x);
                    }
                }
            }
        }
        assert(after.no_duplicates());
    }
    seen.paths = paths;
    true
}

/// The warning: a message for the log and a notice for the operator.
#[derive(Debug)]
pub struct DeprecationWarning {
    pub log: String,
    pub notice: String,
}

/// The message for the log.
pub open spec fn log_text() -> Seq<char> {
    "pipeline declares inline 'sources:' block, which is deprecated; use '--source <file>' instead. Run 'rsigma rule migrate-sources' to extract sources into a standalone file. Pipeline-embedded sources will be removed in v1.0."@
}

/// The notice for the operator.
pub open spec fn notice_text(path: Seq<char>, pipeline_name: Seq<char>) -> Seq<char> {
    "warning: pipeline '"@ + pipeline_name + "' ("@ + path
        + ") declares an inline 'sources:' block, which is deprecated and will be removed in v1.0. Migrate with `rsigma rule migrate-sources -p "@
        + path
        + " -o sources.yml` and load via `--source sources.yml` on `rsigma engine daemon`."@
}

/// The warning for a pipeline file that declares sources inline, unless the file was
/// warned of before.
pub fn warn_pipeline_inline_sources(
    seen: &mut SeenPaths,
    canonical: Option<&str>,
    path: &str,
    pipeline_name: &str,
) -> (res: Option<DeprecationWarning>)
    ensures
        match res {
            Some(w) => !old(seen)@.contains(known_path(canonical, path@)) && w.log@ == log_text()
                && w.notice@ == notice_text(path@, pipeline_name@),
            None => old(seen)@.contains(known_path(canonical, path@)),
        },
        final(seen)@ == old(seen)@.insert(known_path(canonical, path@)),
{
    if !mark_inline_source_seen(seen, canonical, path) {
        return None;
    }
    let mut notice: String = "warning: pipeline '".to_owned();
    notice.append(pipeline_name);
    notice.append("' (");
    notice.append(path);
    notice.append(
        ") declares an inline 'sources:' block, which is deprecated and will be removed in v1.0. Migrate with `rsigma rule migrate-sources -p ",
    );
    notice.append(path);
    notice.append(
        " -o sources.yml` and load via `--source sources.yml` on `rsigma engine daemon`.",
    );
    Some(
        DeprecationWarning {
            log: "pipeline declares inline 'sources:' block, which is deprecated; use '--source <file>' instead. Run 'rsigma rule migrate-sources' to extract sources into a standalone file. Pipeline-embedded sources will be removed in v1.0.".to_owned(),
            notice,
        },
    )
}

/// Forget all the files, so that each is warned of again.
pub fn reset_inline_sources_dedup_for_tests(seen: &mut SeenPaths)
    ensures
        final(seen)@ == Set::<Seq<char>>::empty(),
{
    seen.paths = Vec::new();
    assert(text::texts(seen.paths@).to_set() =~= Set::empty());
}

/// The files that were warned of, each once.
pub fn tests_only_snapshot(seen: &SeenPaths) -> (res: Vec<String>)
    ensures
        text::texts(res@).to_set() == seen@,
        text::texts(res@).no_duplicates(),
{
    proof {
        use_type_invariant(seen);
    }
    let ghost all = text::texts(seen.paths@);
    let mut out: Vec<String> = Vec::new();
    let mut i: usize = 0;
    assert(text::texts(out@) =~= all.take(0));
    while i < seen.paths.len()
        invariant
            0 <= i <= seen.paths@.len(),
            all == text::texts(seen.paths@),
            text::texts(out@) == all.take(i as int),
        decreases seen.paths@.len() - i,
    {
        let ghost before = text::texts(out@);
        out.push(seen.paths[i].clone());
        assert(text::texts(out@) =~= before.push(all[i as int]));
        assert(all.take(i + 1) =~= all.take(i as int).push(all[i as int]));
        i = i + 1;
    }
    assert(all.take(i as int) =~= all);
    out
}

/// A file is warned of once: after it was noted it is known, by whatever spelling
/// leads to its canonical path, and no other file is known for it.
pub proof fn lemma_warned_once(
    seen: Set<Seq<char>>,
    canonical: Option<&str>,
    path: Seq<char>,
    other: Seq<char>,
)
    ensures
        ({
            let after = seen.insert(known_path(canonical, path));
            &&& after.contains(known_path(canonical, path))
            &&& canonical is Some ==> after.contains(known_path(canonical, other))
            &&& other != known_path(canonical, path) ==> after.contains(other) == seen.contains(
                other,
            )
        }),
{
}

} // verus!
