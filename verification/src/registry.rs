//! The sources of a daemon: those of standalone files and those that pipelines
//! declare, each ID once.

use crate::text;
use crate::yaml::YamlValue;
use vstd::hash_set::StringHashSet;
use vstd::prelude::*;

verus! {

// ---------------------------------------------------------------------------
// Sources
// ---------------------------------------------------------------------------

/// How the data of a source is encoded.
#[derive(Clone, Copy, PartialEq, Eq, Structural, Debug)]
pub enum DataFormat {
    Json,
    Yaml,
    Lines,
    Csv,
}

/// Where the data of a source comes from.
#[derive(Debug)]
pub enum SourceType {
    File { path: String, format: DataFormat, extract: Option<String> },
    Http { url: String, format: DataFormat, extract: Option<String> },
}

/// The text, if there is one.
fn copy_text(text: &Option<String>) -> (res: Option<String>)
    ensures
        res == *text,
{
    match text {
        Some(s) => Some(s.clone()),
        None => None,
    }
}

impl Clone for SourceType {
    fn clone(&self) -> (res: SourceType)
        ensures
            res == *self,
    {
        match self {
            SourceType::File { path, format, extract } => SourceType::File {
                path: path.clone(),
                format: *format,
                extract: copy_text(extract),
            },
            SourceType::Http { url, format, extract } => SourceType::Http {
                url: url.clone(),
                format: *format,
                extract: copy_text(extract),
            },
        }
    }
}

/// When a source is read again.
#[derive(Clone, Copy, PartialEq, Eq, Structural, Debug)]
pub enum RefreshPolicy {
    Once,
    /// Every so many seconds.
    Interval(u64),
}

/// What happens when a source cannot be read.
#[derive(Clone, Copy, PartialEq, Eq, Structural, Debug)]
pub enum ErrorPolicy {
    UseCached,
    UseDefault,
    Fail,
}

/// A source of values for pipelines.
#[derive(Debug)]
pub struct DynamicSource {
    pub id: String,
    pub source_type: SourceType,
    pub refresh: RefreshPolicy,
    /// In milliseconds.
    pub timeout: Option<u64>,
    pub on_error: ErrorPolicy,
    pub required: bool,
    pub default: Option<YamlValue>,
}

/// The sources hold the same.
pub open spec fn same_source(a: DynamicSource, b: DynamicSource) -> bool {
    &&& a.id == b.id
    &&& a.source_type == b.source_type
    &&& a.refresh == b.refresh
    &&& a.timeout == b.timeout
    &&& a.on_error == b.on_error
    &&& a.required == b.required
    &&& match (a.default, b.default) {
        (Some(x), Some(y)) => x@ == y@,
        (None, None) => true,
        _ => false,
    }
}

impl Clone for DynamicSource {
    fn clone(&self) -> (res: DynamicSource)
        ensures
            same_source(res, *self),
    {
        DynamicSource {
            id: self.id.clone(),
            source_type: self.source_type.clone(),
            refresh: self.refresh,
            timeout: self.timeout,
            on_error: self.on_error,
            required: self.required,
            default: match &self.default {
                Some(v) => Some(v.duplicate()),
                None => None,
            },
        }
    }
}

/// Where a source is declared.
#[derive(PartialEq, Eq, Debug)]
pub enum SourceOrigin {
    /// In a standalone file of sources.
    External(String),
    /// In the block of sources of a pipeline.
    Pipeline(String),
}

/// What an origin is.
pub enum SourceOriginView {
    External(Seq<char>),
    Pipeline(Seq<char>),
}

impl View for SourceOrigin {
    type V = SourceOriginView;

    open spec fn view(&self) -> SourceOriginView {
        match self {
            SourceOrigin::External(path) => SourceOriginView::External(path@),
            SourceOrigin::Pipeline(name) => SourceOriginView::Pipeline(name@),
        }
    }
}

/// An origin in words.
pub open spec fn origin_text(origin: SourceOriginView) -> Seq<char> {
    match origin {
        SourceOriginView::External(path) => "external:"@ + path,
        SourceOriginView::Pipeline(name) => "pipeline:"@ + name,
    }
}

impl SourceOrigin {
    /// The origin in words.
    pub fn to_text(&self) -> (res: String)
        ensures
            res@ == origin_text(self@),
    {
        let mut out: String = match self {
            SourceOrigin::External(_) => "external:".to_owned(),
            SourceOrigin::Pipeline(_) => "pipeline:".to_owned(),
        };
        match self {
            SourceOrigin::External(path) => out.append(path.as_str()),
            SourceOrigin::Pipeline(name) => out.append(name.as_str()),
        }
        out
    }
}

impl Clone for SourceOrigin {
    fn clone(&self) -> (res: SourceOrigin)
        ensures
            res == *self,
    {
        match self {
            SourceOrigin::External(path) => SourceOrigin::External(path.clone()),
            SourceOrigin::Pipeline(name) => SourceOrigin::Pipeline(name.clone()),
        }
    }
}

/// A source and where it is declared.
#[derive(Debug)]
pub struct RegistryEntry {
    pub source: DynamicSource,
    pub origin: SourceOrigin,
}

/// The entries hold the same.
pub open spec fn same_entry(a: RegistryEntry, b: RegistryEntry) -> bool {
    same_source(a.source, b.source) && a.origin == b.origin
}

impl Clone for RegistryEntry {
    fn clone(&self) -> (res: RegistryEntry)
        ensures
            same_entry(res, *self),
    {
        RegistryEntry { source: self.source.clone(), origin: self.origin.clone() }
    }
}

/// Two declarations of one source ID.
#[derive(Debug)]
pub struct SourceCollisionError {
    pub source_id: String,
    pub first: SourceOrigin,
    pub second: SourceOrigin,
}

impl Clone for SourceCollisionError {
    fn clone(&self) -> (res: SourceCollisionError)
        ensures
            res == *self,
    {
        SourceCollisionError {
            source_id: self.source_id.clone(),
            first: self.first.clone(),
            second: self.second.clone(),
        }
    }
}

impl SourceCollisionError {
    /// The collision in words.
    pub fn to_text(&self) -> (res: String)
        ensures
            res@ == "source ID '"@ + self.source_id@ + "' declared in both "@ + origin_text(
                self.first@,
            ) + " and "@ + origin_text(self.second@),
    {
        let mut out: String = "source ID '".to_owned();
        out.append(self.source_id.as_str());
        out.append("' declared in both ");
        out.append(self.first.to_text().as_str());
        out.append(" and ");
        out.append(self.second.to_text().as_str());
        out
    }
}

// ---------------------------------------------------------------------------
// The registry
// ---------------------------------------------------------------------------

/// All the declarations: those of external files, then those of pipelines.
pub open spec fn declared(
    external: Seq<(DynamicSource, String)>,
    pipeline_sources: Seq<(DynamicSource, String)>,
) -> Seq<RegistryEntry> {
    external.map_values(
        |d: (DynamicSource, String)|
            RegistryEntry { source: d.0, origin: SourceOrigin::External(d.1) },
    ) + pipeline_sources.map_values(
        |d: (DynamicSource, String)|
            RegistryEntry { source: d.0, origin: SourceOrigin::Pipeline(d.1) },
    )
}

/// The declarations at `i` and `j` collide.
pub open spec fn collide(entries: Seq<RegistryEntry>, i: int, j: int) -> bool {
    0 <= i < j < entries.len() && entries[i].source.id@ == entries[j].source.id@
}

/// No two declarations have one ID.
pub open spec fn no_collision(entries: Seq<RegistryEntry>) -> bool {
    forall|i: int, j: int| !collide(entries, i, j)
}

/// The IDs of the declarations.
pub open spec fn entry_ids(entries: Seq<RegistryEntry>) -> Set<Seq<char>> {
    Set::new(
        |id: Seq<char>|
            exists|i: int| 0 <= i < entries.len() && (#[trigger] entries[i]).source.id@ == id,
    )
}

/// All the sources of a daemon.
pub struct DaemonSourceRegistry {
    entries: Vec<RegistryEntry>,
    ids: StringHashSet,
}

impl View for DaemonSourceRegistry {
    type V = Seq<RegistryEntry>;

    closed spec fn view(&self) -> Seq<RegistryEntry> {
        self.entries@
    }
}

impl DaemonSourceRegistry {
    #[verifier::type_invariant]
    spec fn valid(&self) -> bool {
        no_collision(self.entries@) && self.ids@ == entry_ids(self.entries@)
    }

    /// Build a registry of external sources and of sources that pipelines declare.
    /// The first declaration of an ID that was declared before is an error.
    pub fn new(
        external: Vec<(DynamicSource, String)>,
        pipeline_sources: Vec<(DynamicSource, String)>,
    ) -> (res: Result<DaemonSourceRegistry, SourceCollisionError>)
        ensures
            match res {
                Ok(registry) => registry@ == declared(external@, pipeline_sources@) && no_collision(
                    registry@,
                ),
                Err(e) => exists|i: int, j: int| #[trigger]
                    collide(declared(external@, pipeline_sources@), i, j) && no_collision(
                        declared(external@, pipeline_sources@).take(j),
                    ) && e.source_id@ == declared(external@, pipeline_sources@)[j].source.id@
                        && e.first@ == declared(external@, pipeline_sources@)[i].origin@
                        && e.second@ == declared(external@, pipeline_sources@)[j].origin@,
            },
    {
        let ghost all = declared(external@, pipeline_sources@);
        let mut rest: Vec<(DynamicSource, String)> = external;
        let mut entries: Vec<RegistryEntry> = Vec::new();
        let mut ids: StringHashSet = StringHashSet::new();
        assert(ids@ =~= entry_ids(entries@));
        while rest.len() > 0
            invariant
                all == declared(external@, pipeline_sources@),
                entries@.len() + rest@.len() == external@.len(),
                rest@ == external@.skip(entries@.len() as int),
                entries@ == all.take(entries@.len() as int),
                no_collision(entries@),
                ids@ == entry_ids(entries@),
            decreases rest@.len(),
        {
            let ghost n = entries@.len() as int;
            assert(rest@[0] == external@[n]);
            let (source, path) = rest.remove(0);
            assert(rest@ =~= external@.skip(n + 1));
            let entry: RegistryEntry = RegistryEntry {
                source,
                origin: SourceOrigin::External(path),
            };
            assert(all[n] == entry);
            match register(&mut entries, &mut ids, entry) {
                Ok(()) => {
                    assert(entries@ =~= all.take(n + 1));
                },
                Err(e) => {
                    proof {
                        lemma_collision_found(all, n, e);
                    }
                    return Err(e);
                },
            }
        }
        let mut rest: Vec<(DynamicSource, String)> = pipeline_sources;
        let ghost base = external@.len() as int;
        while rest.len() > 0
            invariant
                all == declared(external@, pipeline_sources@),
                base == external@.len(),
                entries@.len() >= base,
                entries@.len() - base + rest@.len() == pipeline_sources@.len(),
                rest@ == pipeline_sources@.skip(entries@.len() - base),
                entries@ == all.take(entries@.len() as int),
                no_collision(entries@),
                ids@ == entry_ids(entries@),
            decreases rest@.len(),
        {
            let ghost n = entries@.len() as int;
            assert(rest@[0] == pipeline_sources@[n - base]);
            let (source, name) = rest.remove(0);
            assert(rest@ =~= pipeline_sources@.skip(n - base + 1));
            let entry: RegistryEntry = RegistryEntry {
                source,
                origin: SourceOrigin::Pipeline(name),
            };
            assert(all[n] == entry);
            match register(&mut entries, &mut ids, entry) {
                Ok(()) => {
                    assert(entries@ =~= all.take(n + 1));
                },
                Err(e) => {
                    proof {
                        lemma_collision_found(all, n, e);
                    }
                    return Err(e);
                },
            }
        }
        assert(all.take(entries@.len() as int) =~= all);
        Ok(DaemonSourceRegistry { entries, ids })
    }

    /// Build a registry of external sources only.
    pub fn from_external(external: Vec<(DynamicSource, String)>) -> (res: Result<
        DaemonSourceRegistry,
        SourceCollisionError,
    >)
        ensures
            match res {
                Ok(registry) => registry@ == declared(external@, Seq::empty()) && no_collision(
                    registry@,
                ),
                Err(e) => exists|i: int, j: int| #[trigger]
                    collide(declared(external@, Seq::empty()), i, j) && no_collision(
                        declared(external@, Seq::empty()).take(j),
                    ) && e.source_id@ == declared(external@, Seq::empty())[j].source.id@
                        && e.first@ == declared(external@, Seq::empty())[i].origin@ && e.second@
                        == declared(external@, Seq::empty())[j].origin@,
            },
    {
        DaemonSourceRegistry::new(external, Vec::new())
    }

    /// A registry without sources.
    pub fn empty() -> (res: DaemonSourceRegistry)
        ensures
            res@ == Seq::<RegistryEntry>::empty(),
    {
        let entries: Vec<RegistryEntry> = Vec::new();
        let ids: StringHashSet = StringHashSet::new();
        assert(ids@ =~= entry_ids(entries@));
        DaemonSourceRegistry { entries, ids }
    }

    /// All the sources.
    pub fn sources(&self) -> (res: Vec<&DynamicSource>)
        ensures
            res@.len() == self@.len(),
            forall|i: int| 0 <= i < self@.len() ==> *(#[trigger] res@[i]) == self@[i].source,
    {
        let mut out: Vec<&DynamicSource> = Vec::new();
        let mut i: usize = 0;
        while i < self.entries.len()
            invariant
                0 <= i <= self.entries@.len(),
                out@.len() == i,
                forall|k: int| 0 <= k < i ==> *(#[trigger] out@[k]) == self.entries@[k].source,
            decreases self.entries@.len() - i,
        {
            out.push(&self.entries[i].source);
            i = i + 1;
        }
        out
    }

    /// All the sources, owned.
    pub fn into_sources(self) -> (res: Vec<DynamicSource>)
        ensures
            res@ == self@.map_values(|e: RegistryEntry| e.source),
    {
        let ghost all = self.entries@;
        let mut rest: Vec<RegistryEntry> = self.entries;
        let mut out: Vec<DynamicSource> = Vec::new();
        while rest.len() > 0
            invariant
                out@.len() + rest@.len() == all.len(),
                rest@ == all.skip(out@.len() as int),
                out@ == all.map_values(|e: RegistryEntry| e.source).take(out@.len() as int),
            decreases rest@.len(),
        {
            let ghost n = out@.len() as int;
            assert(rest@[0] == all[n]);
            let entry: RegistryEntry = rest.remove(0);
            assert(rest@ =~= all.skip(n + 1));
            out.push(entry.source);
            assert(out@ =~= all.map_values(|e: RegistryEntry| e.source).take(n + 1));
        }
        assert(out@ =~= all.map_values(|e: RegistryEntry| e.source));
        out
    }

    /// All the entries.
    pub fn entries(&self) -> (res: &Vec<RegistryEntry>)
        ensures
            res@ == self@,
    {
        &self.entries
    }

    /// The IDs of all the sources.
    pub fn ids(&self) -> (res: &StringHashSet)
        ensures
            res@ == entry_ids(self@),
    {
        proof {
            use_type_invariant(self);
        }
        &self.ids
    }

    /// Whether there are no sources.
    pub fn is_empty(&self) -> (res: bool)
        ensures
            res == (self@.len() == 0),
    {
        self.entries.len() == 0
    }

    /// The number of sources.
    pub fn len(&self) -> (res: usize)
        ensures
            res == self@.len(),
    {
        self.entries.len()
    }

    /// Look a source up by its ID.
    pub fn get(&self, id: &str) -> (res: Option<&RegistryEntry>)
        ensures
            match res {
                Some(entry) => self@.contains(*entry) && entry.source.id@ == id@,
                None => !entry_ids(self@).contains(id@),
            },
            no_collision(self@),
    {
        proof {
            use_type_invariant(self);
        }
        let mut i: usize = 0;
        while i < self.entries.len()
            invariant
                0 <= i <= self.entries@.len(),
                forall|k: int| 0 <= k < i ==> (#[trigger] self.entries@[k]).source.id@ != id@,
                no_collision(self.entries@),
            decreases self.entries@.len() - i,
        {
            if text::same_text(self.entries[i].source.id.as_str(), id) {
                assert(self@[i as int] == self.entries@[i as int]);
                return Some(&self.entries[i]);
            }
            i = i + 1;
        }
        None
    }
}

/// What an error found says of the declarations before it.
spec fn describes(e: SourceCollisionError, before: Seq<RegistryEntry>, entry: RegistryEntry) -> bool {
    e.source_id@ == entry.source.id@ && e.second@ == entry.origin@ && exists|i: int|
        0 <= i < before.len() && (#[trigger] before[i]).source.id@ == entry.source.id@
            && before[i].origin@ == e.first@
}

/// Add a declaration, unless its ID is taken.
fn register(entries: &mut Vec<RegistryEntry>, ids: &mut StringHashSet, entry: RegistryEntry) -> (res:
    Result<(), SourceCollisionError>)
    requires
        no_collision(old(entries)@),
        old(ids)@ == entry_ids(old(entries)@),
    ensures
        match res {
            Ok(()) => final(entries)@ == old(entries)@.push(entry) && no_collision(final(entries)@)
                && final(ids)@ == entry_ids(final(entries)@),
            Err(e) => describes(e, old(entries)@, entry),
        },
{
    let ghost before = entries@;
    if ids.contains(entry.source.id.as_str()) {
        let mut i: usize = 0;
        while i < entries.len()
            invariant
                0 <= i <= entries@.len(),
                entries@ == before,
                before == old(entries)@,
                entry_ids(before).contains(entry.source.id@),
                forall|k: int|
                    0 <= k < i ==> (#[trigger] before[k]).source.id@ != entry.source.id@,
            decreases entries@.len() - i,
        {
            if text::same_text(entries[i].source.id.as_str(), entry.source.id.as_str()) {
                let first: SourceOrigin = entries[i].origin.clone();
                assert(before[i as int].source.id@ == entry.source.id@);
                return Err(
                    SourceCollisionError {
                        source_id: entry.source.id.clone(),
                        first,
                        second: entry.origin,
                    },
                );
            }
            i = i + 1;
        }
        assert(false);
    }
    let id: String = entry.source.id.clone();
    ids.insert(id);
    entries.push(entry);
    proof {
        let after = entries@;
        assert forall|i: int, j: int| !collide(after, i, j) by {
            if collide(after, i, j) {
                if j < before.len() {
                    assert(collide(before, i, j));
                } else {
                    assert(before[i].source.id@ == entry.source.id@);
                }
            }
        }
        assert(ids@ =~= entry_ids(after)) by {
            assert forall|x: Seq<char>| ids@.contains(x) <==> entry_ids(after).contains(x) by {
                if entry_ids(before).contains(x) {
                    let k = choose|k: int|
                        0 <= k < before.len() && (#[trigger] before[k]).source.id@ == x;
                    assert(after[k].source.id@ == x);
                }
                if x == entry.source.id@ {
                    assert(after[before.len() as int].source.id@ == x);
                }
                if entry_ids(after).contains(x) {
                    let k = choose|k: int|
                        0 <= k < after.len() && (#[trigger] after[k]).source.id@ == x;
                    if k < before.len() {
                        assert(before[k].source.id@ == x);
                    }
                }
            }
        }
    }
    Ok(())
}

proof fn lemma_collision_found(all: Seq<RegistryEntry>, n: int, e: SourceCollisionError)
    requires
        0 <= n < all.len(),
        no_collision(all.take(n)),
        describes(e, all.take(n), all[n]),
    ensures
        exists|i: int, j: int| #[trigger]
            collide(all, i, j) && no_collision(all.take(j)) && e.source_id@ == all[j].source.id@
                && e.first@ == all[i].origin@ && e.second@ == all[j].origin@,
{
    let before = all.take(n);
    let i = choose|i: int|
        0 <= i < before.len() && (#[trigger] before[i]).source.id@ == all[n].source.id@
            && before[i].origin@ == e.first@;
    assert(before[i] == all[i]);
    assert(collide(all, i, n));
}

// ---------------------------------------------------------------------------
// Loading
// ---------------------------------------------------------------------------

/// The sources of the first `n` paths, each with its path.
pub open spec fn loaded_sources<E>(
    loaded: Seq<(String, Result<Vec<DynamicSource>, E>)>,
    n: int,
) -> Seq<(DynamicSource, Seq<char>)>
    decreases n,
{
    if n <= 0 {
        Seq::empty()
    } else {
        loaded_sources(loaded, n - 1) + (match loaded[n - 1].1 {
            Ok(sources) => sources@.map_values(|s: DynamicSource| (s, loaded[n - 1].0@)),
            Err(_) => Seq::empty(),
        })
    }
}

/// Gather the sources of the paths that were given: `loaded` holds for each path,
/// in order, what reading it gave. The first failure is the failure of the whole.
pub fn load_external_sources<E>(loaded: Vec<(String, Result<Vec<DynamicSource>, E>)>) -> (res:
    Result<Vec<(DynamicSource, String)>, E>)
    ensures
        match res {
            Ok(sources) => (forall|i: int|
                0 <= i < loaded@.len() ==> (#[trigger] loaded@[i]).1 is Ok) && sources@.map_values(
                |d: (DynamicSource, String)| (d.0, d.1@),
            ) == loaded_sources(loaded@, loaded@.len() as int),
            Err(e) => exists|k: int|
                0 <= k < loaded@.len() && (#[trigger] loaded@[k]).1 == Err::<Vec<DynamicSource>, E>(
                    e,
                ) && forall|i: int| 0 <= i < k ==> (#[trigger] loaded@[i]).1 is Ok,
        },
{
    let ghost all = loaded@;
    let ghost mut n: int = 0;
    let mut rest: Vec<(String, Result<Vec<DynamicSource>, E>)> = loaded;
    let mut out: Vec<(DynamicSource, String)> = Vec::new();
    assert(out@.map_values(|d: (DynamicSource, String)| (d.0, d.1@)) =~= Seq::empty());
    while rest.len() > 0
        invariant
            all == loaded@,
            0 <= n <= all.len(),
            n + rest@.len() == all.len(),
            rest@ == all.skip(n),
            forall|i: int| 0 <= i < n ==> (#[trigger] all[i]).1 is Ok,
            out@.map_values(|d: (DynamicSource, String)| (d.0, d.1@)) == loaded_sources(all, n),
        decreases rest@.len(),
    {
        assert(rest@[0] == all[n]);
        let (path, result) = rest.remove(0);
        assert(rest@ =~= all.skip(n + 1));
        match result {
            Err(e) => {
                return Err(e);
            },
            Ok(sources) => {
                let ghost mine = sources@.map_values(|s: DynamicSource| (s, path@));
                let ghost before = out@.map_values(|d: (DynamicSource, String)| (d.0, d.1@));
                let mut left: Vec<DynamicSource> = sources;
                let ghost mut k: int = 0;
                assert(out@.map_values(|d: (DynamicSource, String)| (d.0, d.1@)) =~= before
                    + mine.take(0));
                while left.len() > 0
                    invariant
                        0 <= k <= sources@.len(),
                        k + left@.len() == sources@.len(),
                        left@ == sources@.skip(k),
                        mine == sources@.map_values(|s: DynamicSource| (s, path@)),
                        out@.map_values(|d: (DynamicSource, String)| (d.0, d.1@)) == before
                            + mine.take(k),
                    decreases left@.len(),
                {
                    assert(left@[0] == sources@[k]);
                    let source: DynamicSource = left.remove(0);
                    assert(left@ =~= sources@.skip(k + 1));
                    let ghost earlier = out@.map_values(
                        |d: (DynamicSource, String)| (d.0, d.1@),
                    );
                    out.push((source, path.clone()));
                    proof {
                        assert(out@.map_values(|d: (DynamicSource, String)| (d.0, d.1@))
                            =~= earlier.push(mine[k]));
                        assert(before + mine.take(k + 1) =~= (before + mine.take(k)).push(mine[k]));
                        k = k + 1;
                    }
                }
                assert(mine.take(k) =~= mine);
            },
        }
        proof {
            n = n + 1;
        }
    }
    Ok(out)
}

/// Two entries of one ID are one entry.
pub proof fn lemma_one_entry_for_an_id(entries: Seq<RegistryEntry>, i: int, j: int)
    requires
        no_collision(entries),
        0 <= i < entries.len(),
        0 <= j < entries.len(),
        entries[i].source.id@ == entries[j].source.id@,
    ensures
        i == j,
{
    if i < j {
        assert(collide(entries, i, j));
    } else if j < i {
        assert(collide(entries, j, i));
    }
}

impl Clone for DaemonSourceRegistry {
    fn clone(&self) -> (res: DaemonSourceRegistry)
        ensures
            res@.len() == self@.len(),
            forall|i: int| 0 <= i < self@.len() ==> same_entry(#[trigger] res@[i], self@[i]),
    {
        proof {
            use_type_invariant(self);
        }
        let mut entries: Vec<RegistryEntry> = Vec::new();
        let mut ids: StringHashSet = StringHashSet::new();
        let mut i: usize = 0;
        assert(ids@ =~= entry_ids(entries@));
        while i < self.entries.len()
            invariant
                0 <= i <= self.entries@.len(),
                entries@.len() == i,
                forall|k: int|
                    0 <= k < i ==> same_entry(#[trigger] entries@[k], self.entries@[k]),
                ids@ == entry_ids(entries@),
            decreases self.entries@.len() - i,
        {
            let ghost before = entries@;
            let entry: RegistryEntry = self.entries[i].clone();
            ids.insert(entry.source.id.clone());
            entries.push(entry);
            proof {
                assert forall|id: Seq<char>| ids@.contains(id) <==> entry_ids(entries@).contains(
                    id,
                ) by {
                    if entry_ids(before).contains(id) {
                        let k = choose|k: int|
                            0 <= k < before.len() && (#[trigger] before[k]).source.id@ == id;
                        assert(entries@[k] == before[k]);
                    }
                    assert(entries@[i as int].source.id == entry.source.id);
                    if entry_ids(entries@).contains(id) {
                        let k = choose|k: int|
                            0 <= k < entries@.len() && (#[trigger] entries@[k]).source.id@ == id;
                        if k < i {
                            assert(before[k] == entries@[k]);
                        }
                    }
                }
                assert(ids@ =~= entry_ids(entries@));
            }
            i = i + 1;
        }
        proof {
            assert forall|a: int, b: int| !collide(entries@, a, b) by {
                assert(!collide(self.entries@, a, b));
            }
        }
        DaemonSourceRegistry { entries, ids }
    }
}

} // verus!
