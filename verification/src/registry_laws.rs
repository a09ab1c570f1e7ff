//! What a registry holds of what was declared.

use crate::registry::DaemonSourceRegistry;
use crate::registry::DynamicSource;
use crate::registry::RegistryEntry;
use crate::registry::SourceCollisionError;
use crate::registry::SourceOrigin;
use crate::registry;
use vstd::prelude::*;

verus! {

/// The entry is that source, declared there.
pub open spec fn is_declared(e: RegistryEntry, source: DynamicSource, origin: SourceOrigin) -> bool {
    e.source == source && e.origin == origin
}

/// The declarations of external files come first, each with its file as its origin, then
/// those of pipelines, each with its pipeline, all in order.
pub proof fn lemma_declarations(
    external: Seq<(DynamicSource, String)>,
    pipeline: Seq<(DynamicSource, String)>,
    i: int,
)
    ensures
        registry::declared(external, pipeline).len() == external.len() + pipeline.len(),
        0 <= i < external.len() ==> is_declared(
            registry::declared(external, pipeline)[i],
            external[i].0,
            SourceOrigin::External(external[i].1),
        ),
        0 <= i < pipeline.len() ==> is_declared(
            registry::declared(external, pipeline)[external.len() + i],
            pipeline[i].0,
            SourceOrigin::Pipeline(pipeline[i].1),
        ),
{
}

/// The ID of the declaration at place `i`, those of pipelines behind the external ones.
pub open spec fn id_at(
    external: Seq<(DynamicSource, String)>,
    pipeline: Seq<(DynamicSource, String)>,
    i: int,
) -> Seq<char> {
    if i < external.len() {
        external[i].0.id@
    } else {
        pipeline[i - external.len()].0.id@
    }
}

/// No ID is declared twice.
pub open spec fn ids_differ(
    external: Seq<(DynamicSource, String)>,
    pipeline: Seq<(DynamicSource, String)>,
    n: int,
) -> bool {
    forall|i: int, j: int|
        0 <= i < j < n ==> #[trigger] id_at(external, pipeline, i) != #[trigger] id_at(
            external,
            pipeline,
            j,
        )
}

/// The declaration at place `j` is the first with an ID that was declared before, at place
/// `i`, and the error tells the ID and both origins.
pub open spec fn first_twice(
    external: Seq<(DynamicSource, String)>,
    pipeline: Seq<(DynamicSource, String)>,
    e: SourceCollisionError,
    i: int,
    j: int,
) -> bool {
    &&& 0 <= i < j < external.len() + pipeline.len()
    &&& id_at(external, pipeline, i) == id_at(external, pipeline, j)
    &&& ids_differ(external, pipeline, j)
    &&& e.source_id@ == id_at(external, pipeline, j)
    &&& e.first@ == registry::declared(external, pipeline)[i].origin@
    &&& e.second@ == registry::declared(external, pipeline)[j].origin@
}

/// A registry is built if and only if no ID is declared twice; else the first ID that is
/// declared again is told, with both places.
pub proof fn lemma_when_registry_is_built(
    external: Vec<(DynamicSource, String)>,
    pipeline: Vec<(DynamicSource, String)>,
    res: Result<DaemonSourceRegistry, SourceCollisionError>,
)
    requires
        call_ensures(DaemonSourceRegistry::new, (external, pipeline), res),
    ensures
        res is Ok <==> ids_differ(
            external@,
            pipeline@,
            (external@.len() + pipeline@.len()) as int,
        ),
        res matches Ok(r) ==> r@ == registry::declared(external@, pipeline@),
        res matches Err(e) ==> exists|i: int, j: int| #[trigger]
            first_twice(external@, pipeline@, e, i, j),
{
    let all = registry::declared(external@, pipeline@);
    let n = (external@.len() + pipeline@.len()) as int;
    assert forall|i: int| 0 <= i < n implies (#[trigger] all[i]).source.id@ == id_at(
        external@,
        pipeline@,
        i,
    ) by {
        if i < external@.len() {
            lemma_declarations(external@, pipeline@, i);
        } else {
            lemma_declarations(external@, pipeline@, i - external@.len());
        }
    }
    match res {
        Ok(_) => {
            assert forall|i: int, j: int| 0 <= i < j < n implies #[trigger] id_at(
                external@,
                pipeline@,
                i,
            ) != #[trigger] id_at(external@, pipeline@, j) by {
                assert(all[i].source.id@ == id_at(external@, pipeline@, i));
                assert(all[j].source.id@ == id_at(external@, pipeline@, j));
                assert(!registry::collide(all, i, j));
            }
        },
        Err(e) => {
            let (i, j) = choose|i: int, j: int| #[trigger]
                registry::collide(all, i, j) && registry::no_collision(all.take(j))
                    && e.source_id@ == all[j].source.id@ && e.first@ == all[i].origin@ && e.second@
                    == all[j].origin@;
            assert(all[i].source.id@ == id_at(external@, pipeline@, i));
            assert(all[j].source.id@ == id_at(external@, pipeline@, j));
            assert forall|a: int, b: int| 0 <= a < b < j implies #[trigger] id_at(
                external@,
                pipeline@,
                a,
            ) != #[trigger] id_at(external@, pipeline@, b) by {
                assert(all[a].source.id@ == id_at(external@, pipeline@, a));
                assert(all[b].source.id@ == id_at(external@, pipeline@, b));
                assert(all.take(j)[a] == all[a] && all.take(j)[b] == all[b]);
                assert(!registry::collide(all.take(j), a, b));
            }
            assert(first_twice(external@, pipeline@, e, i, j));
        },
    }
}

/// A source is found by its ID, if and only if it is there.
pub proof fn lemma_source_is_found(
    r: DaemonSourceRegistry,
    id: &str,
    res: Option<&RegistryEntry>,
    i: int,
)
    requires
        call_ensures(DaemonSourceRegistry::get, (&r, id), res),
    ensures
        0 <= i < r@.len() && r@[i].source.id@ == id@ ==> res == Some(&r@[i]),
        res matches Some(e) ==> e.source.id@ == id@ && r@.contains(*e),
{
    if 0 <= i < r@.len() && r@[i].source.id@ == id@ {
        assert(registry::entry_ids(r@).contains(id@));
        if let Some(e) = res {
            let k = r@.index_of(*e);
            registry::lemma_one_entry_for_an_id(r@, i, k);
        }
    }
}

/// Sources that hold the same agree in every part.
pub proof fn lemma_same_sources(a: DynamicSource, b: DynamicSource)
    requires
        registry::same_source(a, b),
    ensures
        a.id == b.id,
        a.source_type == b.source_type,
        a.refresh == b.refresh,
        a.timeout == b.timeout,
        a.on_error == b.on_error,
        a.required == b.required,
        a.default is Some <==> b.default is Some,
        a.default is Some ==> a.default->0@ == b.default->0@,
{
}

/// How many sources the first `k` files hold, all of which could be read.
pub open spec fn sources_in<E>(
    loaded: Seq<(String, Result<Vec<DynamicSource>, E>)>,
    k: int,
) -> int
    decreases k,
{
    if k <= 0 {
        0
    } else {
        sources_in(loaded, k - 1) + loaded[k - 1].1->Ok_0@.len()
    }
}

/// The sources of the files that were read follow each other, those of each file in order
/// and with its path, behind those of the files before it.
pub proof fn lemma_loaded_in_order<E>(
    loaded: Seq<(String, Result<Vec<DynamicSource>, E>)>,
    n: int,
    k: int,
    i: int,
)
    requires
        0 <= n <= loaded.len(),
        forall|j: int| 0 <= j < loaded.len() ==> (#[trigger] loaded[j]).1 is Ok,
    ensures
        registry::loaded_sources(loaded, n).len() == sources_in(loaded, n),
        0 <= k < n && 0 <= i < loaded[k].1->Ok_0@.len() ==> 0 <= sources_in(loaded, k) + i
            < sources_in(loaded, n) && registry::loaded_sources(loaded, n)[sources_in(loaded, k) + i]
            == (loaded[k].1->Ok_0@[i], loaded[k].0@),
    decreases n,
{
    if n > 0 {
        lemma_loaded_in_order(loaded, n - 1, k, i);
        assert(loaded[n - 1].1 is Ok);
        if k == n - 1 {
            lemma_loaded_in_order(loaded, k, k, i);
        }
    }
}

} // verus!
