//! The cache of template structures, keyed by template id. Structures are
//! stored once and never replaced or evicted; fetching them is left to the
//! caller, which asks the cache first.

use vstd::prelude::*;
use vstd::string::*;
use crate::catalog::TemplateCatalog;
use crate::template::{structure_wf, TemplateStructure};

verus! {

/// The map that a list of (id, structure) entries stands for.
pub open spec fn entries_map(es: Seq<(String, TemplateStructure)>) -> Map<Seq<char>, TemplateStructure>
    decreases es.len(),
{
    if es.len() == 0 {
        Map::empty()
    } else {
        entries_map(es.drop_last()).insert(es.last().0@, es.last().1)
    }
}

/// Whether no id appears twice among the entries.
pub open spec fn ids_distinct(es: Seq<(String, TemplateStructure)>) -> bool {
    forall|i: int, j: int| 0 <= i < j < es.len() ==> es[i].0@ != es[j].0@
}

proof fn lemma_entries_map(es: Seq<(String, TemplateStructure)>)
    requires
        ids_distinct(es),
    ensures
        forall|k: Seq<char>| entries_map(es).contains_key(k) <==> exists|i: int| 0 <= i < es.len() && #[trigger] es[i].0@ == k,
        forall|i: int| 0 <= i < es.len() ==> entries_map(es)[#[trigger] es[i].0@] == es[i].1,
    decreases es.len(),
{
    if es.len() > 0 {
        let init = es.drop_last();
        assert(ids_distinct(init));
        lemma_entries_map(init);
        assert forall|k: Seq<char>| entries_map(es).contains_key(k) <==> exists|i: int| 0 <= i < es.len() && #[trigger] es[i].0@ == k by {
            if entries_map(init).contains_key(k) {
                let i = choose|i: int| 0 <= i < init.len() && #[trigger] init[i].0@ == k;
                assert(es[i].0@ == k);
            }
            if exists|i: int| 0 <= i < es.len() && #[trigger] es[i].0@ == k {
                let i = choose|i: int| 0 <= i < es.len() && #[trigger] es[i].0@ == k;
                if i < es.len() - 1 {
                    assert(init[i].0@ == k);
                }
            }
        }
        assert forall|i: int| 0 <= i < es.len() implies entries_map(es)[#[trigger] es[i].0@] == es[i].1 by {
            if i < es.len() - 1 {
                assert(init[i] == es[i]);
                assert(es[i].0@ != es.last().0@);
            }
        }
    }
}

/// What storing a fetched structure does to the cache: an id that is
/// cached keeps its structure, any other id gets the new one.
pub open spec fn stored(cache: Map<Seq<char>, TemplateStructure>, id: Seq<char>, t: TemplateStructure) -> Map<Seq<char>, TemplateStructure> {
    if cache.contains_key(id) {
        cache
    } else {
        cache.insert(id, t)
    }
}

/// The template structures fetched so far, by template id.
pub struct StructureCache {
    entries: Vec<(String, TemplateStructure)>,
}

impl View for StructureCache {
    type V = Map<Seq<char>, TemplateStructure>;

    closed spec fn view(&self) -> Map<Seq<char>, TemplateStructure> {
        entries_map(self.entries@)
    }
}

impl StructureCache {
    /// No id is stored twice, and every stored structure has unique names
    /// in each of its mappings.
    pub closed spec fn wf(&self) -> bool {
        &&& ids_distinct(self.entries@)
        &&& forall|i: int| 0 <= i < self.entries@.len() ==> structure_wf((#[trigger] self.entries@[i]).1@)
    }

    /// An empty cache.
    pub fn new() -> (r: StructureCache)
        ensures
            r.wf(),
            r@ == Map::<Seq<char>, TemplateStructure>::empty(),
    {
        StructureCache { entries: Vec::new() }
    }

    fn index_of(&self, id: &str) -> (r: Option<usize>)
        requires
            self.wf(),
        ensures
            r matches Some(i) ==> i < self.entries@.len() && self.entries@[i as int].0@ == id@,
            r is None ==> forall|i: int| 0 <= i < self.entries@.len() ==> #[trigger] self.entries@[i].0@ != id@,
    {
        let key = String::from_str(id);
        let mut i: usize = 0;
        while i < self.entries.len()
            invariant
                key@ == id@,
                i <= self.entries@.len(),
                forall|k: int| 0 <= k < i ==> #[trigger] self.entries@[k].0@ != id@,
            decreases self.entries@.len() - i,
        {
            if self.entries[i].0 == key {
                return Some(i);
            }
            i = i + 1;
        }
        None
    }

    /// Whether resolving `id` needs a fetch: it does exactly when `id` is not cached.
    pub fn needs_fetch(&self, id: &str) -> (r: bool)
        requires
            self.wf(),
        ensures
            r == !self@.contains_key(id@),
    {
        proof {
            lemma_entries_map(self.entries@);
        }
        self.index_of(id).is_none()
    }

    /// The cached structure of `id`, if there is one.
    pub fn get(&self, id: &str) -> (r: Option<&TemplateStructure>)
        requires
            self.wf(),
        ensures
            r is Some <==> self@.contains_key(id@),
            r matches Some(t) ==> *t == self@[id@] && structure_wf(t@),
    {
        proof {
            lemma_entries_map(self.entries@);
        }
        match self.index_of(id) {
            Some(i) => Some(&self.entries[i].1),
            None => None,
        }
    }

    /// Stores a fetched structure under `id`, unless `id` is cached already,
    /// in which case the cache keeps what it has: one id never has two
    /// structures.
    pub fn store(&mut self, id: String, structure: TemplateStructure)
        requires
            old(self).wf(),
            structure_wf(structure@),
        ensures
            final(self).wf(),
            final(self)@ == stored(old(self)@, id@, structure),
    {
        proof {
            lemma_entries_map(self.entries@);
        }
        match self.index_of(id.as_str()) {
            Some(_) => {},
            None => {
                let ghost before = self.entries@;
                let ghost key = id@;
                self.entries.push((id, structure));
                proof {
                    assert(self.entries@.drop_last() =~= before);
                    assert forall|i: int| 0 <= i < self.entries@.len() implies structure_wf((#[trigger] self.entries@[i]).1@) by {
                        if i < before.len() {
                            assert(self.entries@[i] == before[i]);
                        }
                    }
                    assert(ids_distinct(self.entries@)) by {
                        assert forall|i: int, j: int| 0 <= i < j < self.entries@.len() implies self.entries@[i].0@ != self.entries@[j].0@ by {
                            if j == before.len() {
                                assert(before[i] == self.entries@[i]);
                            } else {
                                assert(before[i] == self.entries@[i]);
                                assert(before[j] == self.entries@[j]);
                            }
                        }
                    }
                }
            },
        }
    }
}

/// What resolving a template id calls for.
#[derive(Clone, Copy, Debug, PartialEq, Eq, Structural)]
pub enum ResolveAction {
    /// The id is not in the catalog: resolution fails.
    NotFound,
    /// The structure is cached: it is used without a fetch.
    Cached,
    /// The structure must be fetched, and then stored.
    Fetch,
}

/// The action for resolving `id` given the catalog's ids and the cache.
pub open spec fn resolve_action(catalog: Map<Seq<char>, crate::catalog::TemplateInfo>, cache: Map<Seq<char>, TemplateStructure>, id: Seq<char>) -> ResolveAction {
    if !catalog.contains_key(id) {
        ResolveAction::NotFound
    } else if cache.contains_key(id) {
        ResolveAction::Cached
    } else {
        ResolveAction::Fetch
    }
}

/// Decides how to resolve the structure of template `id`: fail for an id
/// outside the catalog, use the cache where it has the id, fetch otherwise.
pub fn resolve_step(catalog: &TemplateCatalog, cache: &StructureCache, id: &str) -> (r: ResolveAction)
    requires
        catalog.wf(),
        cache.wf(),
    ensures
        r == resolve_action(catalog@, cache@, id@),
{
    if catalog.get_template(id).is_none() {
        ResolveAction::NotFound
    } else if cache.needs_fetch(id) {
        ResolveAction::Fetch
    } else {
        ResolveAction::Cached
    }
}

/// Resolving the same template id twice fetches at most once: where the
/// first resolution calls for a fetch and its result is stored, and where it
/// finds the id cached, the second resolution never calls for a fetch; for
/// an id of the catalog it is served from the cache.
pub proof fn lemma_second_resolution_is_cached(
    catalog: Map<Seq<char>, crate::catalog::TemplateInfo>,
    cache: Map<Seq<char>, TemplateStructure>,
    id: Seq<char>,
    fetched: TemplateStructure,
)
    ensures
        ({
            let after = if resolve_action(catalog, cache, id) == ResolveAction::Fetch {
                stored(cache, id, fetched)
            } else {
                cache
            };
            &&& resolve_action(catalog, after, id) != ResolveAction::Fetch
            &&& catalog.contains_key(id) ==> resolve_action(catalog, after, id) == ResolveAction::Cached
        }),
{
}

} // verus!
