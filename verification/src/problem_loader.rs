//! Where compiled problem packages are fetched from, and the cache of
//! fetched ones.
use vstd::prelude::*;
use crate::pom::Problem;
use crate::text::str_eq;

verus! {

/// Used to set up a loader: where problems live.
#[derive(Debug, Clone)]
pub struct LoaderConfig {
    /// Directory with problem packages, if any.
    pub fs: Option<String>,
    /// Connection string of a problem database, if any.
    pub mongodb: Option<String>,
}

/// Single problem source.
pub trait Registry {
    /// Name of the source.
    fn name(&self) -> &'static str;
}

/// Resolves problems from filesystem
#[derive(Debug, Clone)]
pub struct FsRegistry {
    /// Directory containing all problems
    pub problems_dir: String,
}

impl FsRegistry {
    /// Problems are looked up in `problems_dir`.
    pub fn new(problems_dir: String) -> (r: FsRegistry)
        ensures
            r.problems_dir == problems_dir,
    {
        FsRegistry { problems_dir }
    }
}

impl Registry for FsRegistry {
    fn name(&self) -> (r: &'static str)
        ensures
            r@ == "FsRegistry"@,
    {
        "FsRegistry"
    }
}

/// A fetched problem: where its assets are, and its manifest.
#[derive(Debug, Clone)]
pub struct ProblemCacheItem {
    pub assets: String,
    pub manifest: Problem,
}

/// Stores cached problem information, by problem name.
#[derive(Debug, Clone)]
pub struct ProblemCache {
    pub items: Vec<(String, ProblemCacheItem)>,
}

/// What a cache holds: each problem name with its item, a later entry of
/// a name replacing an earlier one.
pub open spec fn cache_map(items: Seq<(String, ProblemCacheItem)>) -> Map<Seq<char>, ProblemCacheItem>
    decreases items.len(),
{
    if items.len() == 0 {
        Map::empty()
    } else {
        cache_map(items.drop_last()).insert(items.last().0@, items.last().1)
    }
}

/// The last entry of `items` named `name` is what the cache holds for it;
/// with no such entry it holds nothing for it.
proof fn lemma_cache_lookup(items: Seq<(String, ProblemCacheItem)>, name: Seq<char>, k: int)
    requires
        -1 <= k < items.len(),
        forall|j: int| k < j < items.len() ==> items[j].0@ != name,
        k >= 0 ==> items[k].0@ == name,
    ensures
        k >= 0 ==> cache_map(items).dom().contains(name) && cache_map(items)[name] == items[k].1,
        k < 0 ==> !cache_map(items).dom().contains(name),
    decreases items.len(),
{
    if items.len() > 0 && k < items.len() - 1 {
        let init = items.drop_last();
        lemma_cache_lookup(init, name, k);
        if k >= 0 {
            assert(init[k] == items[k]);
        }
    }
}

impl ProblemCache {
    /// An empty cache.
    pub fn new() -> (r: ProblemCache)
        ensures
            r.items@.len() == 0,
            cache_map(r.items@) == Map::<Seq<char>, ProblemCacheItem>::empty(),
    {
        ProblemCache { items: Vec::new() }
    }

    /// What the cache holds for problem `name`, if anything.
    pub fn get(&self, name: &str) -> (r: Option<&ProblemCacheItem>)
        ensures
            match r {
                Some(it) => cache_map(self.items@).dom().contains(name@) && *it == cache_map(self.items@)[name@],
                None => !cache_map(self.items@).dom().contains(name@),
            },
    {
        let mut i: usize = self.items.len();
        while i > 0
            invariant
                i <= self.items@.len(),
                forall|j: int| i <= j < self.items@.len() ==> self.items@[j].0@ != name@,
            decreases i,
        {
            if str_eq(self.items[i - 1].0.as_str(), name) {
                proof {
                    lemma_cache_lookup(self.items@, name@, i - 1);
                }
                return Some(&self.items[i - 1].1);
            }
            i = i - 1;
        }
        proof {
            lemma_cache_lookup(self.items@, name@, -1);
        }
        None
    }

    /// Caches `item` for problem `name`, replacing what was there.
    pub fn insert(&mut self, name: String, item: ProblemCacheItem)
        ensures
            cache_map(final(self).items@) == cache_map(old(self).items@).insert(name@, item),
    {
        let ghost i0 = self.items@;
        self.items.push((name, item));
        proof {
            assert(self.items@.drop_last() =~= i0);
        }
    }
}

/// A source of problems that a loader asks, in order.
#[derive(Debug, Clone)]
pub enum RegistrySource {
    /// Problem packages in a directory.
    Fs(FsRegistry),
    /// A problem database, by connection string.
    Mongo(String),
}

/// Finds problems: in its cache first, then in each registry in turn,
/// caching what a registry gives.
#[derive(Debug, Clone)]
pub struct Loader {
    pub registries: Vec<RegistrySource>,
    pub cache: ProblemCache,
    /// Each problem is kept in `cache_dir` joined with its name.
    pub cache_dir: String,
}

/// What finding a problem does next.
#[derive(Debug, Clone, Copy, PartialEq, Eq, Structural)]
pub enum FindAction {
    /// The cache holds the problem: give what it holds.
    UseCached,
    /// Ask the registry at this position for the problem.
    AskRegistry(usize),
    /// No registry knows the problem.
    NotFound,
}

impl Loader {
    /// A loader with the registries that `conf` names, the directory one
    /// first, and an empty cache.
    pub fn from_config(conf: &LoaderConfig, cache_dir: String) -> (r: Loader)
        ensures
            r.cache_dir == cache_dir,
            r.cache.items@.len() == 0,
            r.registries@.len() == (if conf.fs is Some { 1int } else { 0int }) + (if conf.mongodb is Some {
                1int
            } else {
                0int
            }),
            conf.fs matches Some(d) ==> r.registries@[0] matches RegistrySource::Fs(f) && f.problems_dir@ == d@,
            conf.mongodb matches Some(m) ==> r.registries@[r.registries@.len() - 1] matches RegistrySource::Mongo(
                c,
            ) && c@ == m@,
    {
        let mut registries: Vec<RegistrySource> = Vec::new();
        match &conf.fs {
            Some(d) => {
                registries.push(RegistrySource::Fs(FsRegistry::new(d.as_str().to_owned())));
            },
            None => {},
        }
        match &conf.mongodb {
            Some(m) => {
                registries.push(RegistrySource::Mongo(m.as_str().to_owned()));
            },
            None => {},
        }
        Loader { registries, cache: ProblemCache::new(), cache_dir }
    }

    /// Where the assets of problem `name` are kept.
    pub fn assets_path(&self, name: &str) -> (r: String)
        ensures
            r@ == crate::components::spec_join(self.cache_dir@, name@),
    {
        crate::components::join(self.cache_dir.as_str(), name)
    }

    /// What finding problem `name` does next, once the first `asked`
    /// registries did not know it: use the cache when it holds the problem,
    /// else ask the next registry, else give up.
    pub fn next_action(&self, name: &str, asked: usize) -> (r: FindAction)
        ensures
            cache_map(self.cache.items@).dom().contains(name@) ==> r == FindAction::UseCached,
            !cache_map(self.cache.items@).dom().contains(name@) ==> r == (if asked < self.registries@.len() {
                FindAction::AskRegistry(asked)
            } else {
                FindAction::NotFound
            }),
    {
        if self.cache.get(name).is_some() {
            FindAction::UseCached
        } else if asked < self.registries.len() {
            FindAction::AskRegistry(asked)
        } else {
            FindAction::NotFound
        }
    }

    /// A registry gave `manifest` for problem `name`: it is cached with its
    /// assets path, which is returned.
    pub fn found(&mut self, name: &str, manifest: Problem) -> (r: String)
        ensures
            r@ == crate::components::spec_join(old(self).cache_dir@, name@),
            cache_map(final(self).cache.items@).dom() == cache_map(old(self).cache.items@).dom().insert(name@),
            cache_map(final(self).cache.items@)[name@].assets@ == r@,
            cache_map(final(self).cache.items@)[name@].manifest == manifest,
            forall|o: Seq<char>|
                o != name@ && #[trigger] cache_map(old(self).cache.items@).dom().contains(o) ==> cache_map(
                    final(self).cache.items@,
                )[o] == cache_map(old(self).cache.items@)[o],
            final(self).registries == old(self).registries,
            final(self).cache_dir == old(self).cache_dir,
    {
        let assets = self.assets_path(name);
        let a2 = assets.as_str().to_owned();
        self.cache.insert(name.to_owned(), ProblemCacheItem { assets: a2, manifest });
        assets
    }
}

/// What is cached for a problem is found again, and caching it leaves
/// what is cached for other problems as it was.
pub proof fn lemma_cache_read_after_write(
    items: Seq<(String, ProblemCacheItem)>,
    name: String,
    item: ProblemCacheItem,
    other: Seq<char>,
)
    ensures
        cache_map(items.push((name, item))).dom().contains(name@),
        cache_map(items.push((name, item)))[name@] == item,
        other != name@ ==> (cache_map(items.push((name, item))).dom().contains(other) == cache_map(
            items,
        ).dom().contains(other)),
        other != name@ && cache_map(items).dom().contains(other) ==> cache_map(items.push((name, item)))[other]
            == cache_map(items)[other],
{
    assert(items.push((name, item)).drop_last() =~= items);
}

} // verus!
