//! The dependency manager: module metadata, resolution of symbolic ids, the
//! eager-dependency closure, and the binary-cache bookkeeping.
//!
//! Metadata documents and module binaries come from the network and the
//! disk, which this crate does not touch.  Every operation here therefore
//! either decides from the tables it owns, or returns a description of the
//! outside work to perform; the embedding program performs it and hands the
//! result back.

use vstd::prelude::*;
use vstd::string::StringExecFns;
use vstd::string::StringSliceAdditionalSpecFns;
use vstd::utf8::encode_utf8_decode_utf8;

use crate::error::Error;

verus! {

// ---------------------------------------------------------------------------
// Text helpers
// ---------------------------------------------------------------------------

/// Compare two byte slices for equality.
fn bytes_eq(a: &[u8], b: &[u8]) -> (r: bool)
    ensures
        r == (a@ == b@),
{
    if a.len() != b.len() {
        return false;
    }
    let mut i: usize = 0;
    while i < a.len()
        invariant
            a@.len() == b@.len(),
            i <= a@.len(),
            forall|t: int| 0 <= t < i ==> a@[t] == b@[t],
        decreases a@.len() - i,
    {
        if a[i] != b[i] {
            return false;
        }
        i = i + 1;
    }
    proof {
        assert(a@ =~= b@);
    }
    true
}

/// Compare two string slices for equality of their characters.
pub fn str_eq(a: &str, b: &str) -> (r: bool)
    ensures
        r == (a@ == b@),
{
    let r = bytes_eq(a.as_bytes(), b.as_bytes());
    proof {
        if a.spec_bytes() == b.spec_bytes() {
            encode_utf8_decode_utf8(a@);
            encode_utf8_decode_utf8(b@);
        }
    }
    r
}

// ---------------------------------------------------------------------------
// Dependencies and metadata
// ---------------------------------------------------------------------------

/// Mathematical image of a [`Dependency`].
pub struct DependencyView {
    pub id: Seq<char>,
    pub load_time: bool,
    pub location: Seq<char>,
}

/// A reference from one module to another: the symbolic id of the target,
/// whether it must be linked eagerly before the declaring module runs, and
/// the location its metadata and binary can be fetched from.
#[derive(Debug)]
pub struct Dependency {
    pub id: String,
    pub load_time: bool,
    pub location: String,
}

impl View for Dependency {
    type V = DependencyView;

    open spec fn view(&self) -> DependencyView {
        DependencyView { id: self.id@, load_time: self.load_time, location: self.location@ }
    }
}

impl Dependency {
    pub fn new(id: String, load_time: bool, location: String) -> (d: Dependency)
        ensures
            d@ == (DependencyView { id: id@, load_time, location: location@ }),
    {
        Dependency { id, load_time, location }
    }

}

/// Equality is structural: id, eagerness flag and location.  It is what
/// deduplicates the eager-load set.
impl PartialEq for Dependency {
    fn eq(&self, other: &Self) -> (r: bool) {
        self.id == other.id && self.load_time == other.load_time && self.location
            == other.location
    }
}

impl vstd::std_specs::cmp::PartialEqSpecImpl for Dependency {
    open spec fn obeys_eq_spec() -> bool {
        true
    }

    open spec fn eq_spec(&self, other: &Dependency) -> bool {
        self@ == other@
    }
}

impl Clone for Dependency {
    fn clone(&self) -> (r: Self)
        ensures
            r == *self,
    {
        Dependency {
            id: self.id.clone(),
            load_time: self.load_time,
            location: self.location.clone(),
        }
    }
}

/// The views of a sequence of dependencies.
pub open spec fn deps_view(v: Seq<Dependency>) -> Seq<DependencyView> {
    v.map_values(|d: Dependency| d@)
}

proof fn lemma_deps_view_concat(a: Seq<Dependency>, b: Seq<Dependency>)
    ensures
        deps_view(a + b) == deps_view(a) + deps_view(b),
{
    assert(deps_view(a + b) =~= deps_view(a) + deps_view(b));
}

/// Whether some dependency of `list` has the view `d`.
fn contains_dep(list: &Vec<Dependency>, d: &Dependency) -> (r: bool)
    ensures
        r == deps_view(list@).contains(d@),
{
    let mut i: usize = 0;
    while i < list.len()
        invariant
            i <= list@.len(),
            forall|t: int| 0 <= t < i ==> deps_view(list@)[t] != d@,
        decreases list@.len() - i,
    {
        if list[i] == *d {
            proof {
                assert(deps_view(list@)[i as int] == d@);
            }
            return true;
        }
        i = i + 1;
    }
    false
}

/// Mathematical image of a [`Metadata`] document.
pub struct MetadataView {
    pub id: Seq<char>,
    pub attributes: Seq<Seq<char>>,
    pub location: Seq<char>,
    pub dependencies: Seq<(Seq<char>, DependencyView)>,
}

/// The declarative description of one module: its id, the attribute tags it
/// was served for, the base location of its binary, and its declared
/// dependencies, keyed by symbolic id.  Parsed once per module id and never
/// mutated afterwards.
pub struct Metadata {
    pub id: String,
    pub attributes: Vec<String>,
    pub location: String,
    pub dependencies: Vec<(String, Dependency)>,
}

impl View for Metadata {
    type V = MetadataView;

    open spec fn view(&self) -> MetadataView {
        MetadataView {
            id: self.id@,
            attributes: self.attributes.deep_view(),
            location: self.location@,
            dependencies: self.dependencies@.map_values(
                |p: (String, Dependency)| (p.0@, p.1@),
            ),
        }
    }
}

impl Metadata {
    pub fn new(
        id: String,
        attributes: Vec<String>,
        location: String,
        dependencies: Vec<(String, Dependency)>,
    ) -> (m: Metadata)
        ensures
            m@.id == id@,
            m@.attributes == attributes.deep_view(),
            m@.location == location@,
            m@.dependencies == dependencies@.map_values(|p: (String, Dependency)| (p.0@, p.1@)),
    {
        Metadata { id, attributes, location, dependencies }
    }
}

/// First match of `key` among the declared dependencies.
pub open spec fn spec_lookup_dependency(
    deps: Seq<(Seq<char>, DependencyView)>,
    key: Seq<char>,
) -> Option<DependencyView>
    decreases deps.len(),
{
    if deps.len() == 0 {
        None
    } else if deps[0].0 == key {
        Some(deps[0].1)
    } else {
        spec_lookup_dependency(deps.drop_first(), key)
    }
}

/// First match of `key` in the metadata table.
pub open spec fn spec_lookup_metadata(
    table: Seq<(Seq<char>, MetadataView)>,
    key: Seq<char>,
) -> Option<MetadataView>
    decreases table.len(),
{
    if table.len() == 0 {
        None
    } else if table[0].0 == key {
        Some(table[0].1)
    } else {
        spec_lookup_metadata(table.drop_first(), key)
    }
}

// ---------------------------------------------------------------------------
// Cached module names
// ---------------------------------------------------------------------------

/// The name has a module id ending at `k`: a non-empty prefix, one more
/// character, and then the letters of the cache file suffix.
pub open spec fn stem_at(n: Seq<char>, k: int) -> bool {
    &&& 1 <= k
    &&& k + 5 <= n.len()
    &&& n[k + 1] == 'w'
    &&& n[k + 2] == 'a'
    &&& n[k + 3] == 's'
    &&& n[k + 4] == 'm'
}

/// The least `k' >= k` at which a stem ends, if any.
pub open spec fn first_stem_end(n: Seq<char>, k: int) -> Option<int>
    decreases n.len() - k,
{
    if k < 1 || k + 5 > n.len() {
        None
    } else if stem_at(n, k) {
        Some(k)
    } else {
        first_stem_end(n, k + 1)
    }
}

/// The module id encoded in a cache file name: the shortest non-empty
/// prefix followed by one more character and the letters `wasm`.
pub open spec fn spec_stem(n: Seq<char>) -> Option<Seq<char>> {
    match first_stem_end(n, 1) {
        Some(k) => Some(n.subrange(0, k)),
        None => None,
    }
}

/// The module ids of a list of cache file names, in order, names without a
/// stem skipped.
pub open spec fn spec_stems(names: Seq<Seq<char>>) -> Seq<Seq<char>>
    decreases names.len(),
{
    if names.len() == 0 {
        Seq::empty()
    } else {
        match spec_stem(names[0]) {
            Some(st) => seq![st] + spec_stems(names.drop_first()),
            None => spec_stems(names.drop_first()),
        }
    }
}

/// The module id encoded in one cache file name, if any.
fn wasm_module_stem(name: &str) -> (r: Option<String>)
    ensures
        r is Some <==> spec_stem(name@) is Some,
        r matches Some(st) ==> spec_stem(name@) == Some(st@),
{
    let n = name.unicode_len();
    if n < 6 {
        proof {
            assert(first_stem_end(name@, 1) is None);
        }
        return None;
    }
    let mut k: usize = 1;
    while k <= n - 5
        invariant
            n == name@.len(),
            n >= 6,
            1 <= k,
            k <= n - 4,
            first_stem_end(name@, 1) == first_stem_end(name@, k as int),
        decreases n - k,
    {
        let c1 = name.get_char(k + 1);
        let c2 = name.get_char(k + 2);
        let c3 = name.get_char(k + 3);
        let c4 = name.get_char(k + 4);
        if c1 == 'w' && c2 == 'a' && c3 == 's' && c4 == 'm' {
            let st = name.substring_char(0, k).to_owned();
            proof {
                assert(stem_at(name@, k as int));
                assert(first_stem_end(name@, k as int) == Some(k as int));
            }
            return Some(st);
        }
        proof {
            assert(!stem_at(name@, k as int));
        }
        k = k + 1;
    }
    proof {
        assert(first_stem_end(name@, k as int) is None);
    }
    None
}

// ---------------------------------------------------------------------------
// The manager
// ---------------------------------------------------------------------------

/// Mathematical image of the [`Manager`] state.
pub struct ManagerView {
    pub metadata: Seq<(Seq<char>, MetadataView)>,
    pub attributes: Seq<Seq<char>>,
    pub cache: Option<Seq<char>>,
    pub modules: Seq<Seq<char>>,
}

/// The dependency manager: the metadata table, the attribute tags sent with
/// every metadata fetch, the cache directory, and the ids of the modules
/// whose binaries already sit in the cache.
pub struct Manager {
    pub metadata: Vec<(String, Metadata)>,
    pub attributes: Vec<String>,
    pub cache: Option<String>,
    pub modules: Vec<String>,
}

impl View for Manager {
    type V = ManagerView;

    open spec fn view(&self) -> ManagerView {
        ManagerView {
            metadata: self.metadata@.map_values(|p: (String, Metadata)| (p.0@, p.1@)),
            attributes: self.attributes.deep_view(),
            cache: match self.cache {
                Some(c) => Some(c@),
                None => None,
            },
            modules: self.modules.deep_view(),
        }
    }
}

/// A manager always has a cache directory.
pub open spec fn manager_wf(m: ManagerView) -> bool {
    m.cache is Some
}

/// Where the binary for one module comes from.  `Cache` names a file in the
/// cache directory; `Registry` names the location to fetch it from, after
/// which the caller stores it in the cache and reports that through
/// [`Manager::note_cached`].
pub enum BinarySource {
    Cache { path: String },
    Registry { url: String },
}

/// Mathematical image of a [`BinarySource`].
pub enum BinarySourceView {
    Cache { path: Seq<char> },
    Registry { url: Seq<char> },
}

impl View for BinarySource {
    type V = BinarySourceView;

    open spec fn view(&self) -> BinarySourceView {
        match self {
            BinarySource::Cache { path } => BinarySourceView::Cache { path: path@ },
            BinarySource::Registry { url } => BinarySourceView::Registry { url: url@ },
        }
    }
}

/// The cache file that holds the binary of `id`.
pub open spec fn spec_cache_path(m: ManagerView, id: Seq<char>) -> Seq<char> {
    m.cache.unwrap() + "/"@ + id + ".wasm"@
}

/// Where the binary of `id` comes from: the cache when the id is known to
/// be cached, else the location its metadata declares; `None` when neither
/// is known.
pub open spec fn spec_retrieve(m: ManagerView, id: Seq<char>) -> Option<BinarySourceView> {
    if m.modules.contains(id) {
        Some(BinarySourceView::Cache { path: spec_cache_path(m, id) })
    } else {
        match spec_lookup_metadata(m.metadata, id) {
            Some(md) => Some(BinarySourceView::Registry { url: md.location }),
            None => None,
        }
    }
}

impl Manager {
    /// Set up a manager from the root metadata document, the attribute
    /// tags of this platform, the cache directory, and the names of the
    /// files already in it (empty when the directory could not be read).
    pub fn new(
        root: Metadata,
        attributes: Vec<String>,
        cache: &Option<String>,
        cache_entries: Vec<String>,
    ) -> (m: Manager)
        requires
            cache is Some,
        ensures
            manager_wf(m@),
            m@.metadata =~= seq![(root@.id, root@)],
            m@.attributes == attributes.deep_view(),
            m@.cache == Some(cache.unwrap()@),
            m@.modules == spec_stems(cache_entries.deep_view()),
    {
        let modules = Manager::check_cached_modules(&cache_entries);
        let cache_dir = match cache {
            Some(c) => Some(c.clone()),
            None => {
                proof {
                    assert(false);
                }
                None
            },
        };
        let key = root.id.clone();
        let mut metadata: Vec<(String, Metadata)> = Vec::new();
        metadata.push((key, root));
        Manager { metadata, attributes, cache: cache_dir, modules }
    }

    /// The module ids encoded in the given cache file names.
    pub fn check_cached_modules(entries: &Vec<String>) -> (ids: Vec<String>)
        ensures
            ids.deep_view() == spec_stems(entries.deep_view()),
    {
        let mut ids: Vec<String> = Vec::new();
        let mut i: usize = 0;
        proof {
            assert(entries.deep_view().skip(0) =~= entries.deep_view());
            assert(ids.deep_view() =~= Seq::<Seq<char>>::empty());
            assert(ids.deep_view() + spec_stems(entries.deep_view()) =~= spec_stems(
                entries.deep_view(),
            ));
        }
        while i < entries.len()
            invariant
                i <= entries@.len(),
                spec_stems(entries.deep_view()) == ids.deep_view() + spec_stems(
                    entries.deep_view().skip(i as int),
                ),
            decreases entries@.len() - i,
        {
            let ghost before = entries.deep_view().skip(i as int);
            match wasm_module_stem(entries[i].as_str()) {
                Some(st) => {
                    ids.push(st);
                },
                None => {},
            }
            i = i + 1;
            proof {
                assert(before[0] == entries.deep_view()[i - 1]);
                assert(before.drop_first() =~= entries.deep_view().skip(i as int));
                assert(ids.deep_view() + spec_stems(entries.deep_view().skip(i as int))
                    =~= spec_stems(entries.deep_view()));
            }
        }
        proof {
            assert(entries.deep_view().skip(entries@.len() as int) =~= Seq::empty());
            assert(ids.deep_view() =~= spec_stems(entries.deep_view()));
        }
        ids
    }

    /// The index of the metadata entry for `key`, if one is known.
    fn find_metadata(&self, key: &str) -> (r: Option<usize>)
        ensures
            match r {
                Some(i) => i < self@.metadata.len() && spec_lookup_metadata(self@.metadata, key@)
                    == Some(self@.metadata[i as int].1) && self@.metadata[i as int].0 == key@,
                None => spec_lookup_metadata(self@.metadata, key@) is None,
            },
    {
        let mut i: usize = 0;
        proof {
            assert(self@.metadata.skip(0) =~= self@.metadata);
        }
        while i < self.metadata.len()
            invariant
                i <= self@.metadata.len(),
                self@.metadata.len() == self.metadata@.len(),
                spec_lookup_metadata(self@.metadata, key@) == spec_lookup_metadata(
                    self@.metadata.skip(i as int),
                    key@,
                ),
            decreases self.metadata@.len() - i,
        {
            let ghost before = self@.metadata.skip(i as int);
            proof {
                assert(before[0] == self@.metadata[i as int]);
                assert(before.drop_first() =~= self@.metadata.skip(i as int + 1));
            }
            if str_eq(self.metadata[i].0.as_str(), key) {
                return Some(i);
            }
            i = i + 1;
        }
        proof {
            assert(self@.metadata.skip(self@.metadata.len() as int) =~= Seq::empty());
        }
        None
    }

    /// Whether metadata for `id` is already known.
    pub fn has_metadata(&self, id: &str) -> (r: bool)
        ensures
            r == (spec_lookup_metadata(self@.metadata, id@) is Some),
    {
        match self.find_metadata(id) {
            Some(_) => true,
            None => false,
        }
    }

    /// Look up the dependency that `caller_module` declares under the
    /// symbolic id `id`.  Fails with `ModuleNotFound` when no metadata is
    /// known for the caller, and with `DependencyNotFound` when the caller
    /// declares no such dependency.  Purely a lookup: no outside work.
    pub fn resolve_id(&mut self, caller_module: &str, id: &str) -> (r: Result<Dependency, Error>)
        ensures
            *final(self) == *old(self),
            r is Ok <==> (match spec_lookup_metadata(old(self)@.metadata, caller_module@) {
                Some(md) => spec_lookup_dependency(md.dependencies, id@) is Some,
                None => false,
            }),
            r matches Ok(d) ==> Some(d@) == spec_lookup_dependency(
                spec_lookup_metadata(old(self)@.metadata, caller_module@).unwrap().dependencies,
                id@,
            ),
            r matches Err(e) ==> match e {
                Error::ModuleNotFound(m) => m@ == caller_module@ && spec_lookup_metadata(
                    old(self)@.metadata,
                    caller_module@,
                ) is None,
                Error::DependencyNotFound { module, dependency } => module@ == caller_module@
                    && dependency@ == id@ && spec_lookup_metadata(
                    old(self)@.metadata,
                    caller_module@,
                ) is Some,
                _ => false,
            },
    {
        let mi = match self.find_metadata(caller_module) {
            Some(mi) => mi,
            None => {
                return Err(Error::ModuleNotFound(caller_module.to_owned()));
            },
        };
        let module = &self.metadata[mi].1;
        let ghost deps = self@.metadata[mi as int].1.dependencies;
        proof {
            assert(self@.metadata[mi as int] == (self.metadata@[mi as int].0@,
            self.metadata@[mi as int].1@));
            assert(module@ == self@.metadata[mi as int].1);
            assert(spec_lookup_metadata(self@.metadata, caller_module@).unwrap().dependencies
                == deps);
        }
        let mut i: usize = 0;
        proof {
            assert(deps.skip(0) =~= deps);
        }
        while i < module.dependencies.len()
            invariant
                *self == *old(self),
                i <= module.dependencies@.len(),
                mi < self@.metadata.len(),
                module == &self.metadata@[mi as int].1,
                deps == module@.dependencies,
                deps.len() == module.dependencies@.len(),
                spec_lookup_metadata(self@.metadata, caller_module@) == Some(
                    self@.metadata[mi as int].1,
                ),
                spec_lookup_metadata(self@.metadata, caller_module@).unwrap().dependencies
                    == deps,
                spec_lookup_dependency(deps, id@) == spec_lookup_dependency(
                    deps.skip(i as int),
                    id@,
                ),
            decreases module.dependencies@.len() - i,
        {
            let ghost before = deps.skip(i as int);
            proof {
                assert(before[0] == deps[i as int]);
                assert(deps[i as int] == (module.dependencies@[i as int].0@,
                module.dependencies@[i as int].1@));
                assert(before.drop_first() =~= deps.skip(i as int + 1));
            }
            if str_eq(module.dependencies[i].0.as_str(), id) {
                let d = module.dependencies[i].1.clone();
                proof {
                    assert(deps[i as int].0 == id@);
                    assert(spec_lookup_dependency(deps.skip(i as int), id@) == Some(
                        deps[i as int].1,
                    ));
                    assert(d@ == deps[i as int].1);
                }
                return Ok(d);
            }
            i = i + 1;
        }
        proof {
            assert(deps.skip(deps.len() as int) =~= Seq::empty());
        }
        Err(
            Error::DependencyNotFound {
                module: caller_module.to_owned(),
                dependency: id.to_owned(),
            },
        )
    }

    /// The attribute tags sent with every metadata fetch.
    pub fn get_attributes(&self) -> (r: Vec<String>)
        ensures
            r.deep_view() == self@.attributes,
    {
        let r = self.attributes.clone();
        proof {
            assert(r@ =~= self.attributes@);
            assert(r.deep_view() =~= self.attributes.deep_view());
        }
        r
    }

    /// Record that the binary for `module` now sits in the cache.
    pub fn note_cached(&mut self, module: &str)
        ensures
            final(self)@.modules == old(self)@.modules.push(module@),
            final(self)@.metadata == old(self)@.metadata,
            final(self)@.attributes == old(self)@.attributes,
            final(self)@.cache == old(self)@.cache,
    {
        self.modules.push(module.to_owned());
        proof {
            assert(final(self)@.modules =~= old(self)@.modules.push(module@));
        }
    }

    /// Whether the binary for `choice` already sits in the cache.
    fn is_cached(&self, choice: &str) -> (r: bool)
        ensures
            r == self@.modules.contains(choice@),
    {
        let mut i: usize = 0;
        while i < self.modules.len()
            invariant
                i <= self.modules@.len(),
                forall|t: int| 0 <= t < i ==> self@.modules[t] != choice@,
            decreases self.modules@.len() - i,
        {
            let hit = str_eq(self.modules[i].as_str(), choice);
            proof {
                assert(self@.modules[i as int] == self.modules@[i as int]@);
            }
            if hit {
                proof {
                    assert(self@.modules[i as int] == choice@);
                }
                return true;
            }
            i = i + 1;
        }
        proof {
            assert(!self@.modules.contains(choice@));
        }
        false
    }

    /// Decide where the binary for `choice` comes from: the cache when its
    /// id is cached, else the location its metadata declares.
    pub fn retrieve_binary(&mut self, choice: &str) -> (r: Result<BinarySource, Error>)
        requires
            manager_wf(old(self)@),
        ensures
            *final(self) == *old(self),
            r is Ok <==> spec_retrieve(old(self)@, choice@) is Some,
            r matches Ok(src) ==> spec_retrieve(old(self)@, choice@) == Some(src@),
            r matches Err(e) ==> e matches Error::ModuleNotFound(m) && m@ == choice@,
    {
        let cached = self.is_cached(choice);
        if cached {
            let dir = match &self.cache {
                Some(c) => c,
                None => {
                    proof {
                        assert(false);
                    }
                    vstd::pervasive::unreached()
                },
            };
            let mut path = dir.clone();
            path.append("/");
            path.append(choice);
            path.append(".wasm");
            return Ok(BinarySource::Cache { path });
        }
        match self.find_metadata(choice) {
            Some(mi) => {
                let url = self.metadata[mi].1.location.clone();
                Ok(BinarySource::Registry { url })
            },
            None => Err(Error::ModuleNotFound(choice.to_owned())),
        }
    }

    /// Where the binary of the entrypoint module comes from.
    pub fn load_main(&mut self, name: &str) -> (r: Result<BinarySource, Error>)
        requires
            manager_wf(old(self)@),
        ensures
            *final(self) == *old(self),
            r is Ok <==> spec_retrieve(old(self)@, name@) is Some,
            r matches Ok(src) ==> spec_retrieve(old(self)@, name@) == Some(src@),
            r matches Err(e) ==> e matches Error::ModuleNotFound(m) && m@ == name@,
    {
        self.retrieve_binary(name)
    }

    /// Decide, for every entry of the closure, where its binary comes
    /// from, in order.  Fails with `ModuleNotFound` on the first entry that
    /// is neither cached nor described by any metadata.
    pub fn load_all_dependencies(&mut self, dependencies: &Vec<Dependency>) -> (r: Result<
        Vec<(Dependency, BinarySource)>,
        Error,
    >)
        requires
            manager_wf(old(self)@),
        ensures
            *final(self) == *old(self),
            r is Ok <==> (forall|i: int| 0 <= i < dependencies@.len() ==> spec_retrieve(
                old(self)@,
                #[trigger] dependencies@[i]@.id,
            ) is Some),
            r matches Ok(plan) ==> plan@.len() == dependencies@.len() && (forall|i: int|
                0 <= i < plan@.len() ==> (#[trigger] plan@[i].0)@ == dependencies@[i]@
                    && Some(plan@[i].1@) == spec_retrieve(old(self)@, dependencies@[i]@.id)),
            r matches Err(e) ==> exists|i: int| 0 <= i < dependencies@.len() && spec_retrieve(
                old(self)@,
                #[trigger] dependencies@[i]@.id,
            ) is None && (e matches Error::ModuleNotFound(m) && m@ == dependencies@[i]@.id),
    {
        let mut plan: Vec<(Dependency, BinarySource)> = Vec::new();
        let mut i: usize = 0;
        while i < dependencies.len()
            invariant
                manager_wf(self@),
                *self == *old(self),
                i <= dependencies@.len(),
                plan@.len() == i,
                forall|t: int| 0 <= t < i ==> (#[trigger] plan@[t].0)@ == dependencies@[t]@
                    && Some(plan@[t].1@) == spec_retrieve(self@, dependencies@[t]@.id),
            decreases dependencies@.len() - i,
        {
            let d = dependencies[i].clone();
            match self.retrieve_binary(d.id.as_str()) {
                Ok(src) => {
                    proof {
                        assert(d@ == dependencies@[i as int]@);
                    }
                    plan.push((d, src));
                },
                Err(e) => {
                    proof {
                        assert(spec_retrieve(old(self)@, dependencies@[i as int]@.id) is None);
                    }
                    return Err(e);
                },
            }
            i = i + 1;
        }
        proof {
            assert forall|t: int| 0 <= t < dependencies@.len() implies spec_retrieve(
                old(self)@,
                #[trigger] dependencies@[t]@.id,
            ) is Some by {
                assert((#[trigger] plan@[t].0)@ == dependencies@[t]@);
                assert(Some(plan@[t].1@) == spec_retrieve(old(self)@, dependencies@[t]@.id));
            }
        }
        Ok(plan)
    }
}


// ---------------------------------------------------------------------------
// The eager-dependency closure
// ---------------------------------------------------------------------------

/// The load-time dependencies that `entries` declares and that are not yet
/// among `choices`, in declaration order.
pub open spec fn spec_new_deps(
    entries: Seq<(Seq<char>, DependencyView)>,
    choices: Seq<DependencyView>,
) -> Seq<DependencyView>
    decreases entries.len(),
{
    if entries.len() == 0 {
        Seq::empty()
    } else {
        let d = entries[0].1;
        let rest = spec_new_deps(entries.drop_first(), choices);
        if d.load_time && !choices.contains(d) {
            seq![d] + rest
        } else {
            rest
        }
    }
}

/// Mathematical image of a [`LoadState`].
pub struct LoadStateView {
    pub choices: Seq<DependencyView>,
    pub work: Seq<DependencyView>,
}

/// The running state of one eager-closure computation: the dependency list
/// discovered so far, in first-discovered order, and the entries whose
/// declared dependencies are still to be walked, depth first.
pub struct LoadState {
    pub choices: Vec<Dependency>,
    pub work: Vec<Dependency>,
}

impl View for LoadState {
    type V = LoadStateView;

    open spec fn view(&self) -> LoadStateView {
        LoadStateView { choices: deps_view(self.choices@), work: deps_view(self.work@) }
    }
}

/// What one step of the closure walk asks of the caller.
pub enum GatherStep {
    /// Metadata for module `id` must be fetched from `location` and handed
    /// back through [`Manager::supply_metadata`].
    FetchMetadata { id: String, location: String },
    /// The front entry's metadata was known and its dependencies have been
    /// walked.
    Expanded,
    /// No work is left: the closure is complete.
    Done,
}

/// Mathematical image of a [`GatherStep`].
pub enum GatherStepView {
    FetchMetadata { id: Seq<char>, location: Seq<char> },
    Expanded,
    Done,
}

impl View for GatherStep {
    type V = GatherStepView;

    open spec fn view(&self) -> GatherStepView {
        match self {
            GatherStep::FetchMetadata { id, location } => GatherStepView::FetchMetadata {
                id: id@,
                location: location@,
            },
            GatherStep::Expanded => GatherStepView::Expanded,
            GatherStep::Done => GatherStepView::Done,
        }
    }
}

/// One step of the closure walk, as a function of the metadata table and
/// the walk state alone.
pub open spec fn spec_advance(m: ManagerView, st: LoadStateView) -> (GatherStepView, LoadStateView) {
    if st.work.len() == 0 {
        (GatherStepView::Done, st)
    } else {
        let d = st.work[0];
        match spec_lookup_metadata(m.metadata, d.id) {
            None => (GatherStepView::FetchMetadata { id: d.id, location: d.location }, st),
            Some(md) => (
                GatherStepView::Expanded,
                LoadStateView {
                    choices: st.choices + spec_new_deps(md.dependencies, st.choices),
                    work: spec_new_deps(md.dependencies, st.choices) + st.work.drop_first(),
                },
            ),
        }
    }
}

/// Recording fetched metadata, as a function of the table, the walk state
/// and the document: the document is filed under the id of the front work
/// item, whose dependencies are then walked.
pub open spec fn spec_supply(m: ManagerView, st: LoadStateView, md: MetadataView) -> (
    ManagerView,
    LoadStateView,
) {
    let m2 = ManagerView {
        metadata: m.metadata.push((st.work[0].id, md)),
        attributes: m.attributes,
        cache: m.cache,
        modules: m.modules,
    };
    let st2 = LoadStateView {
        choices: st.choices + spec_new_deps(md.dependencies, st.choices),
        work: spec_new_deps(md.dependencies, st.choices) + st.work.drop_first(),
    };
    (m2, st2)
}

/// Walk the declared dependencies of one module: the load-time ones not
/// already chosen are appended to `choices` and prepended to `work`.
fn expand_module(md: &Metadata, choices: &mut Vec<Dependency>, work: &mut Vec<Dependency>)
    ensures
        deps_view(final(choices)@) == deps_view(old(choices)@) + spec_new_deps(
            md@.dependencies,
            deps_view(old(choices)@),
        ),
        deps_view(final(work)@) == spec_new_deps(md@.dependencies, deps_view(old(choices)@))
            + deps_view(old(work)@),
{
    let ghost snap = deps_view(old(choices)@);
    let ghost entries = md@.dependencies;
    let mut fresh: Vec<Dependency> = Vec::new();
    let mut i: usize = 0;
    proof {
        assert(entries.skip(0) =~= entries);
        assert(deps_view(fresh@) =~= Seq::<DependencyView>::empty());
        assert(deps_view(fresh@) + spec_new_deps(entries, snap) =~= spec_new_deps(
            entries,
            snap,
        ));
    }
    while i < md.dependencies.len()
        invariant
            *choices == *old(choices),
            entries == md@.dependencies,
            entries.len() == md.dependencies@.len(),
            snap == deps_view(choices@),
            i <= md.dependencies@.len(),
            spec_new_deps(entries, snap) == deps_view(fresh@) + spec_new_deps(
                entries.skip(i as int),
                snap,
            ),
        decreases md.dependencies@.len() - i,
    {
        let ghost before = entries.skip(i as int);
        proof {
            assert(before[0] == entries[i as int]);
            assert(entries[i as int] == (md.dependencies@[i as int].0@,
            md.dependencies@[i as int].1@));
            assert(before.drop_first() =~= entries.skip(i as int + 1));
        }
        let d = &md.dependencies[i].1;
        if d.load_time && !contains_dep(choices, d) {
            let ghost prev = fresh@;
            fresh.push(d.clone());
            proof {
                assert(deps_view(fresh@) =~= deps_view(prev).push(d@));
                assert(deps_view(prev).push(d@) =~= deps_view(prev) + seq![d@]);
                assert((deps_view(prev) + seq![d@]) + spec_new_deps(entries.skip(i as int + 1), snap)
                    =~= deps_view(prev) + (seq![d@] + spec_new_deps(
                    entries.skip(i as int + 1),
                    snap,
                )));
            }
        }
        i = i + 1;
    }
    proof {
        assert(entries.skip(entries.len() as int) =~= Seq::empty());
        assert(spec_new_deps(entries, snap) == deps_view(fresh@) + spec_new_deps(
            Seq::empty(),
            snap,
        ));
        assert(deps_view(fresh@) + Seq::empty() =~= deps_view(fresh@));
        assert(spec_new_deps(entries, snap) == deps_view(fresh@));
    }
    let ghost fresh_vals = fresh@;
    let mut t: usize = 0;
    proof {
        assert(choices@ + fresh@.take(0) =~= choices@);
    }
    while t < fresh.len()
        invariant
            t <= fresh@.len(),
            fresh@ == fresh_vals,
            choices@ == old(choices)@ + fresh@.take(t as int),
        decreases fresh@.len() - t,
    {
        choices.push(fresh[t].clone());
        proof {
            assert(choices@ =~= old(choices)@ + fresh@.take(t as int + 1));
        }
        t = t + 1;
    }
    proof {
        assert(fresh@.take(fresh@.len() as int) =~= fresh@);
        lemma_deps_view_concat(old(choices)@, fresh@);
        assert(deps_view(choices@) == snap + spec_new_deps(entries, snap));
    }
    let mut gathered = fresh;
    gathered.append(work);
    proof {
        lemma_deps_view_concat(fresh_vals, old(work)@);
    }
    *work = gathered;
}

impl Manager {
    /// Begin loading `standalone` together with everything it eagerly
    /// depends on: the closure walk starts with the root as its first
    /// discovered entry.  The caller drives the walk with
    /// [`Manager::load_advance`] and [`Manager::supply_metadata`],
    /// performing the fetches those ask for, and afterwards acquires the
    /// binaries of the finished dependency list in order.
    pub fn load(&mut self, standalone: Dependency) -> (st: LoadState)
        ensures
            *final(self) == *old(self),
            st@.choices == seq![standalone@],
            st@.work == seq![standalone@],
    {
        let ghost sv = standalone@;
        let copy = standalone.clone();
        let mut choices: Vec<Dependency> = Vec::new();
        choices.push(standalone);
        let mut work: Vec<Dependency> = Vec::new();
        work.push(copy);
        let st = LoadState { choices, work };
        proof {
            assert(st@.choices =~= seq![sv]);
            assert(st@.work =~= seq![sv]);
        }
        st
    }

    /// One step of the closure walk: expand the front entry when its
    /// metadata is known, else ask the caller to fetch that metadata.
    pub fn load_advance(&self, st: &mut LoadState) -> (step: GatherStep)
        ensures
            (step@, final(st)@) == spec_advance(self@, old(st)@),
    {
        if st.work.len() == 0 {
            return GatherStep::Done;
        }
        proof {
            assert(old(st)@.work[0] == st.work@[0]@);
        }
        let head_id = st.work[0].id.clone();
        match self.find_metadata(head_id.as_str()) {
            None => {
                let location = st.work[0].location.clone();
                GatherStep::FetchMetadata { id: head_id, location }
            },
            Some(mi) => {
                let ghost prev_work = st.work@;
                let _front = st.work.remove(0);
                proof {
                    assert(deps_view(st.work@) =~= deps_view(prev_work).drop_first());
                }
                let module = &self.metadata[mi].1;
                proof {
                    assert(self@.metadata[mi as int] == (self.metadata@[mi as int].0@,
                    self.metadata@[mi as int].1@));
                }
                expand_module(module, &mut st.choices, &mut st.work);
                GatherStep::Expanded
            },
        }
    }

    /// Record the metadata fetched for the front work item: file it under
    /// that item's id and walk the item's dependencies.
    pub fn supply_metadata(&mut self, st: &mut LoadState, md: Metadata)
        requires
            old(st)@.work.len() > 0,
            spec_lookup_metadata(old(self)@.metadata, old(st)@.work[0].id) is None,
        ensures
            (final(self)@, final(st)@) == spec_supply(old(self)@, old(st)@, md@),
    {
        let ghost prev_work = st.work@;
        let front = st.work.remove(0);
        proof {
            assert(deps_view(st.work@) =~= deps_view(prev_work).drop_first());
            assert(old(st)@.work[0] == prev_work[0]@);
        }
        expand_module(&md, &mut st.choices, &mut st.work);
        let ghost mdv = md@;
        self.metadata.push((front.id, md));
        proof {
            assert(final(self)@.metadata =~= old(self)@.metadata.push((prev_work[0]@.id, mdv)));
        }
    }
}

/// Determinism of the closure walk: the step taken and the successor state
/// are functions of the metadata table and the walk state alone, so a
/// `load` run twice against identical metadata discovers the dependency
/// list in identical order.
pub proof fn lemma_load_deterministic(m1: ManagerView, m2: ManagerView, st: LoadStateView)
    requires
        m1.metadata == m2.metadata,
    ensures
        spec_advance(m1, st) == spec_advance(m2, st),
{
}


} // verus!
