use vstd::prelude::*;
use vstd::set_lib::{lemma_int_range, lemma_len_subset, set_int_range};
use crate::package::{install_dir, NpmConfig, NpmManifest, Package, PackageView};
use crate::text::strings_equal;
use vstd::string::StringExecFns;

verus! {

broadcast use vstd::std_specs::vec::group_vec_axioms;

/// A dependency declaration: a package name and a version specifier.
pub struct Requirement {
    pub name: String,
    pub version: String,
}

impl View for Requirement {
    type V = (Seq<char>, Seq<char>);

    open spec fn view(&self) -> (Seq<char>, Seq<char>) {
        (self.name@, self.version@)
    }
}

/// The name and version of each declaration.
pub open spec fn decl_views(v: Seq<Requirement>) -> Seq<(Seq<char>, Seq<char>)> {
    v.map_values(|d: Requirement| d@)
}

/// What the registry reported for one name and version: the manifest and
/// the package's own declared dependencies.
pub struct RegistryEntry {
    pub name: String,
    pub version: String,
    pub manifest: NpmManifest,
    pub dependencies: Vec<Requirement>,
}

/// The model of a `RegistryEntry`.
pub struct EntryView {
    pub name: Seq<char>,
    pub version: Seq<char>,
    pub tarball: Seq<char>,
    pub integrity: Seq<char>,
    pub dependencies: Seq<(Seq<char>, Seq<char>)>,
}

impl View for RegistryEntry {
    type V = EntryView;

    open spec fn view(&self) -> EntryView {
        EntryView {
            name: self.name@,
            version: self.version@,
            tarball: self.manifest.tarball@,
            integrity: self.manifest.integrity@,
            dependencies: decl_views(self.dependencies@),
        }
    }
}

/// Everything fetched from the registry so far, at most one entry per
/// name and version.
pub struct Registry {
    pub entries: Vec<RegistryEntry>,
}

impl View for Registry {
    type V = Seq<EntryView>;

    open spec fn view(&self) -> Seq<EntryView> {
        self.entries@.map_values(|e: RegistryEntry| e@)
    }
}

pub open spec fn has_key(reg: Seq<EntryView>, i: int, name: Seq<char>, version: Seq<char>) -> bool {
    0 <= i < reg.len() && reg[i].name == name && reg[i].version == version
}

/// No two entries share a name and version.
pub open spec fn keys_unique(reg: Seq<EntryView>) -> bool {
    forall|i: int, j: int|
        0 <= i < reg.len() && 0 <= j < reg.len() && #[trigger] reg[i].name == #[trigger] reg[j].name
            && reg[i].version == reg[j].version ==> i == j
}

impl Registry {
    /// At most one entry per name and version.
    pub open spec fn wf(&self) -> bool {
        keys_unique(self@)
    }
}

/// The entry for a name and version, or -1.
pub open spec fn lookup_index(reg: Seq<EntryView>, name: Seq<char>, version: Seq<char>) -> int {
    if exists|i: int| has_key(reg, i, name, version) {
        choose|i: int| has_key(reg, i, name, version)
    } else {
        -1
    }
}

/// Why a dependency set could not be resolved.
pub enum Failure {
    /// The registry has no entry for this name and version.
    NotFound(Seq<char>, Seq<char>),
    /// This name and version depends on itself.
    Cycle(Seq<char>, Seq<char>),
}

/// Why a dependency set could not be resolved; modelled by `Failure`.
pub enum ResolveError {
    NotFound { name: String, version: String },
    Cycle { name: String, version: String },
}

impl View for ResolveError {
    type V = Failure;

    open spec fn view(&self) -> Failure {
        match self {
            ResolveError::NotFound { name, version } => Failure::NotFound(name@, version@),
            ResolveError::Cycle { name, version } => Failure::Cycle(name@, version@),
        }
    }
}

/// The entries being resolved, outermost first: distinct and in range.
pub open spec fn path_ok(reg: Seq<EntryView>, path: Seq<int>) -> bool {
    &&& path.no_duplicates()
    &&& forall|k: int| 0 <= k < path.len() ==> 0 <= #[trigger] path[k] < reg.len()
}

/// A path of distinct entries is no longer than the registry.
pub proof fn lemma_path_len(reg: Seq<EntryView>, path: Seq<int>)
    requires
        path_ok(reg, path),
    ensures
        path.len() <= reg.len(),
{
    path.unique_seq_to_set();
    lemma_int_range(0, reg.len() as int);
    assert(path.to_set().subset_of(set_int_range(0, reg.len() as int)));
    lemma_len_subset(path.to_set(), set_int_range(0, reg.len() as int));
}

/// The first failure met when resolving `name` at `version` below the
/// entries of `path`, depth first; `None` when there is none.
pub open spec fn check_node(reg: Seq<EntryView>, name: Seq<char>, version: Seq<char>, path: Seq<int>) -> Option<Failure>
    decreases reg.len() - path.len(), 1int, 0int,
    when path_ok(reg, path)
{
    let i = lookup_index(reg, name, version);
    if i < 0 {
        Some(Failure::NotFound(name, version))
    } else if path.contains(i) {
        Some(Failure::Cycle(name, version))
    } else {
        check_deps(reg, i, 0, path.push(i))
    }
}

/// The first failure met among the dependencies of entry `i` from the
/// `j`-th on; `path` ends with `i`.
pub open spec fn check_deps(reg: Seq<EntryView>, i: int, j: int, path: Seq<int>) -> Option<Failure>
    decreases reg.len() - path.len() + 1, 0int, reg[i].dependencies.len() - j,
    when path_ok(reg, path) && 0 <= i < reg.len() && 0 <= j
    via check_deps_decreases
{
    if j >= reg[i].dependencies.len() {
        None
    } else {
        let d = reg[i].dependencies[j];
        match check_node(reg, d.0, d.1, path) {
            Some(f) => Some(f),
            None => check_deps(reg, i, j + 1, path),
        }
    }
}

#[via_fn]
proof fn check_deps_decreases(reg: Seq<EntryView>, i: int, j: int, path: Seq<int>) {
    lemma_path_len(reg, path);
}

/// `p` is entry `i` fully resolved: its manifest, then each declared
/// dependency in order, resolved the same way and marked indirect.
pub open spec fn resolved_tree(reg: Seq<EntryView>, p: PackageView, i: int, indirect: bool) -> bool
    decreases p,
{
    &&& 0 <= i < reg.len()
    &&& p.name == reg[i].name
    &&& p.version == reg[i].version
    &&& p.tarball == reg[i].tarball
    &&& p.integrity == reg[i].integrity
    &&& p.indirect == indirect
    &&& p.dependencies.len() == reg[i].dependencies.len()
    &&& forall|j: int|
        0 <= j < p.dependencies.len() ==> resolved_tree(
            reg,
            #[trigger] p.dependencies[j],
            lookup_index(reg, reg[i].dependencies[j].0, reg[i].dependencies[j].1),
            true,
        )
}

/// The first failure met when resolving the declarations from the `k`-th
/// on, in order.
pub open spec fn first_failure(reg: Seq<EntryView>, decls: Seq<(Seq<char>, Seq<char>)>, k: int) -> Option<Failure>
    decreases decls.len() - k,
{
    if k < 0 || k >= decls.len() {
        None
    } else {
        match check_node(reg, decls[k].0, decls[k].1, Seq::empty()) {
            Some(f) => Some(f),
            None => first_failure(reg, decls, k + 1),
        }
    }
}

pub open spec fn as_ints(path: Seq<usize>) -> Seq<int> {
    path.map_values(|x: usize| x as int)
}

/// Marking the root indirect keeps a resolved tree resolved.
proof fn lemma_resolved_as_indirect(reg: Seq<EntryView>, p: PackageView, i: int, indirect: bool)
    requires
        resolved_tree(reg, p, i, indirect),
    ensures
        resolved_tree(reg, p.as_indirect(), i, true),
{
    let q = p.as_indirect();
    assert(q.dependencies == p.dependencies);
}

impl Registry {
    /// The position of the entry for a name and version.
    pub fn find(&self, name: &String, version: &String) -> (r: Option<usize>)
        requires
            self.wf(),
        ensures
            match r {
                Some(i) => i as int == lookup_index(self@, name@, version@),
                None => lookup_index(self@, name@, version@) == -1,
            },
    {
        let mut i: usize = 0;
        while i < self.entries.len()
            invariant
                self.wf(),
                i <= self.entries@.len(),
                forall|k: int| 0 <= k < i ==> !has_key(self@, k, name@, version@),
            decreases self.entries@.len() - i,
        {
            if strings_equal(self.entries[i].name.as_str(), name.as_str())
                && strings_equal(self.entries[i].version.as_str(), version.as_str())
            {
                proof {
                    assert(has_key(self@, i as int, name@, version@));
                    let c = choose|c: int| has_key(self@, c, name@, version@);
                    assert(self@[c].name == self@[i as int].name);
                }
                return Some(i);
            }
            i = i + 1;
        }
        None
    }
}

fn path_contains(path: &Vec<usize>, i: usize) -> (r: bool)
    ensures
        r == as_ints(path@).contains(i as int),
{
    let mut k: usize = 0;
    while k < path.len()
        invariant
            k <= path@.len(),
            forall|m: int| 0 <= m < k ==> path@[m] != i,
        decreases path@.len() - k,
    {
        if path[k] == i {
            assert(as_ints(path@)[k as int] == i as int);
            return true;
        }
        k = k + 1;
    }
    false
}

/// Resolves `name` at `version` below the entries of `path`.
fn resolve_node(reg: &Registry, name: &String, version: &String, path: &Vec<usize>) -> (r: Result<Package, ResolveError>)
    requires
        reg.wf(),
        path_ok(reg@, as_ints(path@)),
    ensures
        match r {
            Ok(p) => check_node(reg@, name@, version@, as_ints(path@)) is None && resolved_tree(
                reg@,
                p@,
                lookup_index(reg@, name@, version@),
                false,
            ),
            Err(e) => check_node(reg@, name@, version@, as_ints(path@)) == Some(e@),
        },
    decreases reg@.len() - path@.len(), 1int, 0int,
{
    match reg.find(name, version) {
        None => Err(ResolveError::NotFound { name: name.clone(), version: version.clone() }),
        Some(i) => {
            if path_contains(path, i) {
                return Err(ResolveError::Cycle { name: name.clone(), version: version.clone() });
            }
            let mut child = path.clone();
            child.push(i);
            proof {
                assert(as_ints(child@) =~= as_ints(path@).push(i as int));
                assert forall|a: int, b: int| 0 <= a < b < as_ints(child@).len() implies as_ints(child@)[a]
                    != as_ints(child@)[b] by {
                    if b < path@.len() {
                        assert(as_ints(path@)[a] != as_ints(path@)[b]);
                    } else {
                        assert(as_ints(path@)[a] != i as int);
                    }
                }
            }
            match resolve_deps(reg, i, &child) {
                Err(e) => Err(e),
                Ok(deps) => {
                    let ghost dv = deps@;
                    let mut p = Package::new(name.clone(), version.clone(), reg.entries[i].manifest.clone());
                    p.get_deps(NpmConfig::new(deps));
                    proof {
                        let idx = i as int;
                        assert forall|j: int| 0 <= j < p@.dependencies.len() implies resolved_tree(
                            reg@,
                            #[trigger] p@.dependencies[j],
                            lookup_index(reg@, reg@[idx].dependencies[j].0, reg@[idx].dependencies[j].1),
                            true,
                        ) by {
                            assert(p@.dependencies[j] == dv[j]@.as_indirect());
                            lemma_resolved_as_indirect(
                                reg@,
                                dv[j]@,
                                lookup_index(reg@, reg@[idx].dependencies[j].0, reg@[idx].dependencies[j].1),
                                false,
                            );
                        }
                    }
                    Ok(p)
                },
            }
        },
    }
}

/// Resolves the declared dependencies of entry `i`; `path` ends with `i`.
fn resolve_deps(reg: &Registry, i: usize, path: &Vec<usize>) -> (r: Result<Vec<Package>, ResolveError>)
    requires
        reg.wf(),
        path_ok(reg@, as_ints(path@)),
        i < reg@.len(),
    ensures
        match r {
            Ok(v) => check_deps(reg@, i as int, 0, as_ints(path@)) is None && v@.len()
                == reg@[i as int].dependencies.len() && forall|j: int|
                0 <= j < v@.len() ==> resolved_tree(
                    reg@,
                    (#[trigger] v@[j])@,
                    lookup_index(reg@, reg@[i as int].dependencies[j].0, reg@[i as int].dependencies[j].1),
                    false,
                ),
            Err(e) => check_deps(reg@, i as int, 0, as_ints(path@)) == Some(e@),
        },
    decreases reg@.len() - path@.len() + 1, 0int, 0int,
{
    let entry = &reg.entries[i];
    let n = entry.dependencies.len();
    let mut out: Vec<Package> = Vec::new();
    let mut j: usize = 0;
    proof {
        lemma_path_len(reg@, as_ints(path@));
    }
    while j < n
        invariant
            reg.wf(),
            path_ok(reg@, as_ints(path@)),
            as_ints(path@).len() <= reg@.len(),
            i < reg@.len(),
            entry == reg.entries@[i as int],
            n == reg@[i as int].dependencies.len(),
            j <= n,
            out@.len() == j,
            check_deps(reg@, i as int, 0, as_ints(path@)) == check_deps(reg@, i as int, j as int, as_ints(path@)),
            forall|k: int|
                0 <= k < j ==> resolved_tree(
                    reg@,
                    (#[trigger] out@[k])@,
                    lookup_index(reg@, reg@[i as int].dependencies[k].0, reg@[i as int].dependencies[k].1),
                    false,
                ),
        decreases n - j,
    {
        let d = &entry.dependencies[j];
        assert(reg@[i as int].dependencies[j as int] == d@);
        match resolve_node(reg, &d.name, &d.version, path) {
            Err(e) => {
                return Err(e);
            },
            Ok(p) => {
                out.push(p);
            },
        }
        j = j + 1;
    }
    Ok(out)
}

/// Resolves each declared top-level package, in order, into a tree of its
/// dependencies; fails on the first name and version that the registry
/// lacks, or that depends on itself.
pub fn resolve(declared: &Vec<Requirement>, registry: &Registry) -> (r: Result<Vec<Package>, ResolveError>)
    requires
        registry.wf(),
    ensures
        match r {
            Ok(v) => first_failure(registry@, decl_views(declared@), 0) is None
                && v@.len() == declared@.len() && forall|k: int|
                0 <= k < v@.len() ==> resolved_tree(
                    registry@,
                    (#[trigger] v@[k])@,
                    lookup_index(registry@, declared@[k].name@, declared@[k].version@),
                    false,
                ),
            Err(e) => first_failure(registry@, decl_views(declared@), 0) == Some(e@),
        },
{
    let ghost decls = decl_views(declared@);
    let empty: Vec<usize> = Vec::new();
    assert(as_ints(empty@) =~= Seq::<int>::empty());
    let mut out: Vec<Package> = Vec::new();
    let mut k: usize = 0;
    while k < declared.len()
        invariant
            registry.wf(),
            empty@.len() == 0,
            as_ints(empty@) == Seq::<int>::empty(),
            decls == decl_views(declared@),
            k <= declared@.len(),
            out@.len() == k,
            first_failure(registry@, decls, 0) == first_failure(registry@, decls, k as int),
            forall|m: int|
                0 <= m < k ==> resolved_tree(
                    registry@,
                    (#[trigger] out@[m])@,
                    lookup_index(registry@, declared@[m].name@, declared@[m].version@),
                    false,
                ),
        decreases declared@.len() - k,
    {
        let d = &declared[k];
        match resolve_node(registry, &d.name, &d.version, &empty) {
            Err(e) => {
                return Err(e);
            },
            Ok(p) => {
                out.push(p);
            },
        }
        k = k + 1;
    }
    Ok(out)
}

/// Every declaration that resolution will look up, in order: the
/// top-level ones, then those of each entry.
pub open spec fn all_deps_from(reg: Seq<EntryView>, e: int) -> Seq<(Seq<char>, Seq<char>)>
    decreases reg.len() - e,
{
    if e < 0 || e >= reg.len() {
        Seq::empty()
    } else {
        reg[e].dependencies + all_deps_from(reg, e + 1)
    }
}

/// The first of `keys` that the registry has no entry for.
pub open spec fn first_missing(reg: Seq<EntryView>, keys: Seq<(Seq<char>, Seq<char>)>) -> Option<(Seq<char>, Seq<char>)>
    decreases keys.len(),
{
    if keys.len() == 0 {
        None
    } else if lookup_index(reg, keys[0].0, keys[0].1) < 0 {
        Some(keys[0])
    } else {
        first_missing(reg, keys.drop_first())
    }
}

proof fn lemma_first_missing_concat(
    reg: Seq<EntryView>,
    a: Seq<(Seq<char>, Seq<char>)>,
    b: Seq<(Seq<char>, Seq<char>)>,
)
    ensures
        first_missing(reg, a + b) == match first_missing(reg, a) {
            Some(k) => Some(k),
            None => first_missing(reg, b),
        },
    decreases a.len(),
{
    if a.len() > 0 {
        assert((a + b).drop_first() =~= a.drop_first() + b);
        assert((a + b)[0] == a[0]);
        lemma_first_missing_concat(reg, a.drop_first(), b);
    } else {
        assert(a + b =~= b);
    }
}

impl Registry {
    pub fn new() -> (r: Registry)
        ensures
            r@ == Seq::<EntryView>::empty(),
            r.wf(),
    {
        let r = Registry { entries: Vec::new() };
        assert(r@ =~= Seq::<EntryView>::empty());
        r
    }

    /// Records what the registry reported for one name and version,
    /// replacing an earlier report for the same pair.
    pub fn insert(&mut self, entry: RegistryEntry)
        requires
            old(self).wf(),
        ensures
            final(self).wf(),
            ({
                let i = lookup_index(old(self)@, entry.name@, entry.version@);
                if i >= 0 {
                    final(self)@ == old(self)@.update(i, entry@)
                } else {
                    final(self)@ == old(self)@.push(entry@)
                }
            }),
    {
        let ghost before = self@;
        match self.find(&entry.name, &entry.version) {
            Some(i) => {
                let ghost v = entry@;
                self.entries.set(i, entry);
                assert(self@ =~= before.update(i as int, v));
            },
            None => {
                let ghost v = entry@;
                self.entries.push(entry);
                assert(self@ =~= before.push(v));
                assert forall|a: int, b: int|
                    0 <= a < self@.len() && 0 <= b < self@.len() && #[trigger] self@[a].name
                        == #[trigger] self@[b].name && self@[a].version == self@[b].version implies a == b by {
                    if a == before.len() as int && b < before.len() {
                        assert(has_key(before, b, v.name, v.version));
                    } else if b == before.len() as int && a < before.len() {
                        assert(has_key(before, a, v.name, v.version));
                    }
                }
            },
        }
    }

    /// The position in `keys` of the first one that has no entry yet.
    fn first_missing_in(&self, keys: &Vec<Requirement>) -> (r: Option<usize>)
        requires
            self.wf(),
        ensures
            match r {
                Some(k) => k < keys@.len() && first_missing(self@, decl_views(keys@))
                    == Some(keys@[k as int]@),
                None => first_missing(self@, decl_views(keys@)) is None,
            },
    {
        let ghost all = decl_views(keys@);
        let mut k: usize = 0;
        assert(all.skip(0) =~= all);
        while k < keys.len()
            invariant
                self.wf(),
                all == decl_views(keys@),
                k <= keys@.len(),
                first_missing(self@, all) == first_missing(self@, all.skip(k as int)),
            decreases keys@.len() - k,
        {
            assert(all.skip(k as int)[0] == keys@[k as int]@);
            assert(all.skip(k as int).drop_first() =~= all.skip(k + 1));
            if self.find(&keys[k].name, &keys[k].version).is_none() {
                return Some(k);
            }
            k = k + 1;
        }
        assert(all.skip(k as int) =~= Seq::<(Seq<char>, Seq<char>)>::empty());
        None
    }

    /// What to fetch next before `declared` can be resolved: the first
    /// declaration, top-level or of an entry, that has no entry yet;
    /// `None` once every one has.
    pub fn next_fetch(&self, declared: &Vec<Requirement>) -> (r: Option<(String, String)>)
        requires
            self.wf(),
        ensures
            match r {
                Some(k) => first_missing(
                    self@,
                    decl_views(declared@) + all_deps_from(self@, 0),
                ) == Some((k.0@, k.1@)),
                None => first_missing(
                    self@,
                    decl_views(declared@) + all_deps_from(self@, 0),
                ) is None,
            },
    {
        let ghost decls = decl_views(declared@);
        proof {
            lemma_first_missing_concat(self@, decls, all_deps_from(self@, 0));
        }
        match self.first_missing_in(declared) {
            Some(k) => {
                return Some((declared[k].name.clone(), declared[k].version.clone()));
            },
            None => {},
        }
        let mut e: usize = 0;
        while e < self.entries.len()
            invariant
                self.wf(),
                decls == decl_views(declared@),
                e <= self@.len(),
                first_missing(self@, decls + all_deps_from(self@, 0)) == first_missing(
                    self@,
                    all_deps_from(self@, e as int),
                ),
            decreases self@.len() - e,
        {
            let deps = &self.entries[e].dependencies;
            proof {
                assert(self@[e as int].dependencies == decl_views(deps@));
                assert(all_deps_from(self@, e as int) == self@[e as int].dependencies + all_deps_from(
                    self@,
                    e + 1,
                ));
                lemma_first_missing_concat(self@, self@[e as int].dependencies, all_deps_from(self@, e + 1));
            }
            match self.first_missing_in(deps) {
                Some(k) => {
                    return Some((deps[k].name.clone(), deps[k].version.clone()));
                },
                None => {},
            }
            e = e + 1;
        }
        None
    }
}

/// Every node of `p` is installed where its name, version and directness
/// say: `p` itself as `indirect` says, everything below it as indirect.
pub open spec fn dirs_assigned(p: PackageView, indirect: bool) -> bool
    decreases p,
{
    &&& p.dir() == install_dir(p.name, p.version, indirect)
    &&& forall|j: int| 0 <= j < p.dependencies.len() ==> dirs_assigned(#[trigger] p.dependencies[j], true)
}

proof fn lemma_resolved_dirs(reg: Seq<EntryView>, p: PackageView, i: int, indirect: bool)
    requires
        resolved_tree(reg, p, i, indirect),
    ensures
        dirs_assigned(p, indirect),
    decreases p,
{
    assert forall|j: int| 0 <= j < p.dependencies.len() implies dirs_assigned(#[trigger] p.dependencies[j], true) by {
        let d = reg[i].dependencies[j];
        lemma_resolved_dirs(reg, p.dependencies[j], lookup_index(reg, d.0, d.1), true);
    }
}

/// A resolved forest has one root per declaration, named and versioned as
/// declared, and each of its nodes is installed in the directory that its
/// name, version and directness give, wherever in the forest it stands.
pub proof fn lemma_resolved_forest(reg: Seq<EntryView>, declared: Seq<(Seq<char>, Seq<char>)>, roots: Seq<PackageView>)
    requires
        roots.len() == declared.len(),
        forall|k: int|
            0 <= k < roots.len() ==> resolved_tree(
                reg,
                #[trigger] roots[k],
                lookup_index(reg, declared[k].0, declared[k].1),
                false,
            ),
    ensures
        forall|k: int|
            0 <= k < roots.len() ==> (#[trigger] roots[k]).name == declared[k].0 && roots[k].version
                == declared[k].1 && dirs_assigned(roots[k], false),
{
    assert forall|k: int| 0 <= k < roots.len() implies (#[trigger] roots[k]).name == declared[k].0
        && roots[k].version == declared[k].1 && dirs_assigned(roots[k], false) by {
        let i = lookup_index(reg, declared[k].0, declared[k].1);
        assert(resolved_tree(reg, roots[k], i, false));
        assert(0 <= i);
        assert(exists|c: int| has_key(reg, c, declared[k].0, declared[k].1));
        assert(has_key(reg, i, declared[k].0, declared[k].1));
        lemma_resolved_dirs(reg, roots[k], i, false);
    }
}

/// Two nodes with the same name, version and directness are installed in
/// the same directory, wherever each stands.
pub proof fn lemma_same_key_same_dir(p: PackageView, q: PackageView)
    requires
        p.name == q.name,
        p.version == q.version,
        p.indirect == q.indirect,
    ensures
        p.dir() == q.dir(),
{
}

/// How the registry said that a requested manifest does not exist.
#[derive(PartialEq, Eq, Structural, Clone, Copy, Debug)]
pub enum ManifestError {
    /// No package has this name.
    NotFound,
    /// The package exists, without this version.
    VersionNotFound,
}

/// Reads the registry's answer to a manifest request for `version`: the
/// quoted `Not Found` and `version not found: <version>` replies are
/// failures, anything else is a manifest.
pub fn manifest_error(resp: &str, version: &str) -> (r: Option<ManifestError>)
    ensures
        r == (if resp@ == "\"Not Found\""@ {
            Some(ManifestError::NotFound)
        } else if resp@ == "\"version not found: "@ + version@ + "\""@ {
            Some(ManifestError::VersionNotFound)
        } else {
            None
        }),
{
    if strings_equal(resp, "\"Not Found\"") {
        return Some(ManifestError::NotFound);
    }
    let mut expected = String::from_str("\"version not found: ");
    expected.append(version);
    expected.append("\"");
    if strings_equal(resp, expected.as_str()) {
        Some(ManifestError::VersionNotFound)
    } else {
        None
    }
}

} // verus!
