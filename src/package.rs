use vstd::prelude::*;
use vstd::string::StringExecFns;

verus! {

broadcast use vstd::std_specs::vec::group_vec_axioms;

/// Registry metadata needed to download one package version.
pub struct NpmManifest {
    pub tarball: String,
    pub integrity: String,
}

/// Per-package data besides its identity.
pub struct PackageMeta {
    pub npm_manifest: NpmManifest,
    pub dependencies: Vec<Package>,
    pub indirect: bool,
}

/// One resolved dependency at a specific version, owning its own
/// dependency subtree.
pub struct Package {
    pub name: String,
    pub version: String,
    pub meta: PackageMeta,
}


/// Mathematical model of a package tree.
pub struct PackageView {
    pub name: Seq<char>,
    pub version: Seq<char>,
    pub tarball: Seq<char>,
    pub integrity: Seq<char>,
    pub indirect: bool,
    pub dependencies: Seq<PackageView>,
}

/// The model of a package tree, level by level.
pub open spec fn package_view(p: Package) -> PackageView
    decreases p,
{
    PackageView {
        name: p.name@,
        version: p.version@,
        tarball: p.meta.npm_manifest.tarball@,
        integrity: p.meta.npm_manifest.integrity@,
        indirect: p.meta.indirect,
        dependencies: Seq::new(
            p.meta.dependencies@.len(),
            |i: int|
                if 0 <= i < p.meta.dependencies@.len() {
                    package_view(p.meta.dependencies@[i])
                } else {
                    arbitrary()
                },
        ),
    }
}

/// The models of a sequence of packages.
pub open spec fn package_views(v: Seq<Package>) -> Seq<PackageView> {
    v.map_values(|p: Package| p@)
}

impl View for Package {
    type V = PackageView;

    open spec fn view(&self) -> PackageView {
        package_view(*self)
    }
}

impl PackageView {
    /// Where this package is installed.
    pub open spec fn dir(self) -> Seq<char> {
        install_dir(self.name, self.version, self.indirect)
    }

    /// This package as discovered through another package's dependencies.
    pub open spec fn as_indirect(self) -> PackageView {
        PackageView { indirect: true, ..self }
    }
}

impl Package {
    /// The view's dependency list is the views of the dependency vector.
    pub broadcast proof fn lemma_view_dependencies(p: &Package)
        ensures
            #[trigger] p@.dependencies == package_views(p.meta.dependencies@),
    {
        assert(p@.dependencies =~= package_views(p.meta.dependencies@));
    }
}

impl Clone for NpmManifest {
    fn clone(&self) -> (r: Self)
        ensures
            r.tarball@ == self.tarball@,
            r.integrity@ == self.integrity@,
    {
        NpmManifest { tarball: self.tarball.clone(), integrity: self.integrity.clone() }
    }
}

impl Clone for Package {
    fn clone(&self) -> (r: Self)
        ensures
            r@ == self@,
        decreases self,
    {
        let n = self.meta.dependencies.len();
        let mut dependencies: Vec<Package> = Vec::new();
        let mut i: usize = 0;
        while i < n
            invariant
                n == self.meta.dependencies@.len(),
                i <= n,
                dependencies@.len() == i,
                forall|k: int| 0 <= k < i ==> dependencies@[k]@ == self.meta.dependencies@[k]@,
            decreases n - i,
        {
            let d = self.meta.dependencies[i].clone();
            dependencies.push(d);
            i = i + 1;
        }
        let r = Package {
            name: self.name.clone(),
            version: self.version.clone(),
            meta: PackageMeta {
                npm_manifest: self.meta.npm_manifest.clone(),
                dependencies,
                indirect: self.meta.indirect,
            },
        };
        assert(r@.dependencies =~= self@.dependencies);
        r
    }
}

/// Where a package is installed, relative to the project root.
pub open spec fn install_dir(name: Seq<char>, version: Seq<char>, indirect: bool) -> Seq<char> {
    if indirect {
        "addons/__gpm_deps/"@ + name + "/"@ + version
    } else {
        "addons/"@ + name
    }
}

impl Package {
    /// Where this package is installed, relative to the project root.
    pub fn download_dir(&self) -> (r: String)
        ensures
            r@ == self@.dir(),
    {
        if self.meta.indirect {
            let mut r = String::from_str("addons/__gpm_deps/");
            r.append(self.name.as_str());
            r.append("/");
            r.append(self.version.as_str());
            r
        } else {
            let mut r = String::from_str("addons/");
            r.append(self.name.as_str());
            r
        }
    }

    /// Whether this package declares any dependency.
    pub fn has_deps(&self) -> (r: bool)
        ensures
            r == (self@.dependencies.len() > 0),
    {
        self.meta.dependencies.len() > 0
    }

    /// `name@version`.
    pub fn to_string(&self) -> (r: String)
        ensures
            r@ == self@.name + "@"@ + self@.version,
    {
        let mut r = self.name.clone();
        r.append("@");
        r.append(self.version.as_str());
        r
    }

    /// A direct package with the given registry metadata and, as yet, no
    /// dependencies.
    pub fn new(name: String, version: String, npm_manifest: NpmManifest) -> (r: Package)
        ensures
            r@ == (PackageView {
                name: name@,
                version: version@,
                tarball: npm_manifest.tarball@,
                integrity: npm_manifest.integrity@,
                indirect: false,
                dependencies: Seq::empty(),
            }),
    {
        let r = Package {
            name,
            version,
            meta: PackageMeta { npm_manifest, dependencies: Vec::new(), indirect: false },
        };
        assert(r@.dependencies =~= Seq::<PackageView>::empty());
        r
    }

    /// Appends the declared dependencies of this package, each marked as
    /// indirect.
    pub fn get_deps(&mut self, cfg: NpmConfig)
        ensures
            final(self)@ == (PackageView {
                dependencies: old(self)@.dependencies + cfg@.map_values(
                    |d: PackageView| d.as_indirect(),
                ),
                ..old(self)@
            }),
    {
        let ghost start = self@;
        let ghost m = start.dependencies.len();
        proof {
            Package::lemma_view_dependencies(self);
        }
        let deps = cfg.dependencies;
        let n = deps.len();
        let mut i: usize = 0;
        while i < n
            invariant
                n == deps@.len(),
                i <= n,
                deps@ == cfg.dependencies@,
                self.name@ == start.name,
                self.version@ == start.version,
                self.meta.npm_manifest.tarball@ == start.tarball,
                self.meta.npm_manifest.integrity@ == start.integrity,
                self.meta.indirect == start.indirect,
                self.meta.dependencies@.len() == m + i,
                forall|k: int| 0 <= k < m ==> #[trigger] self.meta.dependencies@[k]@ == start.dependencies[k],
                forall|k: int| 0 <= k < i ==> self.meta.dependencies@[m + k]@ == (#[trigger] deps@[k])@.as_indirect(),
            decreases n - i,
        {
            let mut d = deps[i].clone();
            d.meta.indirect = true;
            assert(d@.dependencies =~= deps@[i as int]@.dependencies);
            self.meta.dependencies.push(d);
            i = i + 1;
        }
        proof {
            Package::lemma_view_dependencies(self);
            assert(self@.dependencies =~= start.dependencies + cfg@.map_values(
                |d: PackageView| d.as_indirect(),
            ));
        }
    }
}

/// The declared dependencies of one package.
pub struct NpmConfig {
    pub dependencies: Vec<Package>,
}

impl View for NpmConfig {
    type V = Seq<PackageView>;

    open spec fn view(&self) -> Seq<PackageView> {
        package_views(self.dependencies@)
    }
}

impl NpmConfig {
    /// Declared dependencies, already resolved.
    pub fn new(dependencies: Vec<Package>) -> (r: Self)
        ensures
            r@ == package_views(dependencies@),
    {
        NpmConfig { dependencies }
    }
}

} // verus!
