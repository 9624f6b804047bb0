use vstd::prelude::*;
use crate::package::{package_views, Package, PackageView};
use crate::text::strings_equal;
use vstd::string::StringExecFns;
use crate::resolve::{decl_views, first_failure, lookup_index, resolve, resolved_tree, Registry, Requirement, ResolveError};

verus! {

broadcast use vstd::std_specs::vec::group_vec_axioms;

/// The packages of `ps` from the `k`-th on, each followed by its own
/// dependencies, depth first.
pub open spec fn flatten_from(ps: Seq<PackageView>, k: int) -> Seq<PackageView>
    decreases ps, ps.len() - k,
{
    if k < 0 || k >= ps.len() {
        Seq::empty()
    } else {
        seq![ps[k]] + flatten_from(ps[k].dependencies, 0) + flatten_from(ps, k + 1)
    }
}

/// Every package of a forest, each before its dependencies.
pub open spec fn preorder(ps: Seq<PackageView>) -> Seq<PackageView> {
    flatten_from(ps, 0)
}

/// The project's declared packages, each resolved into a tree.
pub struct ConfigFile {
    pub packages: Vec<Package>,
}

impl View for ConfigFile {
    type V = Seq<PackageView>;

    open spec fn view(&self) -> Seq<PackageView> {
        package_views(self.packages@)
    }
}

fn collect_into(ps: &Vec<Package>, out: &mut Vec<Package>)
    ensures
        package_views(final(out)@) == package_views(old(out)@) + preorder(package_views(ps@)),
    decreases ps@,
{
    let ghost start = package_views(out@);
    let ghost pv = package_views(ps@);
    let mut k: usize = 0;
    assert(start + flatten_from(pv, 0) =~= start + preorder(pv));
    while k < ps.len()
        invariant
            pv == package_views(ps@),
            k <= ps@.len(),
            package_views(out@) + flatten_from(pv, k as int) == start + preorder(pv),
        decreases ps@.len() - k,
    {
        let ghost before = package_views(out@);
        let p = ps[k].clone();
        out.push(p);
        assert(package_views(out@) =~= before.push(pv[k as int]));
        proof {
            Package::lemma_view_dependencies(&ps@[k as int]);
            assert(decreases_to!(ps@ => ps@[k as int].meta.dependencies@));
        }
        let ghost mid = package_views(out@);
        collect_into(&ps[k].meta.dependencies, out);
        assert(flatten_from(pv, k as int) == seq![pv[k as int]] + flatten_from(pv[k as int].dependencies, 0)
            + flatten_from(pv, k + 1));
        assert(package_views(out@) + flatten_from(pv, k + 1) =~= before + flatten_from(pv, k as int));
        k = k + 1;
    }
}

/// The packages themselves, from the `k`-th of `ps` on, each followed by
/// its own dependencies, depth first.
pub open spec fn packages_from(ps: Seq<Package>, k: int) -> Seq<Package>
    decreases ps, ps.len() - k,
{
    if k < 0 || k >= ps.len() {
        Seq::empty()
    } else {
        seq![ps[k]] + packages_from(ps[k].meta.dependencies@, 0) + packages_from(ps, k + 1)
    }
}

/// The packages visited in order are those that `preorder` models.
pub proof fn lemma_packages_from_views(ps: Seq<Package>, k: int)
    ensures
        package_views(packages_from(ps, k)) == flatten_from(package_views(ps), k),
    decreases ps, ps.len() - k,
{
    if 0 <= k < ps.len() {
        Package::lemma_view_dependencies(&ps[k]);
        assert(decreases_to!(ps => ps[k].meta.dependencies@));
        lemma_packages_from_views(ps[k].meta.dependencies@, 0);
        lemma_packages_from_views(ps, k + 1);
        let pv = package_views(ps);
        assert(package_views(packages_from(ps, k)) =~= seq![pv[k]] + flatten_from(pv[k].dependencies, 0)
            + flatten_from(pv, k + 1));
    } else {
        assert(package_views(packages_from(ps, k)) =~= Seq::<PackageView>::empty());
    }
}

/// `out` holds, in order, what `cb` returned on each of `visited`.
pub open spec fn results_of<R, F: Fn(&Package) -> R>(cb: F, visited: Seq<Package>, out: Seq<R>) -> bool {
    &&& out.len() == visited.len()
    &&& forall|k: int| 0 <= k < out.len() ==> call_ensures(cb, (&visited[k],), #[trigger] out[k])
}

fn visit_into<R, F: Fn(&Package) -> R>(ps: &Vec<Package>, cb: &F, out: &mut Vec<R>)
    requires
        forall|p: &Package| cb.requires((p,)),
    ensures
        final(out)@.len() >= old(out)@.len(),
        final(out)@.subrange(0, old(out)@.len() as int) == old(out)@,
        results_of(*cb, packages_from(ps@, 0), final(out)@.subrange(old(out)@.len() as int, final(out)@.len() as int)),
    decreases ps@,
{
    let ghost start = out@;
    let ghost all = packages_from(ps@, 0);
    let mut k: usize = 0;
    assert(out@.subrange(start.len() as int, out@.len() as int) =~= Seq::<R>::empty());
    assert(all == all.subrange(0, all.len() - packages_from(ps@, 0).len()) + packages_from(ps@, 0));
    while k < ps.len()
        invariant
            forall|p: &Package| cb.requires((p,)),
            all == packages_from(ps@, 0),
            k <= ps@.len(),
            out@.len() >= start.len(),
            out@.subrange(0, start.len() as int) == start,
            results_of(*cb, all.subrange(0, all.len() - packages_from(ps@, k as int).len()),
                out@.subrange(start.len() as int, out@.len() as int)),
            all == all.subrange(0, all.len() - packages_from(ps@, k as int).len()) + packages_from(ps@, k as int),
        decreases ps@.len() - k,
    {
        let ghost before = out@;
        let ghost done = all.subrange(0, all.len() - packages_from(ps@, k as int).len());
        let v = cb(&ps[k]);
        out.push(v);
        proof {
            assert(decreases_to!(ps@ => ps@[k as int].meta.dependencies@));
        }
        let ghost mid = out@;
        visit_into(&ps[k].meta.dependencies, cb, out);
        proof {
            let sub = packages_from(ps@[k as int].meta.dependencies@, 0);
            let fresh = out@.subrange(mid.len() as int, out@.len() as int);
            assert(packages_from(ps@, k as int) == seq![ps@[k as int]] + sub + packages_from(ps@, k + 1));
            let done2 = done + seq![ps@[k as int]] + sub;
            assert(all =~= done2 + packages_from(ps@, k + 1));
            assert(all.subrange(0, all.len() - packages_from(ps@, k + 1).len()) =~= done2);
            assert(mid =~= before.push(v));
            assert(out@ =~= out@.subrange(0, mid.len() as int) + fresh);
            assert(out@ =~= before + seq![v] + fresh);
            let outs = out@.subrange(start.len() as int, out@.len() as int);
            assert(outs =~= before.subrange(start.len() as int, before.len() as int) + seq![v] + fresh);
            assert(out@.subrange(0, start.len() as int) =~= before.subrange(0, start.len() as int));
            assert forall|j: int| 0 <= j < outs.len() implies call_ensures(*cb, (&done2[j],), #[trigger] outs[j]) by {
                let b = before.len() - start.len();
                if j < b {
                    assert(outs[j] == before.subrange(start.len() as int, before.len() as int)[j]);
                    assert(done2[j] == done[j]);
                } else if j == b {
                    assert(outs[j] == v);
                    assert(done2[j] == ps@[k as int]);
                } else {
                    assert(outs[j] == fresh[j - b - 1]);
                    assert(done2[j] == sub[j - b - 1]);
                }
            }
        }
        k = k + 1;
    }
    proof {
        assert(packages_from(ps@, k as int) =~= Seq::<Package>::empty());
        assert(all.subrange(0, all.len() as int) =~= all);
    }
}

impl ConfigFile {
    /// Calls `cb` on every package, each before its dependencies, and
    /// returns what it returned, in that order.
    pub fn for_each<R, F: Fn(&Package) -> R>(&self, cb: F) -> (r: Vec<R>)
        requires
            forall|p: &Package| cb.requires((p,)),
        ensures
            results_of(cb, packages_from(self.packages@, 0), r@),
            package_views(packages_from(self.packages@, 0)) == preorder(self@),
    {
        proof {
            lemma_packages_from_views(self.packages@, 0);
        }
        let mut out: Vec<R> = Vec::new();
        visit_into(&self.packages, &cb, &mut out);
        assert(out@.subrange(0, out@.len() as int) =~= out@);
        out
    }

    /// Resolves the declared top-level packages, in the order given.
    pub fn new(declared: &Vec<Requirement>, registry: &Registry) -> (r: Result<ConfigFile, ResolveError>)
        requires
            registry.wf(),
        ensures
            match r {
                Ok(c) => first_failure(registry@, decl_views(declared@), 0) is None && c@.len()
                    == declared@.len() && forall|k: int|
                    0 <= k < c@.len() ==> resolved_tree(
                        registry@,
                        #[trigger] c@[k],
                        lookup_index(registry@, declared@[k].name@, declared@[k].version@),
                        false,
                    ),
                Err(e) => first_failure(registry@, decl_views(declared@), 0) == Some(e@),
            },
    {
        match resolve(declared, registry) {
            Ok(packages) => Ok(ConfigFile { packages }),
            Err(e) => Err(e),
        }
    }

    /// The packages drawn as a tree, one line each.
    pub fn tree_lines(&self) -> (r: Vec<String>)
        ensures
            string_views(r@) == tree_lines_from(self@, 0, Seq::empty()),
    {
        let mut out: Vec<String> = Vec::new();
        assert(string_views(out@) =~= Seq::<Seq<char>>::empty());
        proof {
            reveal_strlit("");
            assert(""@ =~= Seq::<char>::empty());
        }
        tree_into(&self.packages, "", &mut out);
        assert(string_views(out@) =~= tree_lines_from(self@, 0, Seq::empty()));
        out
    }

    /// Every package, each before its dependencies.
    pub fn collect(&self) -> (r: Vec<Package>)
        ensures
            package_views(r@) == preorder(self@),
    {
        let mut out: Vec<Package> = Vec::new();
        collect_into(&self.packages, &mut out);
        assert(package_views(out@) =~= preorder(self@));
        out
    }
}

/// The lines that draw the packages of `ps` from the `k`-th on as a tree,
/// each line after `prefix`: a branch, then `name@version`, then the
/// package's dependencies one level deeper.
pub open spec fn tree_lines_from(ps: Seq<PackageView>, k: int, prefix: Seq<char>) -> Seq<Seq<char>>
    decreases ps, ps.len() - k,
{
    if k < 0 || k >= ps.len() {
        Seq::empty()
    } else {
        let last = k == ps.len() - 1;
        let line = prefix + (if last {
            "└──"@
        } else {
            "├──"@
        }) + " "@ + ps[k].name + "@"@ + ps[k].version;
        let inner = prefix + (if last {
            " "@
        } else {
            "│"@
        }) + "   "@;
        seq![line] + tree_lines_from(ps[k].dependencies, 0, inner) + tree_lines_from(ps, k + 1, prefix)
    }
}

/// The contents of a sequence of strings.
pub open spec fn string_views(v: Seq<String>) -> Seq<Seq<char>> {
    v.map_values(|l: String| l@)
}

fn tree_into(ps: &Vec<Package>, prefix: &str, out: &mut Vec<String>)
    ensures
        string_views(final(out)@) == string_views(old(out)@) + tree_lines_from(
            package_views(ps@),
            0,
            prefix@,
        ),
    decreases ps@,
{
    let ghost start = string_views(out@);
    let ghost pv = package_views(ps@);
    let n = ps.len();
    let mut k: usize = 0;
    assert(start + tree_lines_from(pv, 0, prefix@) =~= start + tree_lines_from(pv, 0, prefix@));
    while k < n
        invariant
            n == ps@.len(),
            pv == package_views(ps@),
            k <= n,
            string_views(out@) + tree_lines_from(pv, k as int, prefix@) == start
                + tree_lines_from(pv, 0, prefix@),
        decreases n - k,
    {
        let ghost before = string_views(out@);
        let p = &ps[k];
        let last = k + 1 == n;
        let mut line = String::from_str(prefix);
        line.append(if last { "└──" } else { "├──" });
        line.append(" ");
        line.append(p.to_string().as_str());
        let mut inner = String::from_str(prefix);
        inner.append(if last { " " } else { "│" });
        inner.append("   ");
        let ghost l = line@;
        proof {
            let last_s = k == pv.len() - 1;
            assert(l =~= prefix@ + (if last_s {
                "└──"@
            } else {
                "├──"@
            }) + " "@ + pv[k as int].name + "@"@ + pv[k as int].version);
            assert(inner@ =~= prefix@ + (if last_s {
                " "@
            } else {
                "│"@
            }) + "   "@);
        }
        out.push(line);
        assert(string_views(out@) =~= before.push(l));
        proof {
            Package::lemma_view_dependencies(&ps@[k as int]);
            assert(decreases_to!(ps@ => ps@[k as int].meta.dependencies@));
        }
        tree_into(&p.meta.dependencies, inner.as_str(), out);
        assert(string_views(out@) + tree_lines_from(pv, k + 1, prefix@) =~= before
            + tree_lines_from(pv, k as int, prefix@));
        k = k + 1;
    }
}

/// What the lock file records of one installed package.
pub struct PackageLock {
    pub version: String,
    pub integrity: String,
}

impl PackageLock {
    /// The version and integrity digest of `pkg`.
    pub fn new(pkg: &Package) -> (r: PackageLock)
        ensures
            r.version@ == pkg.version@,
            r.integrity@ == pkg.meta.npm_manifest.integrity@,
    {
        PackageLock { version: pkg.version.clone(), integrity: pkg.meta.npm_manifest.integrity.clone() }
    }
}

/// A lock line: name, version and integrity digest.
pub type LockLine = (Seq<char>, Seq<char>, Seq<char>);

/// `t` with the line of `p`, replacing the line of the same name if any.
pub open spec fn upsert(t: Seq<LockLine>, p: PackageView) -> Seq<LockLine> {
    let line = (p.name, p.version, p.integrity);
    if exists|i: int| 0 <= i < t.len() && t[i].0 == p.name {
        t.update(choose|i: int| 0 <= i < t.len() && t[i].0 == p.name, line)
    } else {
        t.push(line)
    }
}

/// The lock lines of the first `k` of `flat` that are installed: one per
/// name, from the last such package of that name.
pub open spec fn lock_lines(flat: Seq<PackageView>, installed: Seq<bool>, k: int) -> Seq<LockLine>
    decreases k,
{
    if k <= 0 {
        Seq::empty()
    } else if installed[k - 1] {
        upsert(lock_lines(flat, installed, k - 1), flat[k - 1])
    } else {
        lock_lines(flat, installed, k - 1)
    }
}

/// No two lock lines share a name.
pub open spec fn names_unique(t: Seq<LockLine>) -> bool {
    forall|i: int, j: int| 0 <= i < t.len() && 0 <= j < t.len() && #[trigger] t[i].0 == #[trigger] t[j].0 ==> i == j
}

/// The lines that lock entries stand for.
pub open spec fn lock_view(v: Seq<(String, PackageLock)>) -> Seq<LockLine> {
    v.map_values(|e: (String, PackageLock)| (e.0@, e.1.version@, e.1.integrity@))
}

fn find_line(out: &Vec<(String, PackageLock)>, name: &String) -> (r: Option<usize>)
    ensures
        match r {
            Some(i) => i < out@.len() && lock_view(out@)[i as int].0 == name@,
            None => forall|m: int| 0 <= m < out@.len() ==> lock_view(out@)[m].0 != name@,
        },
{
    let mut i: usize = 0;
    while i < out.len()
        invariant
            i <= out@.len(),
            forall|m: int| 0 <= m < i ==> lock_view(out@)[m].0 != name@,
        decreases out@.len() - i,
    {
        if strings_equal(out[i].0.as_str(), name.as_str()) {
            return Some(i);
        }
        i = i + 1;
    }
    None
}

impl ConfigFile {
    /// The lock file's contents: for each name among the installed
    /// packages, the version and digest of the last one met, each package
    /// before its dependencies; `installed` tells, in that order, which
    /// packages are installed.
    pub fn lock_entries(&self, installed: &Vec<bool>) -> (r: Vec<(String, PackageLock)>)
        requires
            installed@.len() == preorder(self@).len(),
        ensures
            lock_view(r@) == lock_lines(preorder(self@), installed@, installed@.len() as int),
            names_unique(lock_view(r@)),
    {
        let flat = self.collect();
        let ghost fv = package_views(flat@);
        let mut out: Vec<(String, PackageLock)> = Vec::new();
        let mut k: usize = 0;
        assert(lock_view(out@) =~= Seq::<LockLine>::empty());
        while k < flat.len()
            invariant
                fv == package_views(flat@),
                fv == preorder(self@),
                installed@.len() == fv.len(),
                k <= fv.len(),
                lock_view(out@) == lock_lines(fv, installed@, k as int),
                names_unique(lock_view(out@)),
            decreases fv.len() - k,
        {
            if installed[k] {
                let p = &flat[k];
                let ghost t = lock_view(out@);
                let ghost line = (p@.name, p@.version, p@.integrity);
                let pos = find_line(&out, &p.name);
                if let Some(i) = pos {
                    proof {
                        assert(t[i as int].0 == p@.name);
                        let c = choose|c: int| 0 <= c < t.len() && t[c].0 == p@.name;
                        assert(t[c].0 == t[i as int].0);
                    }
                    out.set(i, (p.name.clone(), PackageLock::new(p)));
                    assert(lock_view(out@) =~= t.update(i as int, line));
                } else {
                    out.push((p.name.clone(), PackageLock::new(p)));
                    assert(lock_view(out@) =~= t.push(line));
                    assert forall|a: int, b: int|
                        0 <= a < lock_view(out@).len() && 0 <= b < lock_view(out@).len()
                            && #[trigger] lock_view(out@)[a].0 == #[trigger] lock_view(out@)[b].0 implies a == b by {
                        if a < t.len() && b == t.len() {
                            assert(t[a].0 != p@.name);
                        } else if b < t.len() && a == t.len() {
                            assert(t[b].0 != p@.name);
                        }
                    }
                }
            }
            k = k + 1;
        }
        out
    }
}

} // verus!
