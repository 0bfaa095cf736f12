//! Resolved packages: a package with its requirements resolved recursively
//! through a catalog, and its rendering as an indented tree.
use vstd::prelude::*;
use vstd::string::StringExecFns;
use crate::catalog::{Catalog, has_package, index_of};
use crate::error::{ResolveError, ResolveFailure};
use crate::metadata::{Metadata, MetadataView};
use crate::text::{join_lines, joined, str_eq};

verus! {

/// The tool that installed a package.
#[derive(Debug, Clone, Copy, PartialEq, Eq, Structural)]
pub enum Installer {
    Pip,
    Conda,
}

impl Default for Installer {
    /// Descriptors do not tell installers apart, so every package counts as
    /// installed by conda unless set otherwise.
    fn default() -> (r: Installer)
        ensures
            r == Installer::Conda,
    {
        Installer::Conda
    }
}

/// What a [`Package`] holds, as character sequences.
pub ghost struct PackageView {
    pub name: Seq<char>,
    pub version: Seq<char>,
    pub requires: Seq<PackageView>,
    pub installer: Installer,
}

/// A package with its requirements resolved into packages.
#[derive(Debug, PartialEq)]
pub struct Package {
    name: String,
    version: String,
    requires: Vec<Package>,
    installer: Installer,
}

/// What `p` holds, its requirements viewed in turn.
closed spec fn view_of(p: Package) -> PackageView
    decreases p,
{
    PackageView {
        name: p.name@,
        version: p.version@,
        requires: Seq::new(
            p.requires.len() as nat,
            |i: int|
                if 0 <= i < p.requires.len() {
                    view_of(p.requires[i])
                } else {
                    arbitrary()
                },
        ),
        installer: p.installer,
    }
}

impl View for Package {
    type V = PackageView;

    closed spec fn view(&self) -> PackageView {
        view_of(*self)
    }
}

/// The label of a package in a tree: `name (vversion)`, or the bare name
/// when the version is `any`.
pub open spec fn label(p: PackageView) -> Seq<char> {
    if p.version == "any"@ {
        p.name
    } else {
        p.name + " (v"@ + p.version + ")"@
    }
}

/// A package pinned to its version, in the form its installer reads:
/// `name==version` for pip, `name=version` for conda.
pub open spec fn pinned(p: PackageView) -> Seq<char> {
    match p.installer {
        Installer::Pip => p.name + "=="@ + p.version,
        Installer::Conda => p.name + "="@ + p.version,
    }
}

/// The branch drawn before line `j` of a child's lines.
pub open spec fn branch(j: int, last: bool) -> Seq<char> {
    if j == 0 {
        if last {
            "└── "@
        } else {
            "├── "@
        }
    } else {
        if last {
            "    "@
        } else {
            "│   "@
        }
    }
}

/// The lines of a child, each behind its branch.
pub open spec fn prefixed(ls: Seq<Seq<char>>, last: bool) -> Seq<Seq<char>> {
    ls.map(|j: int, l: Seq<char>| branch(j, last) + l)
}

/// The lines that draw `p` as a tree: its label, then the lines of each
/// requirement in order, behind branches.
pub open spec fn tree_lines_of(p: PackageView) -> Seq<Seq<char>>
    decreases p, 0int,
{
    seq![label(p)] + children_lines(p.requires, p.requires.len() as int)
}

/// The lines of the first `i` packages of `ps`, as children of one package.
pub open spec fn children_lines(ps: Seq<PackageView>, i: int) -> Seq<Seq<char>>
    decreases ps, i,
{
    if i <= 0 || i > ps.len() {
        Seq::empty()
    } else {
        children_lines(ps, i - 1) + prefixed(tree_lines_of(ps[i - 1]), i == ps.len())
    }
}

/// The package of record `m`, installed by conda, whose resolved
/// requirements are `children`.
pub open spec fn node(m: MetadataView, children: Seq<PackageView>) -> PackageView {
    PackageView { name: m.name, version: m.version, requires: children, installer: Installer::Conda }
}

/// Resolves the package named `name` through the catalog `c`, with at most
/// `budget` levels of packages from this one down.
pub open spec fn resolve(c: Seq<MetadataView>, name: Seq<char>, budget: nat) -> Result<
    PackageView,
    ResolveFailure,
>
    decreases budget, 0nat, 0nat,
{
    if !has_package(c, name) {
        Err(ResolveFailure::NotFound(name))
    } else if budget == 0 {
        Err(ResolveFailure::CycleOrDepth(name))
    } else {
        let m = c[index_of(c, name)];
        match resolve_all(c, m.requires, (budget - 1) as nat) {
            Ok(children) => Ok(node(m, children)),
            Err(e) => Err(e),
        }
    }
}

/// Resolves each of `names` in order; the first failure is the result.
pub open spec fn resolve_all(c: Seq<MetadataView>, names: Seq<Seq<char>>, budget: nat) -> Result<
    Seq<PackageView>,
    ResolveFailure,
>
    decreases budget, 1nat, names.len(),
{
    if names.len() == 0 {
        Ok(Seq::empty())
    } else {
        match resolve_all(c, names.drop_last(), budget) {
            Err(e) => Err(e),
            Ok(front) => match resolve(c, names.last(), budget) {
                Ok(p) => Ok(front.push(p)),
                Err(e) => Err(e),
            },
        }
    }
}

proof fn lemma_resolve_all_fails_early(
    c: Seq<MetadataView>,
    names: Seq<Seq<char>>,
    budget: nat,
    i: int,
    j: int,
)
    requires
        0 <= i <= j <= names.len(),
        resolve_all(c, names.take(i), budget) is Err,
    ensures
        resolve_all(c, names.take(j), budget) == resolve_all(c, names.take(i), budget),
    decreases j - i,
{
    if j > i {
        lemma_resolve_all_fails_early(c, names, budget, i, j - 1);
        assert(names.take(j).drop_last() =~= names.take(j - 1));
    }
}

proof fn lemma_view_unfold(p: &Package)
    ensures
        p@.name == p.name@,
        p@.version == p.version@,
        p@.installer == p.installer,
        p@.requires == p.requires@.map_values(|q: Package| q@),
{
    let s = p.requires@.map_values(|q: Package| q@);
    assert(p@.requires.len() == s.len());
    assert forall|i: int| 0 <= i < s.len() implies p@.requires[i] == s[i] by {
        assert(decreases_to!(*p => p.requires));
        vstd::std_specs::vec::axiom_vec_index_decreases(p.requires, i);
        assert(s[i] == p.requires@[i]@);
    }
    assert(p@.requires =~= s);
}

impl Package {
    /// A package with the given fields.
    pub fn new(name: String, version: String, dependencies: Vec<Package>, installer: Installer) -> (r:
        Package)
        ensures
            r@ == (PackageView {
                name: name@,
                version: version@,
                requires: dependencies@.map_values(|p: Package| p@),
                installer,
            }),
    {
        let ghost rv = dependencies@.map_values(|p: Package| p@);
        let r = Package { name, version, requires: dependencies, installer };
        proof {
            lemma_view_unfold(&r);
        }
        r
    }

    pub fn name(&self) -> (r: &String)
        ensures
            r@ == self@.name,
    {
        &self.name
    }

    pub fn version(&self) -> (r: &String)
        ensures
            r@ == self@.version,
    {
        &self.version
    }

    pub fn requirements(&self) -> (r: &Vec<Package>)
        ensures
            r@.map_values(|p: Package| p@) == self@.requires,
    {
        proof {
            lemma_view_unfold(self);
        }
        &self.requires
    }

    pub fn installer(&self) -> (r: Installer)
        ensures
            r == self@.installer,
    {
        proof {
            lemma_view_unfold(self);
        }
        self.installer
    }

    /// The label of the package in a tree.
    pub fn to_string(&self) -> (r: String)
        ensures
            r@ == label(self@),
    {
        let mut s = String::from_str(self.name.as_str());
        if !str_eq(self.version.as_str(), "any") {
            s.append(" (v");
            s.append(self.version.as_str());
            s.append(")");
        }
        s
    }

    /// The package pinned to its version, as its installer reads it.
    pub fn to_pinned(&self) -> (r: String)
        ensures
            r@ == pinned(self@),
    {
        let mut s = String::from_str(self.name.as_str());
        match self.installer {
            Installer::Pip => s.append("=="),
            Installer::Conda => s.append("="),
        }
        s.append(self.version.as_str());
        s
    }

    /// The packages named `names`, each resolved through the catalog with at
    /// most `budget` levels from it down; the first failure is the result.
    pub(crate) fn resolve_names(catalog: &Catalog, names: &Vec<String>, budget: usize) -> (r:
        Result<Vec<Package>, ResolveError>)
        requires
            catalog.wf(),
        ensures
            match (r, resolve_all(catalog@, names.deep_view(), budget as nat)) {
                (Ok(ps), Ok(vs)) => ps@.map_values(|p: Package| p@) == vs,
                (Err(e), Err(f)) => e@ == f,
                _ => false,
            },
        decreases budget, 2nat,
    {
        let ghost ns = names.deep_view();
        let mut out: Vec<Package> = Vec::new();
        let mut i: usize = 0;
        assert(ns.take(0) =~= Seq::<Seq<char>>::empty());
        assert(out@.map_values(|p: Package| p@) =~= Seq::<PackageView>::empty());
        while i < names.len()
            invariant
                catalog.wf(),
                ns == names.deep_view(),
                i <= ns.len(),
                resolve_all(catalog@, ns.take(i as int), budget as nat) == Ok::<
                    Seq<PackageView>,
                    ResolveFailure,
                >(out@.map_values(|p: Package| p@)),
            decreases ns.len() - i,
        {
            assert(ns.take(i + 1).drop_last() =~= ns.take(i as int));
            assert(ns.take(i + 1).last() == names[i as int]@);
            match Package::resolve_name(catalog, names[i].as_str(), budget) {
                Ok(p) => {
                    let ghost before = out@.map_values(|p: Package| p@);
                    let ghost pv = p@;
                    out.push(p);
                    assert(out@.map_values(|p: Package| p@) =~= before.push(pv));
                },
                Err(e) => {
                    proof {
                        lemma_resolve_all_fails_early(
                            catalog@,
                            ns,
                            budget as nat,
                            i + 1,
                            ns.len() as int,
                        );
                        assert(ns.take(ns.len() as int) =~= ns);
                    }
                    return Err(e);
                },
            }
            i = i + 1;
        }
        assert(ns.take(i as int) =~= ns);
        Ok(out)
    }

    /// The package of record `m`, its requirements resolved through the
    /// catalog with at most `budget` levels below it.
    fn resolve_record(catalog: &Catalog, m: &Metadata, budget: usize) -> (r: Result<
        Package,
        ResolveError,
    >)
        requires
            catalog.wf(),
        ensures
            match (r, resolve_all(catalog@, m@.requires, budget as nat)) {
                (Ok(p), Ok(children)) => p@ == node(m@, children),
                (Err(e), Err(f)) => e@ == f,
                _ => false,
            },
        decreases budget, 3nat,
    {
        let children = Package::resolve_names(catalog, &m.requires_dist, budget)?;
        Ok(Package::new(m.name.clone(), m.version.clone(), children, Installer::default()))
    }

    /// The package named `name`, resolved through the catalog with at most
    /// `budget` levels from it down.
    fn resolve_name(catalog: &Catalog, name: &str, budget: usize) -> (r: Result<
        Package,
        ResolveError,
    >)
        requires
            catalog.wf(),
        ensures
            match (r, resolve(catalog@, name@, budget as nat)) {
                (Ok(p), Ok(v)) => p@ == v,
                (Err(e), Err(f)) => e@ == f,
                _ => false,
            },
        decreases budget, 0nat,
    {
        match catalog.get(name) {
            None => Err(ResolveError::NotFound(String::from_str(name))),
            Some(m) => {
                if budget == 0 {
                    Err(ResolveError::CycleOrDepth(String::from_str(name)))
                } else {
                    Package::resolve_record(catalog, m, budget - 1)
                }
            },
        }
    }

    /// The package of record `m`, its requirements resolved recursively
    /// through the catalog. Resolution goes at most as many levels below `m`
    /// as the catalog has packages: a deeper chain repeats a package.
    pub fn from_metadata(catalog: &Catalog, m: &Metadata) -> (r: Result<Package, ResolveError>)
        requires
            catalog.wf(),
        ensures
            match (r, resolve_all(catalog@, m@.requires, catalog@.len())) {
                (Ok(p), Ok(children)) => p@ == node(m@, children),
                (Err(e), Err(f)) => e@ == f,
                _ => false,
            },
    {
        Package::resolve_record(catalog, m, catalog.len())
    }

    /// The package named `name`, its requirements resolved recursively
    /// through the catalog, down to as many levels as the catalog has
    /// packages.
    pub fn from_name(catalog: &Catalog, name: &str) -> (r: Result<Package, ResolveError>)
        requires
            catalog.wf(),
        ensures
            match (r, resolve(catalog@, name@, catalog@.len())) {
                (Ok(p), Ok(v)) => p@ == v,
                (Err(e), Err(f)) => e@ == f,
                _ => false,
            },
    {
        Package::resolve_name(catalog, name, catalog.len())
    }
}

/// The lines that draw `package` as a tree.
pub fn package_to_lines(package: &Package) -> (r: Vec<String>)
    ensures
        r.deep_view() == tree_lines_of(package@),
    decreases package,
{
    proof {
        lemma_view_unfold(package);
    }
    let ghost pv = package@;
    let ghost ps = pv.requires;
    let mut lines: Vec<String> = Vec::new();
    lines.push(package.to_string());
    let n = package.requires.len();
    assert(lines.deep_view() =~= seq![label(pv)] + children_lines(ps, 0));
    let mut i: usize = 0;
    while i < n
        invariant
            pv == package@,
            ps == pv.requires,
            ps == package.requires@.map_values(|q: Package| q@),
            n == ps.len(),
            n == package.requires.len(),
            i <= n,
            lines.deep_view() == seq![label(pv)] + children_lines(ps, i as int),
        decreases n - i,
    {
        let child = &package.requires[i];
        assert(child@ == ps[i as int]);
        let child_lines = package_to_lines(child);
        let last = i + 1 == n;
        let ghost base = lines.deep_view();
        let ghost cl = child_lines.deep_view();
        let mut j: usize = 0;
        assert(base =~= base + prefixed(cl, last).take(0));
        while j < child_lines.len()
            invariant
                cl == child_lines.deep_view(),
                j <= cl.len(),
                lines.deep_view() == base + prefixed(cl, last).take(j as int),
            decreases cl.len() - j,
        {
            let mut s = if j == 0 {
                if last {
                    String::from_str("└── ")
                } else {
                    String::from_str("├── ")
                }
            } else {
                if last {
                    String::from_str("    ")
                } else {
                    String::from_str("│   ")
                }
            };
            s.append(child_lines[j].as_str());
            let ghost before = lines.deep_view();
            lines.push(s);
            assert(lines.deep_view() =~= before.push(prefixed(cl, last)[j as int]));
            assert(prefixed(cl, last).take(j + 1) =~= prefixed(cl, last).take(j as int).push(
                prefixed(cl, last)[j as int],
            ));
            j = j + 1;
        }
        assert(prefixed(cl, last).take(j as int) =~= prefixed(cl, last));
        assert(seq![label(pv)] + children_lines(ps, i + 1) =~= base + prefixed(cl, last));
        i = i + 1;
    }
    lines
}

/// The tree of `package` as one text: its lines joined by newlines.
pub fn package_to_text(package: &Package) -> (r: String)
    ensures
        r@ == joined(tree_lines_of(package@)),
{
    join_lines(&package_to_lines(package))
}

/// The lines that draw the package named `name` as a tree, its requirements
/// resolved recursively through the catalog.
pub fn tree_lines(catalog: &Catalog, name: &str) -> (r: Result<Vec<String>, ResolveError>)
    requires
        catalog.wf(),
    ensures
        match (r, resolve(catalog@, name@, catalog@.len())) {
            (Ok(ls), Ok(p)) => ls.deep_view() == tree_lines_of(p),
            (Err(e), Err(f)) => e@ == f,
            _ => false,
        },
{
    let p = Package::from_name(catalog, name)?;
    Ok(package_to_lines(&p))
}

/// Every package of `c` ranks below the number of packages, and every
/// requirement ranks below the package that requires it: the requirements
/// form no cycle.
pub open spec fn ranked(c: Seq<MetadataView>, rank: spec_fn(Seq<char>) -> nat) -> bool {
    &&& forall|i: int| 0 <= i < c.len() ==> rank(#[trigger] c[i].name) < c.len()
    &&& forall|i: int, j: int|
        0 <= i < c.len() && 0 <= j < c[i].requires.len() ==> rank(#[trigger] c[i].requires[j])
            < rank(c[i].name)
}

proof fn lemma_resolve_within_rank(
    c: Seq<MetadataView>,
    rank: spec_fn(Seq<char>) -> nat,
    name: Seq<char>,
    budget: nat,
)
    requires
        ranked(c, rank),
        has_package(c, name) ==> rank(name) < budget,
    ensures
        !(resolve(c, name, budget) matches Err(ResolveFailure::CycleOrDepth(_))),
    decreases budget, 0nat, 0nat,
{
    if has_package(c, name) {
        let k = index_of(c, name);
        let m = c[k];
        assert(m.name == name);
        assert forall|j: int| 0 <= j < m.requires.len() && has_package(c, #[trigger] m.requires[j])
            implies rank(m.requires[j]) < budget - 1 by {
            assert(rank(c[k].requires[j]) < rank(c[k].name));
        }
        lemma_resolve_all_within_rank(c, rank, m.requires, (budget - 1) as nat);
    }
}

proof fn lemma_resolve_all_within_rank(
    c: Seq<MetadataView>,
    rank: spec_fn(Seq<char>) -> nat,
    names: Seq<Seq<char>>,
    budget: nat,
)
    requires
        ranked(c, rank),
        forall|j: int|
            0 <= j < names.len() && has_package(c, #[trigger] names[j]) ==> rank(names[j]) < budget,
    ensures
        !(resolve_all(c, names, budget) matches Err(ResolveFailure::CycleOrDepth(_))),
    decreases budget, 1nat, names.len(),
{
    if names.len() > 0 {
        let front = names.drop_last();
        assert forall|j: int| 0 <= j < front.len() && has_package(c, #[trigger] front[j]) implies rank(
            front[j],
        ) < budget by {
            assert(front[j] == names[j]);
        }
        lemma_resolve_all_within_rank(c, rank, front, budget);
        assert(names.last() == names[names.len() - 1]);
        lemma_resolve_within_rank(c, rank, names.last(), budget);
    }
}

/// In a catalog whose requirements form no cycle (some ranking puts every
/// requirement below the package that requires it), resolving a package
/// never fails with a cycle error: the depth bound of the catalog's size is
/// never reached.
pub proof fn lemma_acyclic_resolution_has_no_cycle_error(
    catalog: &Catalog,
    rank: spec_fn(Seq<char>) -> nat,
    name: Seq<char>,
)
    requires
        ranked(catalog@, rank),
    ensures
        !(resolve(catalog@, name, catalog@.len()) matches Err(ResolveFailure::CycleOrDepth(_))),
{
    let c = catalog@;
    if has_package(c, name) {
        let k = index_of(c, name);
        assert(rank(c[k].name) < c.len());
    }
    lemma_resolve_within_rank(c, rank, name, c.len());
}

} // verus!
