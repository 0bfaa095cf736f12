//! The catalog of an environment's package records, and the queries on it:
//! which packages depend on a package, and which packages are leaves.
use vstd::prelude::*;
use crate::error::NotFoundError;
use crate::metadata::{Metadata, MetadataView};
use crate::text::{
    has_prefix, insert_sorted, lemma_sorted_no_duplicates, starts_with, str_eq, strictly_sorted,
};

verus! {

/// No two records share a name.
pub open spec fn names_unique(s: Seq<MetadataView>) -> bool {
    forall|i: int, j: int|
        0 <= i < s.len() && 0 <= j < s.len() && i != j ==> #[trigger] s[i].name != #[trigger] s[j].name
}

/// Some record is named `name`.
pub open spec fn has_package(s: Seq<MetadataView>, name: Seq<char>) -> bool {
    exists|i: int| 0 <= i < s.len() && #[trigger] s[i].name == name
}

/// The index of a record named `name`.
pub open spec fn index_of(s: Seq<MetadataView>, name: Seq<char>) -> int {
    choose|i: int| 0 <= i < s.len() && #[trigger] s[i].name == name
}

/// `s` with `m` inserted: it replaces the record of the same name, if any,
/// and is appended otherwise.
pub open spec fn upsert(s: Seq<MetadataView>, m: MetadataView) -> Seq<MetadataView> {
    if has_package(s, m.name) {
        s.update(index_of(s, m.name), m)
    } else {
        s.push(m)
    }
}

/// The catalog built from `records` inserted in order: of two records with
/// one name, the later one is kept.
pub open spec fn collected(records: Seq<MetadataView>) -> Seq<MetadataView>
    decreases records.len(),
{
    if records.len() == 0 {
        Seq::empty()
    } else {
        upsert(collected(records.drop_last()), records.last())
    }
}

/// `m` requires `name` and is not an interpreter package.
pub open spec fn depends_on(m: MetadataView, name: Seq<char>) -> bool {
    m.requires.contains(name) && !has_prefix(m.name, "python"@)
}

/// The names of the records that depend on `name`, in catalog order.
pub open spec fn dependents(s: Seq<MetadataView>, name: Seq<char>) -> Seq<Seq<char>> {
    s.filter(|m: MetadataView| depends_on(m, name)).map_values(|m: MetadataView| m.name)
}

/// `name` is a package of the catalog that nothing depends on and that is
/// not a low-level library.
pub open spec fn is_leaf(s: Seq<MetadataView>, name: Seq<char>) -> bool {
    &&& has_package(s, name)
    &&& dependents(s, name).len() == 0
    &&& !has_prefix(name, "lib"@)
    &&& !has_prefix(name, "_"@)
}

/// Filtering then mapping one more element of `s` adds at most that
/// element's image at the end.
pub proof fn lemma_filter_map_step<A, B>(s: Seq<A>, i: int, p: spec_fn(A) -> bool, f: spec_fn(A) -> B)
    requires
        0 <= i < s.len(),
    ensures
        s.take(i + 1).filter(p).map_values(f) == if p(s[i]) {
            s.take(i).filter(p).map_values(f).push(f(s[i]))
        } else {
            s.take(i).filter(p).map_values(f)
        },
{
    reveal(Seq::filter);
    assert(s.take(i + 1).drop_last() =~= s.take(i));
    let g = s.take(i).filter(p);
    if p(s[i]) {
        assert(g.push(s[i]).map_values(f) =~= g.map_values(f).push(f(s[i])));
    }
}

/// The package records of an environment, keyed by name.
pub struct Catalog {
    packages: Vec<Metadata>,
}

impl View for Catalog {
    type V = Seq<MetadataView>;

    closed spec fn view(&self) -> Seq<MetadataView> {
        self.packages@.map_values(|m: Metadata| m@)
    }
}

/// A copy of a record.
fn copy_record(m: &Metadata) -> (r: Metadata)
    ensures
        r@ == m@,
{
    let mut requires_dist: Vec<String> = Vec::new();
    let mut i: usize = 0;
    while i < m.requires_dist.len()
        invariant
            i <= m.requires_dist.len(),
            requires_dist.deep_view() == m.requires_dist.deep_view().take(i as int),
        decreases m.requires_dist.len() - i,
    {
        let ghost before = requires_dist.deep_view();
        let c = m.requires_dist[i].clone();
        assert(c@ == m.requires_dist.deep_view()[i as int]);
        requires_dist.push(c);
        assert(requires_dist.deep_view() =~= before.push(c@));
        assert(requires_dist.deep_view() =~= m.requires_dist.deep_view().take(i + 1));
        i = i + 1;
    }
    assert(m.requires_dist.deep_view().take(i as int) =~= m.requires_dist.deep_view());
    Metadata { name: m.name.clone(), version: m.version.clone(), requires_dist }
}

/// Whether `v` holds `name`.
fn contains_name(v: &Vec<String>, name: &str) -> (r: bool)
    ensures
        r == v.deep_view().contains(name@),
{
    let mut i: usize = 0;
    while i < v.len()
        invariant
            i <= v.len(),
            forall|k: int| 0 <= k < i ==> v.deep_view()[k] != name@,
        decreases v.len() - i,
    {
        if str_eq(v[i].as_str(), name) {
            assert(v.deep_view()[i as int] == name@);
            return true;
        }
        i = i + 1;
    }
    false
}

impl Catalog {
    /// Names are unique among the records.
    pub open spec fn wf(&self) -> bool {
        names_unique(self@)
    }

    /// An empty catalog.
    pub fn new() -> (r: Catalog)
        ensures
            r.wf(),
            r@ == Seq::<MetadataView>::empty(),
    {
        let r = Catalog { packages: Vec::new() };
        assert(r@ =~= Seq::<MetadataView>::empty());
        r
    }

    /// The number of records.
    pub fn len(&self) -> (r: usize)
        ensures
            r == self@.len(),
    {
        self.packages.len()
    }

    /// The position of the record named `name`, if any.
    fn position(&self, name: &str) -> (r: Option<usize>)
        requires
            self.wf(),
        ensures
            match r {
                Some(i) => i < self@.len() && self@[i as int].name == name@ && index_of(self@, name@)
                    == i,
                None => !has_package(self@, name@),
            },
    {
        let mut i: usize = 0;
        while i < self.packages.len()
            invariant
                self.wf(),
                i <= self.packages.len(),
                self@.len() == self.packages.len(),
                forall|k: int| 0 <= k < i ==> self@[k].name != name@,
            decreases self.packages.len() - i,
        {
            if str_eq(self.packages[i].name.as_str(), name) {
                assert(self@[i as int].name == name@);
                assert(has_package(self@, name@));
                let ghost k = index_of(self@, name@);
                assert(self@[k].name == name@);
                return Some(i);
            }
            i = i + 1;
        }
        None
    }

    /// Inserts a record; it replaces the record of the same name, if any.
    pub fn insert(&mut self, m: Metadata)
        requires
            old(self).wf(),
        ensures
            final(self).wf(),
            final(self)@ == upsert(old(self)@, m@),
    {
        let ghost s = self@;
        let ghost mv = m@;
        match self.position(m.name.as_str()) {
            Some(i) => {
                self.packages.set(i, m);
                assert(self@ =~= s.update(i as int, mv));
            },
            None => {
                self.packages.push(m);
                assert(self@ =~= s.push(mv));
            },
        }
    }

    /// The catalog holding `records`; of two records with one name, the
    /// later one is kept.
    pub fn from_records(records: Vec<Metadata>) -> (r: Catalog)
        ensures
            r.wf(),
            r@ == collected(records@.map_values(|m: Metadata| m@)),
    {
        let ghost rs = records@.map_values(|m: Metadata| m@);
        let mut c = Catalog::new();
        let mut records = records;
        let mut rest: Vec<Metadata> = Vec::new();
        // Take the records from the back and insert them from the front.
        while records.len() > 0
            invariant
                rs.len() == records@.len() + rest@.len(),
                forall|k: int| 0 <= k < records@.len() ==> rs[k] == #[trigger] records@[k]@,
                forall|k: int|
                    0 <= k < rest@.len() ==> rs[rs.len() - 1 - k] == #[trigger] rest@[k]@,
            decreases records.len(),
        {
            let m = records.pop().unwrap();
            rest.push(m);
        }
        assert(rs.take(0) =~= Seq::<MetadataView>::empty());
        while rest.len() > 0
            invariant
                c.wf(),
                rest@.len() <= rs.len(),
                c@ == collected(rs.take(rs.len() - rest@.len())),
                forall|k: int|
                    0 <= k < rest@.len() ==> rs[rs.len() - 1 - k] == #[trigger] rest@[k]@,
            decreases rest.len(),
        {
            let ghost done = rs.len() - rest@.len();
            let m = rest.pop().unwrap();
            assert(m@ == rs[done]);
            assert(rs.take(done + 1).drop_last() =~= rs.take(done));
            c.insert(m);
        }
        assert(rs.take(rs.len() as int) =~= rs);
        c
    }

    /// The names of the records, in catalog order.
    pub fn names(&self) -> (r: Vec<String>)
        ensures
            r.deep_view() == self@.map_values(|m: MetadataView| m.name),
    {
        let mut out: Vec<String> = Vec::new();
        let mut i: usize = 0;
        while i < self.packages.len()
            invariant
                i <= self.packages.len(),
                self@.len() == self.packages.len(),
                out.deep_view() == self@.map_values(|m: MetadataView| m.name).take(i as int),
            decreases self.packages.len() - i,
        {
            let ghost before = out.deep_view();
            assert(self.packages[i as int]@ == self@[i as int]);
            let name = self.packages[i].name.clone();
            out.push(name);
            assert(out.deep_view() =~= before.push(self@[i as int].name));
            assert(out.deep_view() =~= self@.map_values(|m: MetadataView| m.name).take(i + 1));
            i = i + 1;
        }
        assert(self@.map_values(|m: MetadataView| m.name).take(i as int) =~= self@.map_values(
            |m: MetadataView| m.name,
        ));
        out
    }

    /// The record named `name`, if any.
    pub fn get(&self, name: &str) -> (r: Option<&Metadata>)
        requires
            self.wf(),
        ensures
            match r {
                Some(m) => has_package(self@, name@) && m@ == self@[index_of(self@, name@)],
                None => !has_package(self@, name@),
            },
    {
        match self.position(name) {
            Some(i) => Some(&self.packages[i]),
            None => None,
        }
    }
}

impl Metadata {
    /// A copy of the record named `name` in the catalog.
    pub fn from_name(catalog: &Catalog, name: &str) -> (r: Result<Metadata, NotFoundError>)
        requires
            catalog.wf(),
        ensures
            match r {
                Ok(m) => has_package(catalog@, name@) && m@ == catalog@[index_of(catalog@, name@)],
                Err(e) => !has_package(catalog@, name@) && e.name@ == name@,
            },
    {
        match catalog.get(name) {
            Some(m) => Ok(copy_record(m)),
            None => Err(NotFoundError { name: String::from_str(name) }),
        }
    }
}

/// The names of the packages that require `name`, in catalog order, leaving
/// out interpreter packages (named `python...`). Fails when no package is
/// named `name`.
pub fn get_dependent_packages(catalog: &Catalog, name: &str) -> (r: Result<Vec<String>, NotFoundError>)
    ensures
        match r {
            Ok(v) => has_package(catalog@, name@) && v.deep_view() == dependents(catalog@, name@),
            Err(e) => !has_package(catalog@, name@) && e.name@ == name@,
        },
{
    let ghost s = catalog@;
    let ghost p = |m: MetadataView| depends_on(m, name@);
    let ghost f = |m: MetadataView| m.name;
    let mut found = false;
    let mut out: Vec<String> = Vec::new();
    let mut i: usize = 0;
    assert(s.take(0).filter(p).map_values(f) =~= Seq::<Seq<char>>::empty()) by {
        reveal(Seq::filter);
    }
    while i < catalog.packages.len()
        invariant
            s == catalog@,
            s.len() == catalog.packages.len(),
            p == (|m: MetadataView| depends_on(m, name@)),
            f == (|m: MetadataView| m.name),
            i <= s.len(),
            found == exists|k: int| 0 <= k < i && #[trigger] s[k].name == name@,
            out.deep_view() == s.take(i as int).filter(p).map_values(f),
        decreases s.len() - i,
    {
        let m = &catalog.packages[i];
        assert(m@ == s[i as int]);
        if str_eq(m.name.as_str(), name) {
            found = true;
        }
        proof {
            lemma_filter_map_step(s, i as int, p, f);
        }
        let ghost before = out.deep_view();
        if contains_name(&m.requires_dist, name) && !starts_with(m.name.as_str(), "python") {
            out.push(m.name.clone());
            assert(out.deep_view() =~= before.push(f(s[i as int])));
        }
        i = i + 1;
    }
    assert(s.take(i as int) =~= s);
    if found {
        Ok(out)
    } else {
        Err(NotFoundError { name: String::from_str(name) })
    }
}

/// The leaves of the catalog, sorted: the packages on which no package
/// depends, leaving out low-level libraries (named `lib...` or `_...`).
pub fn get_leaves(catalog: &Catalog) -> (r: Vec<String>)
    requires
        catalog.wf(),
    ensures
        strictly_sorted(r.deep_view()),
        r.deep_view().no_duplicates(),
        forall|x: Seq<char>|
            #![trigger r.deep_view().contains(x)]
            r.deep_view().contains(x) <==> is_leaf(catalog@, x),
{
    let ghost s = catalog@;
    let mut out: Vec<String> = Vec::new();
    let mut i: usize = 0;
    while i < catalog.packages.len()
        invariant
            s == catalog@,
            names_unique(s),
            s.len() == catalog.packages.len(),
            i <= s.len(),
            strictly_sorted(out.deep_view()),
            forall|x: Seq<char>|
                #![trigger out.deep_view().contains(x)]
                out.deep_view().contains(x) <==> exists|k: int|
                    0 <= k < i && #[trigger] s[k].name == x && is_leaf(s, x),
        decreases s.len() - i,
    {
        let m = &catalog.packages[i];
        let ghost x = s[i as int].name;
        assert(m.name@ == x);
        assert(has_package(s, x));
        let deps = get_dependent_packages(catalog, m.name.as_str());
        let leaf = match deps {
            Ok(d) => d.len() == 0 && !starts_with(m.name.as_str(), "lib") && !starts_with(
                m.name.as_str(),
                "_",
            ),
            Err(_) => false,
        };
        let ghost before = out.deep_view();
        if leaf {
            proof {
                if before.contains(x) {
                    let k = choose|k: int| 0 <= k < i && #[trigger] s[k].name == x && is_leaf(s, x);
                    assert(s[k].name == s[i as int].name);
                }
            }
            insert_sorted(&mut out, m.name.clone());
        }
        assert forall|y: Seq<char>|
            #![trigger out.deep_view().contains(y)]
            out.deep_view().contains(y) <==> exists|k: int|
                0 <= k < i + 1 && #[trigger] s[k].name == y && is_leaf(s, y) by {
            if y == x && is_leaf(s, y) {
                assert(s[i as int].name == y);
            }
            if exists|k: int| 0 <= k < i + 1 && #[trigger] s[k].name == y && is_leaf(s, y) {
                let k = choose|k: int| 0 <= k < i + 1 && #[trigger] s[k].name == y && is_leaf(s, y);
                if k < i {
                    assert(before.contains(y));
                }
            }
        }
        i = i + 1;
    }
    proof {
        lemma_sorted_no_duplicates(out.deep_view());
    }
    out
}

/// A name is among the dependents of `name` exactly when a record of that
/// name depends on `name`.
pub proof fn lemma_dependents_members(s: Seq<MetadataView>, name: Seq<char>, x: Seq<char>)
    ensures
        dependents(s, name).contains(x) <==> exists|k: int|
            0 <= k < s.len() && #[trigger] s[k].name == x && depends_on(s[k], name),
    decreases s.len(),
{
    reveal(Seq::filter);
    let p = |m: MetadataView| depends_on(m, name);
    let f = |m: MetadataView| m.name;
    let ex = exists|k: int| 0 <= k < s.len() && #[trigger] s[k].name == x && depends_on(s[k], name);
    if s.len() == 0 {
        assert(dependents(s, name).len() == 0);
        assert(!ex);
    } else {
        let d = s.drop_last();
        let last = s[s.len() - 1];
        lemma_dependents_members(d, name, x);
        let g = d.filter(p);
        let hit = p(last) && last.name == x;
        if p(last) {
            assert(dependents(s, name) =~= g.map_values(f).push(last.name));
        } else {
            assert(dependents(s, name) =~= g.map_values(f));
        }
        assert(dependents(d, name) == g.map_values(f));
        // Either the last record is a witness, or the witness lies in `d`.
        assert(ex <==> (hit || dependents(d, name).contains(x))) by {
            if ex {
                let k = choose|k: int|
                    0 <= k < s.len() && #[trigger] s[k].name == x && depends_on(s[k], name);
                if k < s.len() - 1 {
                    assert(d[k].name == x);
                }
            }
            if dependents(d, name).contains(x) {
                let k = choose|k: int|
                    0 <= k < d.len() && #[trigger] d[k].name == x && depends_on(d[k], name);
                assert(s[k].name == x);
            }
            if hit {
                assert(s[s.len() - 1].name == x);
            }
        }
        assert(dependents(s, name).contains(x) <==> (hit || dependents(d, name).contains(x))) by {
            if p(last) {
                if dependents(s, name).contains(x) && !hit {
                    let j = choose|j: int|
                        0 <= j < dependents(s, name).len() && dependents(s, name)[j] == x;
                    assert(dependents(d, name)[j] == x);
                }
                if dependents(d, name).contains(x) {
                    let j = choose|j: int|
                        0 <= j < dependents(d, name).len() && dependents(d, name)[j] == x;
                    assert(dependents(s, name)[j] == x);
                }
                if hit {
                    assert(dependents(s, name)[dependents(s, name).len() - 1] == x);
                }
            }
        }
    }
}

/// The dependents of a package never include an interpreter package (named
/// `python...`), and never include the package itself as long as no package
/// lists itself among its requirements.
pub proof fn lemma_dependents_exclude_self_and_python(catalog: &Catalog, name: Seq<char>)
    requires
        forall|i: int| 0 <= i < catalog@.len() ==> !(#[trigger] catalog@[i]).requires.contains(catalog@[i].name),
    ensures
        !dependents(catalog@, name).contains(name),
        forall|x: Seq<char>|
            #[trigger] dependents(catalog@, name).contains(x) ==> !has_prefix(x, "python"@),
{
    let s = catalog@;
    lemma_dependents_members(s, name, name);
    assert forall|x: Seq<char>|
        #[trigger] dependents(s, name).contains(x) implies !has_prefix(x, "python"@) by {
        lemma_dependents_members(s, name, x);
    }
    if dependents(s, name).contains(name) {
        let k = choose|k: int| 0 <= k < s.len() && #[trigger] s[k].name == name && depends_on(s[k], name);
        assert(s[k].requires.contains(s[k].name));
    }
}

} // verus!
