//! A conda environment ready for export: its name and its packages.
use vstd::prelude::*;
use crate::catalog::Catalog;
use crate::environment::{EnvironmentYml, yml_text};
use crate::error::ResolveError;
use crate::metadata::MetadataView;
use crate::package::{Installer, Package, PackageView, pinned, resolve_all};

verus! {

/// The pinned forms of the packages of `ps` installed by `installer`.
pub open spec fn pinned_by(ps: Seq<PackageView>, installer: Installer) -> Seq<Seq<char>> {
    ps.filter(|p: PackageView| p.installer == installer).map_values(|p: PackageView| pinned(p))
}

/// The text of the environment file of an environment named `name` holding
/// `ps`: conda packages as dependencies, and pip packages in a pip list when
/// there are any.
pub open spec fn env_text(name: Seq<char>, ps: Seq<PackageView>) -> Seq<char> {
    let pip = pinned_by(ps, Installer::Pip);
    yml_text(
        name,
        pinned_by(ps, Installer::Conda),
        if pip.len() > 0 {
            Some(pip)
        } else {
            None
        },
    )
}

/// A named environment and its packages.
pub struct CondaEnv {
    name: String,
    installed_packages: Vec<Package>,
}

impl CondaEnv {
    pub closed spec fn name(&self) -> Seq<char> {
        self.name@
    }

    pub closed spec fn packages(&self) -> Seq<PackageView> {
        self.installed_packages@.map_values(|p: Package| p@)
    }

    pub fn new(name: String, installed_packages: Vec<Package>) -> (r: CondaEnv)
        ensures
            r.name() == name@,
            r.packages() == installed_packages@.map_values(|p: Package| p@),
    {
        CondaEnv { name, installed_packages }
    }

    /// The environment holding the packages named `leaves`, each resolved
    /// through the catalog; the first failure is the result.
    pub fn from_leaves(name: String, catalog: &Catalog, leaves: &Vec<String>) -> (r: Result<
        CondaEnv,
        ResolveError,
    >)
        requires
            catalog.wf(),
        ensures
            match (r, resolve_all(catalog@, leaves.deep_view(), catalog@.len())) {
                (Ok(e), Ok(ps)) => e.name() == name@ && e.packages() == ps,
                (Err(e), Err(f)) => e@ == f,
                _ => false,
            },
    {
        let installed_packages = Package::resolve_names(catalog, leaves, catalog.len())?;
        Ok(CondaEnv { name, installed_packages })
    }

    /// The environment holding every package of the catalog, in catalog
    /// order, each resolved through the catalog; the first failure is the
    /// result.
    pub fn from_catalog(name: String, catalog: &Catalog) -> (r: Result<CondaEnv, ResolveError>)
        requires
            catalog.wf(),
        ensures
            match (
                r,
                resolve_all(
                    catalog@,
                    catalog@.map_values(|m: MetadataView| m.name),
                    catalog@.len(),
                ),
            ) {
                (Ok(e), Ok(ps)) => e.name() == name@ && e.packages() == ps,
                (Err(e), Err(f)) => e@ == f,
                _ => false,
            },
    {
        let names = catalog.names();
        CondaEnv::from_leaves(name, catalog, &names)
    }

    /// The pinned forms of the packages installed by `installer`, in order.
    fn pinned_list(&self, installer: Installer) -> (r: Vec<String>)
        ensures
            r.deep_view() == pinned_by(self.packages(), installer),
    {
        let ghost ps = self.packages();
        let ghost pred = |p: PackageView| p.installer == installer;
        let ghost f = |p: PackageView| pinned(p);
        let mut out: Vec<String> = Vec::new();
        let mut i: usize = 0;
        assert(ps.take(0).filter(pred).map_values(f) =~= Seq::<Seq<char>>::empty()) by {
            reveal(Seq::filter);
        }
        while i < self.installed_packages.len()
            invariant
                ps == self.packages(),
                ps.len() == self.installed_packages.len(),
                pred == (|p: PackageView| p.installer == installer),
                f == (|p: PackageView| pinned(p)),
                i <= ps.len(),
                out.deep_view() == ps.take(i as int).filter(pred).map_values(f),
            decreases ps.len() - i,
        {
            let p = &self.installed_packages[i];
            assert(p@ == ps[i as int]);
            proof {
                crate::catalog::lemma_filter_map_step(ps, i as int, pred, f);
            }
            if p.installer() == installer {
                let ghost before = out.deep_view();
                let s = p.to_pinned();
                out.push(s);
                assert(out.deep_view() =~= before.push(f(ps[i as int])));
            }
            i = i + 1;
        }
        assert(ps.take(i as int) =~= ps);
        out
    }

    /// The text of the environment's file: its conda packages as
    /// dependencies, and its pip packages in a pip list when there are any.
    pub fn to_yml(&self) -> (r: String)
        ensures
            r@ == env_text(self.name(), self.packages()),
    {
        let conda = self.pinned_list(Installer::Conda);
        let pip = self.pinned_list(Installer::Pip);
        let pip = if pip.len() > 0 {
            Some(pip)
        } else {
            None
        };
        let yml = EnvironmentYml::new(self.name.clone(), conda, pip);
        yml.to_text()
    }
}

} // verus!
