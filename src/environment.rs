//! The text of an environment file: a name, a list of conda dependencies and
//! an optional list of pip dependencies.
use vstd::prelude::*;
use vstd::string::StringExecFns;

verus! {

/// The lines `\n<bullet><item>` for each item, in order.
pub open spec fn items_text(items: Seq<Seq<char>>, bullet: Seq<char>) -> Seq<char>
    decreases items.len(),
{
    if items.len() == 0 {
        Seq::empty()
    } else {
        items_text(items.drop_last(), bullet) + "\n"@ + bullet + items.last()
    }
}

/// The text of an environment file.
pub open spec fn yml_text(
    name: Seq<char>,
    dependencies: Seq<Seq<char>>,
    pip: Option<Seq<Seq<char>>>,
) -> Seq<char> {
    "name: "@ + name + "\n"@ + "dependencies:"@ + items_text(dependencies, "  - "@) + "\n"@
        + match pip {
        Some(p) => "  - pip:"@ + items_text(p, "    - "@) + "\n"@,
        None => Seq::empty(),
    }
}

/// Appends `\n<bullet><item>` to `out` for each item.
pub(crate) fn append_items(out: &mut String, items: &Vec<String>, bullet: &str)
    ensures
        final(out)@ == old(out)@ + items_text(items.deep_view(), bullet@),
{
    let ghost start = out@;
    let ghost its = items.deep_view();
    let mut i: usize = 0;
    assert(its.take(0) =~= Seq::<Seq<char>>::empty());
    assert(out@ =~= start + items_text(its.take(0), bullet@));
    while i < items.len()
        invariant
            its == items.deep_view(),
            i <= its.len(),
            out@ == start + items_text(its.take(i as int), bullet@),
        decreases its.len() - i,
    {
        out.append("\n");
        out.append(bullet);
        out.append(items[i].as_str());
        assert(its.take(i + 1).drop_last() =~= its.take(i as int));
        assert(out@ =~= start + items_text(its.take(i + 1), bullet@));
        i = i + 1;
    }
    assert(its.take(i as int) =~= its);
}

/// An environment file's contents.
pub struct EnvironmentYml {
    name: String,
    dependencies: Vec<String>,
    pip: Option<Vec<String>>,
}

impl EnvironmentYml {
    pub fn new(name: String, dependencies: Vec<String>, pip: Option<Vec<String>>) -> (r: Self)
        ensures
            r.name() == name@,
            r.dependencies() == dependencies.deep_view(),
            r.pip() == match pip {
                Some(p) => Some(p.deep_view()),
                None => None::<Seq<Seq<char>>>,
            },
    {
        EnvironmentYml { name, dependencies, pip }
    }

    pub closed spec fn name(&self) -> Seq<char> {
        self.name@
    }

    pub closed spec fn dependencies(&self) -> Seq<Seq<char>> {
        self.dependencies.deep_view()
    }

    pub closed spec fn pip(&self) -> Option<Seq<Seq<char>>> {
        match self.pip {
            Some(p) => Some(p.deep_view()),
            None => None,
        }
    }

    /// The text of the file: `name: <name>`, then `dependencies:` with one
    /// `  - <dependency>` line each, then, when there is a pip list,
    /// `  - pip:` with one `    - <dependency>` line each.
    pub fn to_text(&self) -> (r: String)
        ensures
            r@ == yml_text(self.name(), self.dependencies(), self.pip()),
    {
        let mut out = String::from_str("name: ");
        out.append(self.name.as_str());
        out.append("\n");
        out.append("dependencies:");
        append_items(&mut out, &self.dependencies, "  - ");
        out.append("\n");
        match &self.pip {
            Some(p) => {
                out.append("  - pip:");
                append_items(&mut out, p, "    - ");
                out.append("\n");
            },
            None => {},
        }
        out
    }
}

} // verus!
